//! Case-insensitive substring matching over decrypted payload bytes.
//!
//! A query matches a payload when the payload, with ASCII letters folded to
//! lower case, contains the folded query as a contiguous run of bytes.  Only
//! entries with a `text/...` mime type are eligible; binary payloads never
//! match a text query.

use vstd::prelude::*;

verus! {

/// ASCII lower-case folding of one byte; bytes outside `A`..`Z` are unchanged.
pub open spec fn fold_byte(b: u8) -> u8 {
    if 65 <= b <= 90 {
        (b + 32) as u8
    } else {
        b
    }
}

/// The needle occurs at offset `i` of the haystack, compared byte for byte
/// under ASCII case folding.
pub open spec fn matches_at(hay: Seq<u8>, needle: Seq<u8>, i: int) -> bool {
    &&& 0 <= i
    &&& i + needle.len() <= hay.len()
    &&& forall|j: int| 0 <= j < needle.len() ==> fold_byte(hay[i + j]) == fold_byte(needle[j])
}

/// The haystack contains the needle, case-insensitively, at some offset.
pub open spec fn contains_ci(hay: Seq<u8>, needle: Seq<u8>) -> bool {
    exists|i: int| matches_at(hay, needle, i)
}

/// A mime type names text content when it starts with the five bytes of
/// `text/`.
pub open spec fn is_text_mime(mime: Seq<u8>) -> bool {
    &&& mime.len() >= 5
    &&& mime[0] == 116
    &&& mime[1] == 101
    &&& mime[2] == 120
    &&& mime[3] == 116
    &&& mime[4] == 47
}

/// Fold one byte to ASCII lower case.
pub fn fold_byte_exec(b: u8) -> (r: u8)
    ensures
        r == fold_byte(b),
{
    if 65 <= b && b <= 90 {
        b + 32
    } else {
        b
    }
}

/// Does the needle occur at offset `i` of the haystack?
#[verifier::loop_isolation(false)]
fn matches_at_exec(hay: &[u8], needle: &[u8], i: usize) -> (r: bool)
    requires
        i + needle@.len() <= hay@.len(),
    ensures
        r == matches_at(hay@, needle@, i as int),
{
    let hl: usize = hay.len();
    let n = needle.len();
    let mut j: usize = 0;
    while j < n
        invariant
            j <= n,
            i + n <= hl,
            forall|k: int| 0 <= k < j ==> fold_byte(hay@[i + k]) == fold_byte(needle@[k]),
        decreases n - j,
    {
        assert(i + j < hl);
        if fold_byte_exec(hay[i + j]) != fold_byte_exec(needle[j]) {
            assert(!matches_at(hay@, needle@, i as int));
            return false;
        }
        j = j + 1;
    }
    true
}

/// Does the haystack contain the needle, case-insensitively?
#[verifier::loop_isolation(false)]
pub fn contains_ci_exec(hay: &[u8], needle: &[u8]) -> (r: bool)
    ensures
        r == contains_ci(hay@, needle@),
{
    let hl = hay.len();
    let nl = needle.len();
    if nl > hl {
        assert(forall|i: int| !matches_at(hay@, needle@, i));
        return false;
    }
    let mut i: usize = 0;
    while i <= hl - nl
        invariant
            i <= hl - nl + 1,
            forall|k: int| 0 <= k < i ==> !matches_at(hay@, needle@, k),
        decreases hl - nl + 1 - i,
    {
        if matches_at_exec(hay, needle, i) {
            return true;
        }
        i = i + 1;
    }
    assert forall|k: int| !matches_at(hay@, needle@, k) by {
        if 0 <= k < i {
        } else if k > hl - nl {
            assert(!matches_at(hay@, needle@, k));
        }
    }
    false
}

/// Is this mime type a text type?
pub fn is_text_mime_exec(mime: &Vec<u8>) -> (r: bool)
    ensures
        r == is_text_mime(mime@),
{
    if mime.len() < 5 {
        return false;
    }
    mime[0] == 116 && mime[1] == 101 && mime[2] == 120 && mime[3] == 116 && mime[4] == 47
}

} // verus!
