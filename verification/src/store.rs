//! The encrypted history store: an ordered sequence of sealed clipboard
//! captures, most-recent-first, with deduplication against the most recent
//! entry, a configurable maximum entry count enforced by evicting the oldest
//! entries, deletion by id, and a query engine over the decrypted payloads.

use vstd::prelude::*;

use crate::codec;
use crate::codec::{open_of, seal_of, valid_key, valid_nonce, MAX_PAYLOAD_LEN, TAG_LEN};
use crate::errors::{CodecError, LookupError, StoreError};
use crate::search::{contains_ci, is_text_mime};

verus! {

/// One clipboard capture as held at rest: the payload is sealed, only the
/// metadata is in the clear.
pub struct HistoryEntry {
    /// Unique identifier, strictly decreasing from most recent to oldest.
    pub id: u64,
    /// Capture time, as the caller's clock gave it.
    pub timestamp: u64,
    /// Mime type of the payload, as bytes of its name (for instance `text/plain`).
    pub mime_type: Vec<u8>,
    /// The nonce the payload was sealed with.
    pub nonce: Vec<u8>,
    /// The sealed payload, authentication tag included.
    pub ciphertext: Vec<u8>,
}

/// The mathematical model of one entry.
pub ghost struct EntryModel {
    pub id: u64,
    pub timestamp: u64,
    pub mime_type: Seq<u8>,
    pub nonce: Seq<u8>,
    pub ciphertext: Seq<u8>,
}

impl View for HistoryEntry {
    type V = EntryModel;

    open spec fn view(&self) -> EntryModel {
        EntryModel {
            id: self.id,
            timestamp: self.timestamp,
            mime_type: self.mime_type@,
            nonce: self.nonce@,
            ciphertext: self.ciphertext@,
        }
    }
}

impl HistoryEntry {
    /// Structural copy of the entry.
    pub fn duplicate(&self) -> (r: HistoryEntry)
        ensures
            r@ == self@,
    {
        HistoryEntry {
            id: self.id,
            timestamp: self.timestamp,
            mime_type: vstd::slice::slice_to_vec(self.mime_type.as_slice()),
            nonce: vstd::slice::slice_to_vec(self.nonce.as_slice()),
            ciphertext: vstd::slice::slice_to_vec(self.ciphertext.as_slice()),
        }
    }
}

/// What decrypting this entry under `key` yields: the plaintext, or nothing
/// when the nonce is malformed, the ciphertext is not framed (too short to
/// carry a tag, or its body beyond the cipher backend's bound), or the tag
/// does not authenticate.
pub open spec fn entry_plaintext(key: Seq<u8>, e: EntryModel) -> Option<Seq<u8>> {
    if valid_nonce(e.nonce) && TAG_LEN <= e.ciphertext.len() <= MAX_PAYLOAD_LEN + TAG_LEN {
        open_of(key, e.nonce, e.ciphertext)
    } else {
        None
    }
}

/// Some entry carries this id.
pub open spec fn spec_has_id(s: Seq<EntryModel>, id: u64) -> bool {
    exists|k: int| 0 <= k < s.len() && (#[trigger] s[k]).id == id
}

/// Ids strictly decrease from most recent to oldest; in particular every id is
/// unique and the head entry carries the largest id.
pub open spec fn ids_decreasing(s: Seq<EntryModel>) -> bool {
    forall|i: int, j: int| 0 <= i < j < s.len() ==> s[i].id > s[j].id
}

/// The new capture equals the most recent entry: same mime type, and the head
/// entry decrypts under the process key to exactly the new payload.
pub open spec fn spec_dedup_head(s: Seq<EntryModel>, key: Seq<u8>, payload: Seq<u8>, mime: Seq<u8>) -> bool {
    &&& s.len() > 0
    &&& s[0].mime_type == mime
    &&& entry_plaintext(key, s[0]) == Some(payload)
}

/// Keep at most `max` entries, dropping the oldest.
pub open spec fn evict(s: Seq<EntryModel>, max: nat) -> Seq<EntryModel> {
    if s.len() <= max {
        s
    } else {
        s.take(max as int)
    }
}

/// The model of one add that actually inserts: the fresh entry is prepended
/// and the oldest entries beyond the bound are evicted.
pub open spec fn spec_insert(s: Seq<EntryModel>, e: EntryModel, max: nat) -> Seq<EntryModel> {
    evict(seq![e] + s, max)
}

/// The id a fresh entry receives: one more than the largest id present.
pub open spec fn spec_next_id(s: Seq<EntryModel>) -> int {
    if s.len() == 0 {
        1
    } else {
        s[0].id + 1
    }
}

/// Byte-for-byte equality of two byte strings.
#[verifier::loop_isolation(false)]
pub fn bytes_eq(a: &[u8], b: &[u8]) -> (r: bool)
    ensures
        r == (a@ == b@),
{
    if a.len() != b.len() {
        return false;
    }
    let n = a.len();
    let mut i: usize = 0;
    while i < n
        invariant
            i <= n,
            forall|k: int| 0 <= k < i ==> a@[k] == b@[k],
        decreases n - i,
    {
        if a[i] != b[i] {
            return false;
        }
        i = i + 1;
    }
    proof {
        assert(a@ =~= b@);
    }
    true
}

/// Does the id occur in the list?
#[verifier::loop_isolation(false)]
fn contains_id(ids: &Vec<u64>, id: u64) -> (r: bool)
    ensures
        r == ids@.contains(id),
{
    let n = ids.len();
    let mut i: usize = 0;
    while i < n
        invariant
            i <= n,
            forall|k: int| 0 <= k < i ==> ids@[k] != id,
        decreases n - i,
    {
        if ids[i] == id {
            return true;
        }
        i = i + 1;
    }
    false
}

/// The full model of one add, as `HistoryStore::add` establishes it: dedup
/// against the head entry, else prepend a fresh entry carrying the next id
/// and the given nonce and ciphertext, and evict beyond the bound.
pub open spec fn spec_add(
    s: Seq<EntryModel>,
    key: Seq<u8>,
    payload: Seq<u8>,
    mime: Seq<u8>,
    ts: u64,
    nonce: Seq<u8>,
    ct: Seq<u8>,
    max: nat,
) -> Seq<EntryModel> {
    if spec_dedup_head(s, key, payload, mime) {
        s
    } else {
        spec_insert(
            s,
            EntryModel {
                id: spec_next_id(s) as u64,
                timestamp: ts,
                mime_type: mime,
                nonce,
                ciphertext: ct,
            },
            max,
        )
    }
}

/// Dedup idempotence: once a payload has been added, adding the same payload
/// with the same mime type again, in immediate succession, changes nothing —
/// whatever fresh nonce, ciphertext and timestamp the second call would use.
/// The requires state just what the codec guarantees of the ciphertext the
/// first add sealed: it decrypts back to the payload.
pub proof fn lemma_add_twice_dedups(
    s: Seq<EntryModel>,
    key: Seq<u8>,
    payload: Seq<u8>,
    mime: Seq<u8>,
    ts: u64,
    nonce: Seq<u8>,
    ct: Seq<u8>,
    max: nat,
    ts2: u64,
    nonce2: Seq<u8>,
    ct2: Seq<u8>,
)
    requires
        max >= 1,
        valid_nonce(nonce),
        TAG_LEN <= ct.len() <= MAX_PAYLOAD_LEN + TAG_LEN,
        open_of(key, nonce, ct) == Some(payload),
    ensures
        spec_dedup_head(spec_add(s, key, payload, mime, ts, nonce, ct, max), key, payload, mime),
        spec_add(
            spec_add(s, key, payload, mime, ts, nonce, ct, max),
            key,
            payload,
            mime,
            ts2,
            nonce2,
            ct2,
            max,
        ) == spec_add(s, key, payload, mime, ts, nonce, ct, max),
{
    let r = spec_add(s, key, payload, mime, ts, nonce, ct, max);
    if !spec_dedup_head(s, key, payload, mime) {
        let e = EntryModel {
            id: spec_next_id(s) as u64,
            timestamp: ts,
            mime_type: mime,
            nonce,
            ciphertext: ct,
        };
        assert(r[0] == (seq![e] + s)[0]);
        assert(entry_plaintext(key, e) == Some(payload));
    }
}

/// One clipboard capture, as the model of an add sees it: payload, mime type
/// and timestamp together with the sealed bytes the codec produced for them.
pub ghost struct CaptureModel {
    pub payload: Seq<u8>,
    pub mime: Seq<u8>,
    pub ts: u64,
    pub nonce: Seq<u8>,
    pub ciphertext: Seq<u8>,
}

/// The capture's sealed bytes are what `codec::encrypt` guarantees of them:
/// a well-formed nonce, a framed ciphertext, and decryption back to the
/// payload.
pub open spec fn capture_sealed(key: Seq<u8>, c: CaptureModel) -> bool {
    &&& valid_nonce(c.nonce)
    &&& TAG_LEN <= c.ciphertext.len() <= MAX_PAYLOAD_LEN + TAG_LEN
    &&& open_of(key, c.nonce, c.ciphertext) == Some(c.payload)
}

/// One add of a capture.
pub open spec fn apply_capture(s: Seq<EntryModel>, key: Seq<u8>, c: CaptureModel, max: nat) -> Seq<
    EntryModel,
> {
    spec_add(s, key, c.payload, c.mime, c.ts, c.nonce, c.ciphertext, max)
}

/// A run of adds, first capture first.
pub open spec fn spec_add_all(
    s: Seq<EntryModel>,
    key: Seq<u8>,
    caps: Seq<CaptureModel>,
    max: nat,
) -> Seq<EntryModel>
    decreases caps.len(),
{
    if caps.len() == 0 {
        s
    } else {
        spec_add_all(apply_capture(s, key, caps[0], max), key, caps.drop_first(), max)
    }
}

/// The entry a capture becomes once it receives its id.
pub open spec fn entry_of_capture(c: CaptureModel, id: u64) -> EntryModel {
    EntryModel { id, timestamp: c.ts, mime_type: c.mime, nonce: c.nonce, ciphertext: c.ciphertext }
}

/// A run of adds is the same as adding the last capture after the rest.
proof fn lemma_add_all_snoc(s: Seq<EntryModel>, key: Seq<u8>, caps: Seq<CaptureModel>, c: CaptureModel, max: nat)
    ensures
        spec_add_all(s, key, caps.push(c), max) == apply_capture(
            spec_add_all(s, key, caps, max),
            key,
            c,
            max,
        ),
    decreases caps.len(),
{
    let p = caps.push(c);
    if caps.len() == 0 {
        assert(p[0] == c);
        assert(p.drop_first() =~= Seq::<CaptureModel>::empty());
        assert(spec_add_all(s, key, p, max) == spec_add_all(
            apply_capture(s, key, c, max),
            key,
            p.drop_first(),
            max,
        ));
        assert(spec_add_all(apply_capture(s, key, c, max), key, p.drop_first(), max)
            == apply_capture(s, key, c, max));
        assert(spec_add_all(s, key, caps, max) == s);
    } else {
        assert(p[0] == caps[0]);
        assert(p.drop_first() =~= caps.drop_first().push(c));
        let s1 = apply_capture(s, key, caps[0], max);
        assert(spec_add_all(s, key, p, max) == spec_add_all(s1, key, p.drop_first(), max));
        lemma_add_all_snoc(s1, key, caps.drop_first(), c, max);
        assert(spec_add_all(s, key, caps, max) == spec_add_all(s1, key, caps.drop_first(), max));
    }
}

/// Eviction bound over a whole run: starting from an empty store, a run of
/// adds in which no two neighbouring captures repeat the same payload and
/// mime type stores every capture, and once the run exceeds the bound the
/// store holds exactly `max` entries — the most recent captures, in
/// most-recent-first order, each carrying its run position as id and
/// decrypting to its own payload.
pub proof fn lemma_eviction_after_adds(key: Seq<u8>, caps: Seq<CaptureModel>, max: nat)
    requires
        max >= 1,
        caps.len() <= u64::MAX,
        forall|i: int| 0 <= i < caps.len() ==> capture_sealed(key, #[trigger] caps[i]),
        forall|i: int| 0 <= i < caps.len() - 1 ==> ((#[trigger] caps[i]).payload != caps[i
            + 1].payload || caps[i].mime != caps[i + 1].mime),
    ensures
        ({
            let r = spec_add_all(Seq::<EntryModel>::empty(), key, caps, max);
            &&& r.len() == if caps.len() <= max {
                caps.len() as int
            } else {
                max as int
            }
            &&& forall|k: int| 0 <= k < r.len() ==> r[k] == entry_of_capture(
                caps[caps.len() - 1 - k],
                (caps.len() - k) as u64,
            )
            &&& forall|k: int| 0 <= k < r.len() ==> entry_plaintext(key, #[trigger] r[k]) == Some(
                caps[caps.len() - 1 - k].payload,
            )
        }),
    decreases caps.len(),
{
    let n = caps.len() as int;
    let r = spec_add_all(Seq::<EntryModel>::empty(), key, caps, max);
    if n == 0 {
    } else {
        let rest = caps.drop_last();
        let c = caps.last();
        lemma_eviction_after_adds(key, rest, max);
        let prev = spec_add_all(Seq::<EntryModel>::empty(), key, rest, max);
        assert(rest.push(c) =~= caps);
        lemma_add_all_snoc(Seq::<EntryModel>::empty(), key, rest, c, max);
        assert(r == apply_capture(prev, key, c, max));
        if n == 1 {
            assert(prev.len() == 0);
            assert(!spec_dedup_head(prev, key, c.payload, c.mime));
        } else {
            assert(prev[0] == entry_of_capture(rest[n - 2], (n - 1) as u64));
            assert(entry_plaintext(key, prev[0]) == Some(rest[n - 2].payload));
            assert(!spec_dedup_head(prev, key, c.payload, c.mime)) by {
                assert(caps[n - 2] == rest[n - 2]);
                assert(caps[n - 1] == c);
                if prev[0].mime_type == c.mime && entry_plaintext(key, prev[0]) == Some(c.payload) {
                    assert(c.payload == rest[n - 2].payload);
                    assert(c.mime == rest[n - 2].mime);
                }
            }
        }
        let e = EntryModel {
            id: spec_next_id(prev) as u64,
            timestamp: c.ts,
            mime_type: c.mime,
            nonce: c.nonce,
            ciphertext: c.ciphertext,
        };
        assert(spec_next_id(prev) == n);
        assert(e == entry_of_capture(c, n as u64));
        assert(r == spec_insert(prev, e, max));
        assert(r[0] == (seq![e] + prev)[0]);
        assert(forall|k: int| 1 <= k < r.len() ==> r[k] == prev[k - 1]);
        assert forall|k: int| 0 <= k < r.len() implies r[k] == entry_of_capture(
            caps[caps.len() - 1 - k],
            (caps.len() - k) as u64,
        ) by {
            if k >= 1 {
                assert(r[k] == prev[k - 1]);
                assert(prev[k - 1] == entry_of_capture(rest[n - 1 - k], (n - k) as u64));
                assert(caps[n - 1 - k] == rest[n - 1 - k]);
            }
        }
        assert forall|k: int| 0 <= k < r.len() implies entry_plaintext(key, r[k]) == Some(
            caps[caps.len() - 1 - k].payload,
        ) by {
            assert(capture_sealed(key, caps[n - 1 - k]));
        }
    }
}

/// Eviction bound: an add that inserts keeps the bound.  The store then holds
/// `min(previous length + 1, max)` entries — exactly `max` once it was full —
/// and what it holds are the most recent: the fresh entry first, then a
/// prefix of the previous sequence.
pub proof fn lemma_eviction_bound(
    s: Seq<EntryModel>,
    key: Seq<u8>,
    payload: Seq<u8>,
    mime: Seq<u8>,
    ts: u64,
    nonce: Seq<u8>,
    ct: Seq<u8>,
    max: nat,
)
    requires
        max >= 1,
        !spec_dedup_head(s, key, payload, mime),
    ensures
        ({
            let r = spec_add(s, key, payload, mime, ts, nonce, ct, max);
            &&& r.len() == if s.len() + 1 <= max {
                (s.len() + 1) as int
            } else {
                max as int
            }
            &&& r[0] == EntryModel {
                id: spec_next_id(s) as u64,
                timestamp: ts,
                mime_type: mime,
                nonce,
                ciphertext: ct,
            }
            &&& forall|k: int| 1 <= k < r.len() ==> r[k] == s[k - 1]
        }),
{
    let e = EntryModel {
        id: spec_next_id(s) as u64,
        timestamp: ts,
        mime_type: mime,
        nonce,
        ciphertext: ct,
    };
    let r = spec_add(s, key, payload, mime, ts, nonce, ct, max);
    assert(r[0] == (seq![e] + s)[0]);
    assert(forall|k: int| 1 <= k < r.len() ==> r[k] == (seq![e] + s)[k]);
}

/// One strictly falling step between every pair of neighbours gives strictly
/// falling ids between every pair of positions.
proof fn lemma_decreasing_pair(s: Seq<EntryModel>, i: int, j: int)
    requires
        forall|k: int| 0 <= k < s.len() - 1 ==> (#[trigger] s[k]).id > s[k + 1].id,
        0 <= i < j < s.len(),
    ensures
        s[i].id > s[j].id,
    decreases j - i,
{
    if j > i + 1 {
        lemma_decreasing_pair(s, i + 1, j);
    }
}

/// Adjacent strictly decreasing ids give strictly decreasing ids overall.
pub proof fn lemma_adjacent_decreasing(s: Seq<EntryModel>)
    requires
        forall|k: int| 0 <= k < s.len() - 1 ==> (#[trigger] s[k]).id > s[k + 1].id,
    ensures
        ids_decreasing(s),
{
    assert forall|i: int, j: int| 0 <= i < j < s.len() implies s[i].id > s[j].id by {
        lemma_decreasing_pair(s, i, j);
    }
}

/// The model of one delete: keep every entry whose id is not named.
pub open spec fn spec_delete(s: Seq<EntryModel>, ids: Seq<u64>) -> Seq<EntryModel>
    decreases s.len(),
{
    if s.len() == 0 {
        s
    } else if ids.contains(s[0].id) {
        spec_delete(s.drop_first(), ids)
    } else {
        seq![s[0]] + spec_delete(s.drop_first(), ids)
    }
}

/// Deleting ids that name no entry leaves the sequence unchanged: delete is
/// idempotent on absent ids and never errs.
pub proof fn lemma_delete_absent(s: Seq<EntryModel>, ids: Seq<u64>)
    requires
        forall|k: int| 0 <= k < s.len() ==> !ids.contains(#[trigger] s[k].id),
    ensures
        spec_delete(s, ids) =~= s,
    decreases s.len(),
{
    if s.len() > 0 {
        assert(forall|k: int| 0 <= k < s.drop_first().len() ==> s.drop_first()[k] == s[k + 1]);
        lemma_delete_absent(s.drop_first(), ids);
        assert(seq![s[0]] + s.drop_first() =~= s);
    }
}

/// No entry that survives a delete carries one of the named ids.
pub proof fn lemma_delete_removes(s: Seq<EntryModel>, ids: Seq<u64>)
    ensures
        forall|k: int| 0 <= k < spec_delete(s, ids).len()
            ==> !ids.contains(#[trigger] spec_delete(s, ids)[k].id),
    decreases s.len(),
{
    if s.len() > 0 {
        lemma_delete_removes(s.drop_first(), ids);
        let d = spec_delete(s, ids);
        let dr = spec_delete(s.drop_first(), ids);
        assert forall|k: int| 0 <= k < d.len() implies !ids.contains(d[k].id) by {
            if ids.contains(s[0].id) {
                assert(d[k] == dr[k]);
            } else {
                if k == 0 {
                    assert(d[0] == s[0]);
                } else {
                    assert(d[k] == dr[k - 1]);
                }
            }
        }
    }
}

/// Deleting the same ids twice equals deleting them once.
pub proof fn lemma_delete_idempotent(s: Seq<EntryModel>, ids: Seq<u64>)
    ensures
        spec_delete(spec_delete(s, ids), ids) =~= spec_delete(s, ids),
{
    lemma_delete_removes(s, ids);
    lemma_delete_absent(spec_delete(s, ids), ids);
}

/// A decrypted record handed back by a search.
pub struct SearchMatch {
    /// Id of the matching entry.
    pub id: u64,
    /// Capture time of the matching entry.
    pub timestamp: u64,
    /// Mime type of the matching entry.
    pub mime_type: Vec<u8>,
    /// The decrypted payload.
    pub payload: Vec<u8>,
}

/// The mathematical model of one search match.
pub ghost struct MatchModel {
    pub id: u64,
    pub timestamp: u64,
    pub mime_type: Seq<u8>,
    pub payload: Seq<u8>,
}

impl View for SearchMatch {
    type V = MatchModel;

    open spec fn view(&self) -> MatchModel {
        MatchModel {
            id: self.id,
            timestamp: self.timestamp,
            mime_type: self.mime_type@,
            payload: self.payload@,
        }
    }
}

/// The decrypted record of an entry that matched.
pub open spec fn match_of(key: Seq<u8>, e: EntryModel) -> MatchModel {
    MatchModel {
        id: e.id,
        timestamp: e.timestamp,
        mime_type: e.mime_type,
        payload: entry_plaintext(key, e)->0,
    }
}

/// Does this entry match the query: a text mime type, a payload that still
/// decrypts under the process key, and the decrypted payload contains the
/// query case-insensitively.  Binary payloads never match a text query.
pub open spec fn spec_matches(key: Seq<u8>, query: Seq<u8>, e: EntryModel) -> bool {
    &&& is_text_mime(e.mime_type)
    &&& entry_plaintext(key, e) is Some
    &&& contains_ci(entry_plaintext(key, e)->0, query)
}

/// The matches of a search, in store order (most-recent-first).
pub open spec fn spec_search(s: Seq<EntryModel>, key: Seq<u8>, query: Seq<u8>) -> Seq<MatchModel>
    decreases s.len(),
{
    if s.len() == 0 {
        Seq::empty()
    } else if spec_matches(key, query, s[0]) {
        seq![match_of(key, s[0])] + spec_search(s.drop_first(), key, query)
    } else {
        spec_search(s.drop_first(), key, query)
    }
}

/// How many entries no longer decrypt under the process key; such entries are
/// skipped by a search but counted, never silently dropped.
pub open spec fn spec_undecryptable(s: Seq<EntryModel>, key: Seq<u8>) -> nat
    decreases s.len(),
{
    if s.len() == 0 {
        0
    } else {
        (if entry_plaintext(key, s[0]) is None {
            1nat
        } else {
            0
        }) + spec_undecryptable(s.drop_first(), key)
    }
}

/// The model of delete-by-query: keep exactly the entries that do not match.
pub open spec fn spec_purge(s: Seq<EntryModel>, key: Seq<u8>, query: Seq<u8>) -> Seq<EntryModel>
    decreases s.len(),
{
    if s.len() == 0 {
        s
    } else if spec_matches(key, query, s[0]) {
        spec_purge(s.drop_first(), key, query)
    } else {
        seq![s[0]] + spec_purge(s.drop_first(), key, query)
    }
}

/// A delete-by-query and a search with the same query partition the store:
/// every entry either survives the purge or is one of the search's matches.
pub proof fn lemma_purge_complements_search(s: Seq<EntryModel>, key: Seq<u8>, query: Seq<u8>)
    ensures
        spec_purge(s, key, query).len() + spec_search(s, key, query).len() == s.len(),
    decreases s.len(),
{
    if s.len() > 0 {
        lemma_purge_complements_search(s.drop_first(), key, query);
    }
}

/// No entry that survives a delete-by-query matches the query: purging twice
/// equals purging once.
pub proof fn lemma_purge_removes_all_matches(s: Seq<EntryModel>, key: Seq<u8>, query: Seq<u8>)
    ensures
        forall|k: int| 0 <= k < spec_purge(s, key, query).len() ==> !spec_matches(
            key,
            query,
            #[trigger] spec_purge(s, key, query)[k],
        ),
        spec_purge(spec_purge(s, key, query), key, query) =~= spec_purge(s, key, query),
    decreases s.len(),
{
    if s.len() > 0 {
        lemma_purge_removes_all_matches(s.drop_first(), key, query);
        let d = spec_purge(s, key, query);
        let dr = spec_purge(s.drop_first(), key, query);
        assert forall|k: int| 0 <= k < d.len() implies !spec_matches(key, query, d[k]) by {
            if spec_matches(key, query, s[0]) {
                assert(d[k] == dr[k]);
            } else {
                if k == 0 {
                    assert(d[0] == s[0]);
                } else {
                    assert(d[k] == dr[k - 1]);
                }
            }
        }
        lemma_purge_unmatched_fixpoint(d, key, query);
    }
}

/// Purging a sequence in which nothing matches changes nothing.
proof fn lemma_purge_unmatched_fixpoint(s: Seq<EntryModel>, key: Seq<u8>, query: Seq<u8>)
    requires
        forall|k: int| 0 <= k < s.len() ==> !spec_matches(key, query, #[trigger] s[k]),
    ensures
        spec_purge(s, key, query) =~= s,
    decreases s.len(),
{
    if s.len() > 0 {
        assert(forall|k: int| 0 <= k < s.drop_first().len() ==> s.drop_first()[k] == s[k + 1]);
        lemma_purge_unmatched_fixpoint(s.drop_first(), key, query);
        assert(seq![s[0]] + s.drop_first() =~= s);
    }
}

/// The ordered, bounded store of sealed captures, most-recent-first.
pub struct HistoryStore {
    entries: Vec<HistoryEntry>,
    max_entries: usize,
}

impl HistoryStore {
    /// The ordered sequence of entry models, most-recent-first.
    pub closed spec fn view(&self) -> Seq<EntryModel> {
        self.entries@.map_values(|e: HistoryEntry| e@)
    }

    /// The configured maximum entry count.
    pub closed spec fn capacity(&self) -> nat {
        self.max_entries as nat
    }

    /// The store's invariant: within its bound, with strictly decreasing ids.
    pub open spec fn wf(&self) -> bool {
        &&& self@.len() <= self.capacity()
        &&& ids_decreasing(self@)
        &&& self.capacity() >= 1
    }

    /// Fresh empty store with the configured maximum entry count.
    pub fn new(max_entries: usize) -> (r: HistoryStore)
        requires
            max_entries >= 1,
        ensures
            r.wf(),
            r@ =~= Seq::<EntryModel>::empty(),
            r.capacity() == max_entries,
    {
        HistoryStore { entries: Vec::new(), max_entries }
    }

    /// Rebuild a store from decoded entries (most-recent-first), as `load`
    /// hands them over.
    ///
    /// A sequence whose ids do not strictly decrease cannot have been
    /// persisted by this store and is reported as corrupt.  Entries beyond
    /// the configured bound are evicted, oldest first.
    #[verifier::loop_isolation(false)]
    pub fn from_entries(entries: Vec<HistoryEntry>, max_entries: usize) -> (r: Result<
        HistoryStore,
        StoreError,
    >)
        requires
            max_entries >= 1,
        ensures
            r is Ok ==> r->Ok_0.wf() && r->Ok_0.capacity() == max_entries && r->Ok_0@ =~= evict(
                entries@.map_values(|e: HistoryEntry| e@),
                max_entries as nat,
            ),
            r is Err <==> !ids_decreasing(entries@.map_values(|e: HistoryEntry| e@)),
            r is Err ==> r->Err_0 == StoreError::CorruptHistory,
    {
        let ghost s = entries@.map_values(|e: HistoryEntry| e@);
        let n = entries.len();
        let mut i: usize = 0;
        while n - i > 1
            invariant
                i <= n,
                forall|k: int| 0 <= k < i ==> (#[trigger] s[k]).id > s[k + 1].id,
            decreases n - i,
        {
            if entries[i].id <= entries[i + 1].id {
                assert(!ids_decreasing(s)) by {
                    assert(s[i as int].id <= s[i as int + 1].id);
                }
                return Err(StoreError::CorruptHistory);
            }
            i = i + 1;
        }
        proof {
            lemma_adjacent_decreasing(s);
        }
        let mut st = HistoryStore { entries, max_entries };
        if st.entries.len() > max_entries {
            st.entries.truncate(max_entries);
        }
        proof {
            assert(st@ =~= evict(s, max_entries as nat));
            assert forall|p: int, q: int| 0 <= p < q < st@.len()
                implies st@[p].id > st@[q].id by {
                assert(st@[p] == s[p]);
                assert(st@[q] == s[q]);
            }
        }
        Ok(st)
    }

    /// How many entries the store holds.
    pub fn len(&self) -> (n: usize)
        ensures
            n == self@.len(),
    {
        self.entries.len()
    }

    /// Borrow the entry at `i` (0 is the most recent).
    pub fn entry_at(&self, i: usize) -> (r: &HistoryEntry)
        requires
            i < self@.len(),
        ensures
            r@ == self@[i as int],
    {
        &self.entries[i]
    }

    /// Capture a payload.
    ///
    /// The payload is sealed under the process key with a fresh nonce.  When
    /// the most recent entry already holds this payload with this mime type,
    /// nothing changes and `Ok(false)` comes back.  Otherwise the fresh entry
    /// is prepended with the next id and the oldest entries beyond the bound
    /// are evicted, and `Ok(true)` comes back.
    pub fn add(&mut self, key: &Vec<u8>, payload: &Vec<u8>, mime_type: &Vec<u8>, timestamp: u64)
        -> (r: Result<bool, StoreError>)
        requires
            old(self).wf(),
            valid_key(key@),
            payload@.len() <= MAX_PAYLOAD_LEN,
        ensures
            final(self).wf(),
            final(self).capacity() == old(self).capacity(),
            r is Ok ==> ((r->Ok_0 == false) <==> spec_dedup_head(old(self)@, key@, payload@, mime_type@)),
            r is Ok && r->Ok_0 == false ==> final(self)@ == old(self)@,
            r is Ok && r->Ok_0 == true ==> exists|n: Seq<u8>, c: Seq<u8>|
                {
                    &&& valid_nonce(n)
                    &&& c == seal_of(key@, n, payload@)
                    &&& open_of(key@, n, c) == Some(payload@)
                    &&& c.len() == payload@.len() + TAG_LEN
                    &&& final(self)@ =~= spec_insert(
                        old(self)@,
                        EntryModel {
                            id: spec_next_id(old(self)@) as u64,
                            timestamp,
                            mime_type: mime_type@,
                            nonce: n,
                            ciphertext: c,
                        },
                        old(self).capacity(),
                    )
                },
            r is Err ==> final(self)@ == old(self)@,
            r is Err ==> !spec_dedup_head(old(self)@, key@, payload@, mime_type@),
            (r is Err && r->Err_0 == StoreError::IdSpaceExhausted) <==> (
                !spec_dedup_head(old(self)@, key@, payload@, mime_type@)
                && old(self)@.len() > 0 && old(self)@[0].id == u64::MAX
            ),
            r is Err && r->Err_0 != StoreError::IdSpaceExhausted ==> r->Err_0 == StoreError::Cipher(
                CodecError::CipherFailure,
            ),
    {
        let ghost s0 = self@;
        let mut dedup = false;
        if self.entries.len() > 0 {
            let head = &self.entries[0];
            if bytes_eq(head.mime_type.as_slice(), mime_type.as_slice()) {
                match codec::decrypt(key, &head.nonce, &head.ciphertext) {
                    Ok(pt) => {
                        if bytes_eq(pt.as_slice(), payload.as_slice()) {
                            dedup = true;
                        }
                    }
                    Err(_) => {}
                }
            }
        }
        proof {
            assert(dedup == spec_dedup_head(s0, key@, payload@, mime_type@));
        }
        if dedup {
            return Ok(false);
        }
        let next_id: u64 = if self.entries.len() == 0 {
            1
        } else {
            let head_id = self.entries[0].id;
            if head_id == u64::MAX {
                return Err(StoreError::IdSpaceExhausted);
            }
            head_id + 1
        };
        match codec::encrypt(key, payload) {
            Err(e) => Err(StoreError::Cipher(e)),
            Ok((nonce, ct)) => {
                let ghost n = nonce@;
                let ghost c = ct@;
                let entry = HistoryEntry {
                    id: next_id,
                    timestamp,
                    mime_type: vstd::slice::slice_to_vec(mime_type.as_slice()),
                    nonce,
                    ciphertext: ct,
                };
                let ghost em = entry@;
                self.entries.insert(0, entry);
                if self.entries.len() > self.max_entries {
                    self.entries.truncate(self.max_entries);
                }
                proof {
                    assert(seq![em] + s0 =~= s0.insert(0, em));
                    assert(self@ =~= spec_insert(s0, em, old(self).capacity()));
                    assert(ids_decreasing(self@)) by {
                        assert(forall|j: int| 0 <= j < s0.len() ==> em.id > s0[j].id);
                    }
                }
                Ok(true)
            }
        }
    }

    /// Remove every entry whose id occurs in `ids`.
    ///
    /// Ids that name no entry are ignored, so deletion is idempotent and
    /// never errs.
    #[verifier::loop_isolation(false)]
    #[verifier::rlimit(50)]
    pub fn delete(&mut self, ids: &Vec<u64>)
        requires
            old(self).wf(),
        ensures
            final(self).wf(),
            final(self).capacity() == old(self).capacity(),
            final(self)@ =~= spec_delete(old(self)@, ids@),
    {
        let ghost s0 = self@;
        proof {
            assert(s0.skip(0) =~= s0);
        }
        let mut i: usize = 0;
        let ghost mut j: int = 0;
        while i < self.entries.len()
            invariant
                self.max_entries == old(self).max_entries,
                0 <= i <= self.entries@.len(),
                0 <= j <= s0.len(),
                self.entries@.len() - i == s0.len() - j,
                i <= j,
                self@.skip(i as int) =~= s0.skip(j),
                spec_delete(s0, ids@) =~= self@.take(i as int) + spec_delete(s0.skip(j), ids@),
                ids_decreasing(self@),
            decreases self.entries@.len() - i,
        {
            proof {
                assert(self@[i as int] == s0.skip(j)[0]);
                assert(s0.skip(j).drop_first() =~= s0.skip(j + 1));
            }
            let id = self.entries[i].id;
            if contains_id(ids, id) {
                let ghost pre = self@;
                let _ = self.entries.remove(i);
                proof {
                    assert(self@ =~= pre.remove(i as int));
                    assert(self@.take(i as int) =~= pre.take(i as int));
                    assert(self@.skip(i as int) =~= pre.skip(i as int + 1));
                    assert forall|p: int, q: int| 0 <= p < q < self@.len()
                        implies self@[p].id > self@[q].id by {
                        let p2: int = if p < i { p } else { p + 1 };
                        let q2: int = if q < i { q } else { q + 1 };
                        assert(self@[p] == pre[p2]);
                        assert(self@[q] == pre[q2]);
                    }
                }
            } else {
                proof {
                    assert(self@.take(i as int + 1) =~= self@.take(i as int) + seq![self@[i as int]]);
                }
                i = i + 1;
            }
            proof {
                j = j + 1;
            }
        }
        proof {
            assert(s0.skip(j).len() == 0);
            assert(self@.take(i as int) =~= self@);
        }
    }

    /// Query the store.
    ///
    /// Each entry is decrypted under the process key; entries that no longer
    /// decrypt are skipped but counted, so one undecryptable entry never
    /// blocks search over the rest.  The decrypted records whose text payload
    /// contains the query, case-insensitively, come back most-recent-first,
    /// together with the count of skipped entries.
    #[verifier::loop_isolation(false)]
    pub fn search(&self, key: &Vec<u8>, query: &Vec<u8>) -> (r: (Vec<SearchMatch>, usize))
        requires
            valid_key(key@),
        ensures
            r.0@.map_values(|m: SearchMatch| m@) =~= spec_search(self@, key@, query@),
            r.1 == spec_undecryptable(self@, key@),
    {
        let ghost s = self@;
        proof {
            assert(s.skip(0) =~= s);
        }
        let mut matches: Vec<SearchMatch> = Vec::new();
        let mut skipped: usize = 0;
        let mut i: usize = 0;
        while i < self.entries.len()
            invariant
                0 <= i <= self.entries@.len(),
                skipped <= i,
                spec_search(s, key@, query@) =~= matches@.map_values(|m: SearchMatch| m@)
                    + spec_search(s.skip(i as int), key@, query@),
                spec_undecryptable(s, key@) == skipped + spec_undecryptable(s.skip(i as int), key@),
            decreases self.entries@.len() - i,
        {
            proof {
                assert(s[i as int] == s.skip(i as int)[0]);
                assert(s.skip(i as int).drop_first() =~= s.skip(i as int + 1));
            }
            let entry = &self.entries[i];
            match codec::decrypt(key, &entry.nonce, &entry.ciphertext) {
                Ok(pt) => {
                    if crate::search::is_text_mime_exec(&entry.mime_type)
                        && crate::search::contains_ci_exec(pt.as_slice(), query.as_slice()) {
                        let m = SearchMatch {
                            id: entry.id,
                            timestamp: entry.timestamp,
                            mime_type: vstd::slice::slice_to_vec(entry.mime_type.as_slice()),
                            payload: pt,
                        };
                        let ghost pre = matches@;
                        matches.push(m);
                        proof {
                            assert(matches@.map_values(|m: SearchMatch| m@)
                                =~= pre.map_values(|m: SearchMatch| m@) + seq![match_of(key@, s[i as int])]);
                        }
                    }
                }
                Err(_) => {
                    skipped = skipped + 1;
                }
            }
            i = i + 1;
        }
        proof {
            assert(s.skip(i as int).len() == 0);
        }
        (matches, skipped)
    }

    /// The position of the entry with this id, when one exists (0 is the
    /// most recent).
    #[verifier::loop_isolation(false)]
    pub fn find_by_id(&self, id: u64) -> (r: Option<usize>)
        ensures
            r matches Some(i) ==> i < self@.len() && self@[i as int].id == id,
            r is None <==> !spec_has_id(self@, id),
    {
        let n = self.entries.len();
        let mut i: usize = 0;
        while i < n
            invariant
                i <= n,
                forall|k: int| 0 <= k < i ==> self@[k].id != id,
            decreases n - i,
        {
            if self.entries[i].id == id {
                proof {
                    assert(spec_has_id(self@, id)) by {
                        assert(self@[i as int].id == id);
                    }
                }
                return Some(i);
            }
            i = i + 1;
        }
        None
    }

    /// The decrypted payload and mime type of the entry with this id, for
    /// writing back to the clipboard.
    ///
    /// Succeeds exactly when the id names an entry and that entry still
    /// decrypts under the process key; this is a required decrypt, so a
    /// failure is surfaced, never skipped.
    pub fn payload_for_copy(&self, key: &Vec<u8>, id: u64) -> (r: Result<
        (Vec<u8>, Vec<u8>),
        LookupError,
    >)
        requires
            self.wf(),
            valid_key(key@),
        ensures
            r is Ok ==> exists|k: int|
                0 <= k < self@.len() && (#[trigger] self@[k]).id == id && entry_plaintext(
                    key@,
                    self@[k],
                ) == Some((r->Ok_0).0@) && self@[k].mime_type == (r->Ok_0).1@,
            (r is Err && r->Err_0 == LookupError::UnknownId) <==> !spec_has_id(self@, id),
            (r is Err && r->Err_0 == LookupError::Undecryptable) <==> exists|k: int|
                0 <= k < self@.len() && (#[trigger] self@[k]).id == id && entry_plaintext(
                    key@,
                    self@[k],
                ) is None,
    {
        let i = match self.find_by_id(id) {
            Some(i) => i,
            None => {
                return Err(LookupError::UnknownId);
            },
        };
        proof {
            assert forall|k: int|
                0 <= k < self@.len() && self@[k].id == id implies k == i as int by {
                if k < i as int {
                    assert(self@[k].id > self@[i as int].id);
                } else if k > i as int {
                    assert(self@[i as int].id > self@[k].id);
                }
            }
        }
        let entry = &self.entries[i];
        match codec::decrypt(key, &entry.nonce, &entry.ciphertext) {
            Ok(pt) => Ok((pt, vstd::slice::slice_to_vec(entry.mime_type.as_slice()))),
            Err(_) => Err(LookupError::Undecryptable),
        }
    }

    /// Delete every entry whose decrypted payload matches the query, and say
    /// how many were removed.  Entries that do not decrypt, and binary
    /// entries, never match and stay.
    #[verifier::loop_isolation(false)]
    #[verifier::rlimit(50)]
    pub fn delete_by_query(&mut self, key: &Vec<u8>, query: &Vec<u8>) -> (removed: usize)
        requires
            old(self).wf(),
            valid_key(key@),
        ensures
            final(self).wf(),
            final(self).capacity() == old(self).capacity(),
            final(self)@ =~= spec_purge(old(self)@, key@, query@),
            removed == old(self)@.len() - final(self)@.len(),
    {
        let ghost s0 = self@;
        proof {
            assert(s0.skip(0) =~= s0);
        }
        let start = self.entries.len();
        let mut i: usize = 0;
        let ghost mut j: int = 0;
        while i < self.entries.len()
            invariant
                self.max_entries == old(self).max_entries,
                0 <= i <= self.entries@.len(),
                0 <= j <= s0.len(),
                self.entries@.len() - i == s0.len() - j,
                i <= j,
                start == s0.len(),
                self@.skip(i as int) =~= s0.skip(j),
                spec_purge(s0, key@, query@) =~= self@.take(i as int)
                    + spec_purge(s0.skip(j), key@, query@),
                ids_decreasing(self@),
            decreases self.entries@.len() - i,
        {
            proof {
                assert(self@[i as int] == s0.skip(j)[0]);
                assert(s0.skip(j).drop_first() =~= s0.skip(j + 1));
            }
            let is_match = {
                let entry = &self.entries[i];
                match codec::decrypt(key, &entry.nonce, &entry.ciphertext) {
                    Ok(pt) => crate::search::is_text_mime_exec(&entry.mime_type)
                        && crate::search::contains_ci_exec(pt.as_slice(), query.as_slice()),
                    Err(_) => false,
                }
            };
            if is_match {
                let ghost pre = self@;
                let _ = self.entries.remove(i);
                proof {
                    assert(self@ =~= pre.remove(i as int));
                    assert(self@.take(i as int) =~= pre.take(i as int));
                    assert(self@.skip(i as int) =~= pre.skip(i as int + 1));
                    assert forall|p: int, q: int| 0 <= p < q < self@.len()
                        implies self@[p].id > self@[q].id by {
                        let p2: int = if p < i { p } else { p + 1 };
                        let q2: int = if q < i { q } else { q + 1 };
                        assert(self@[p] == pre[p2]);
                        assert(self@[q] == pre[q2]);
                    }
                }
            } else {
                proof {
                    assert(self@.take(i as int + 1) =~= self@.take(i as int) + seq![self@[i as int]]);
                }
                i = i + 1;
            }
            proof {
                j = j + 1;
            }
        }
        proof {
            assert(s0.skip(j).len() == 0);
            assert(self@.take(i as int) =~= self@);
        }
        start - i
    }
}

} // verus!
