//! The on-disk byte format of the history file.
//!
//! The file holds a little-endian entry count followed by the entries,
//! most-recent-first; every entry holds its id, timestamp, and the
//! length-prefixed mime type, nonce and ciphertext.  Encoding is lossless:
//! decoding what was encoded yields the same entries back, and any byte
//! string that is not a complete, exact encoding is rejected as corrupt.

use vstd::prelude::*;

use crate::errors::StoreError;
use crate::store::{evict, ids_decreasing, EntryModel, HistoryEntry, HistoryStore};

verus! {

/// The eight bytes of `x`, least significant first.
pub open spec fn u64_le_bytes(x: u64) -> Seq<u8> {
    seq![
        (x & 0xff) as u8,
        ((x >> 8) & 0xff) as u8,
        ((x >> 16) & 0xff) as u8,
        ((x >> 24) & 0xff) as u8,
        ((x >> 32) & 0xff) as u8,
        ((x >> 40) & 0xff) as u8,
        ((x >> 48) & 0xff) as u8,
        ((x >> 56) & 0xff) as u8,
    ]
}

/// The number held by eight bytes, least significant first.
pub open spec fn u64_of_le(s: Seq<u8>) -> u64
    recommends
        s.len() == 8,
{
    ((s[0] as u64) | ((s[1] as u64) << 8) | ((s[2] as u64) << 16) | ((s[3] as u64) << 24)
        | ((s[4] as u64) << 32) | ((s[5] as u64) << 40) | ((s[6] as u64) << 48) | ((
    s[7] as u64) << 56)) as u64
}

/// Reading back the eight little-endian bytes of a number yields the number.
pub proof fn lemma_u64_le_round(x: u64)
    ensures
        u64_le_bytes(x).len() == 8,
        u64_of_le(u64_le_bytes(x)) == x,
{
    let s = u64_le_bytes(x);
    assert((((x & 0xff) as u8 as u64) | ((((x >> 8) & 0xff) as u8 as u64) << 8) | ((((x >> 16)
        & 0xff) as u8 as u64) << 16) | ((((x >> 24) & 0xff) as u8 as u64) << 24) | ((((x >> 32)
        & 0xff) as u8 as u64) << 32) | ((((x >> 40) & 0xff) as u8 as u64) << 40) | ((((x >> 48)
        & 0xff) as u8 as u64) << 48) | ((((x >> 56) & 0xff) as u8 as u64) << 56)) == x)
        by (bit_vector);
}

/// A length-prefixed byte string.
pub open spec fn enc_bytes(v: Seq<u8>) -> Seq<u8> {
    u64_le_bytes(v.len() as u64) + v
}

/// The byte encoding of one entry.
pub open spec fn enc_entry(e: EntryModel) -> Seq<u8> {
    u64_le_bytes(e.id) + u64_le_bytes(e.timestamp) + enc_bytes(e.mime_type) + enc_bytes(e.nonce)
        + enc_bytes(e.ciphertext)
}

/// The byte encoding of a sequence of entries, in order.
pub open spec fn enc_entries(s: Seq<EntryModel>) -> Seq<u8>
    decreases s.len(),
{
    if s.len() == 0 {
        Seq::empty()
    } else {
        enc_entry(s[0]) + enc_entries(s.drop_first())
    }
}

/// The complete encoding of a history: entry count, then the entries.
pub open spec fn spec_encode(s: Seq<EntryModel>) -> Seq<u8> {
    u64_le_bytes(s.len() as u64) + enc_entries(s)
}

/// Every length in the entry fits the length prefix.
pub open spec fn entry_fits(e: EntryModel) -> bool {
    &&& e.mime_type.len() <= u64::MAX
    &&& e.nonce.len() <= u64::MAX
    &&& e.ciphertext.len() <= u64::MAX
}

/// Every length in the history fits its prefix.
pub open spec fn store_fits(s: Seq<EntryModel>) -> bool {
    &&& s.len() <= u64::MAX
    &&& forall|k: int| 0 <= k < s.len() ==> entry_fits(#[trigger] s[k])
}

/// Parse a number off the front of the bytes.
pub open spec fn dec_u64(b: Seq<u8>) -> Option<(u64, Seq<u8>)> {
    if b.len() >= 8 {
        Some((u64_of_le(b.subrange(0, 8)), b.skip(8)))
    } else {
        None
    }
}

/// Parse a length-prefixed byte string off the front of the bytes.
pub open spec fn dec_bytes(b: Seq<u8>) -> Option<(Seq<u8>, Seq<u8>)> {
    match dec_u64(b) {
        Some((n, r)) => if n <= r.len() {
            Some((r.take(n as int), r.skip(n as int)))
        } else {
            None
        },
        None => None,
    }
}

/// Parse one entry off the front of the bytes.
pub open spec fn dec_entry(b: Seq<u8>) -> Option<(EntryModel, Seq<u8>)> {
    match dec_u64(b) {
        None => None,
        Some((id, b1)) => match dec_u64(b1) {
            None => None,
            Some((ts, b2)) => match dec_bytes(b2) {
                None => None,
                Some((mime, b3)) => match dec_bytes(b3) {
                    None => None,
                    Some((nonce, b4)) => match dec_bytes(b4) {
                        None => None,
                        Some((ct, b5)) => Some(
                            (
                                EntryModel {
                                    id,
                                    timestamp: ts,
                                    mime_type: mime,
                                    nonce,
                                    ciphertext: ct,
                                },
                                b5,
                            ),
                        ),
                    },
                },
            },
        },
    }
}

/// Parse exactly `k` entries off the front of the bytes.
pub open spec fn dec_entries(b: Seq<u8>, k: nat) -> Option<(Seq<EntryModel>, Seq<u8>)>
    decreases k,
{
    if k == 0 {
        Some((Seq::empty(), b))
    } else {
        match dec_entry(b) {
            None => None,
            Some((e, r)) => match dec_entries(r, (k - 1) as nat) {
                None => None,
                Some((es, r2)) => Some((seq![e] + es, r2)),
            },
        }
    }
}

/// Parse a complete history file: the count, then exactly that many entries,
/// with nothing left over.
pub open spec fn spec_decode(b: Seq<u8>) -> Option<Seq<EntryModel>> {
    match dec_u64(b) {
        None => None,
        Some((n, r)) => match dec_entries(r, n as nat) {
            None => None,
            Some((es, r2)) => if r2.len() == 0 {
                Some(es)
            } else {
                None
            },
        },
    }
}

proof fn lemma_dec_u64_enc(x: u64, rest: Seq<u8>)
    ensures
        dec_u64(u64_le_bytes(x) + rest) == Some((x, rest)),
{
    let b = u64_le_bytes(x) + rest;
    lemma_u64_le_round(x);
    assert(b.subrange(0, 8) =~= u64_le_bytes(x));
    assert(b.skip(8) =~= rest);
}

proof fn lemma_dec_bytes_enc(v: Seq<u8>, rest: Seq<u8>)
    requires
        v.len() <= u64::MAX,
    ensures
        dec_bytes(enc_bytes(v) + rest) == Some((v, rest)),
{
    assert(enc_bytes(v) + rest =~= u64_le_bytes(v.len() as u64) + (v + rest));
    lemma_dec_u64_enc(v.len() as u64, v + rest);
    assert((v + rest).take(v.len() as int) =~= v);
    assert((v + rest).skip(v.len() as int) =~= rest);
}

proof fn lemma_dec_entry_enc(e: EntryModel, rest: Seq<u8>)
    requires
        entry_fits(e),
    ensures
        dec_entry(enc_entry(e) + rest) == Some((e, rest)),
{
    let r4 = enc_bytes(e.ciphertext) + rest;
    let r3 = enc_bytes(e.nonce) + r4;
    let r2 = enc_bytes(e.mime_type) + r3;
    let r1 = u64_le_bytes(e.timestamp) + r2;
    assert(enc_entry(e) + rest =~= u64_le_bytes(e.id) + r1);
    lemma_dec_u64_enc(e.id, r1);
    assert(r1 =~= u64_le_bytes(e.timestamp) + r2);
    lemma_dec_u64_enc(e.timestamp, r2);
    lemma_dec_bytes_enc(e.mime_type, r3);
    lemma_dec_bytes_enc(e.nonce, r4);
    lemma_dec_bytes_enc(e.ciphertext, rest);
}

proof fn lemma_dec_entries_enc(s: Seq<EntryModel>, rest: Seq<u8>)
    requires
        forall|k: int| 0 <= k < s.len() ==> entry_fits(#[trigger] s[k]),
    ensures
        dec_entries(enc_entries(s) + rest, s.len()) == Some((s, rest)),
    decreases s.len(),
{
    if s.len() == 0 {
        assert(enc_entries(s) + rest =~= rest);
    } else {
        let tail = s.drop_first();
        assert(enc_entries(s) + rest =~= enc_entry(s[0]) + (enc_entries(tail) + rest));
        lemma_dec_entry_enc(s[0], enc_entries(tail) + rest);
        assert(forall|k: int| 0 <= k < tail.len() ==> tail[k] == s[k + 1]);
        lemma_dec_entries_enc(tail, rest);
        assert(seq![s[0]] + tail =~= s);
    }
}

/// Losslessness of the on-disk format: decoding an encoded history yields
/// exactly the encoded entries.  Together with the atomic-replacement
/// protocol this is what keeps a persisted history loadable.
pub proof fn lemma_encode_decode(s: Seq<EntryModel>)
    requires
        store_fits(s),
    ensures
        spec_decode(spec_encode(s)) == Some(s),
{
    assert(spec_encode(s) =~= u64_le_bytes(s.len() as u64) + enc_entries(s));
    lemma_dec_u64_enc(s.len() as u64, enc_entries(s));
    assert(enc_entries(s) + Seq::<u8>::empty() =~= enc_entries(s));
    lemma_dec_entries_enc(s, Seq::<u8>::empty());
}

/// Appending one entry to a sequence appends its encoding to the bytes.
proof fn lemma_enc_entries_snoc(s: Seq<EntryModel>, e: EntryModel)
    ensures
        enc_entries(s.push(e)) == enc_entries(s) + enc_entry(e),
    decreases s.len(),
{
    let p = s.push(e);
    if s.len() == 0 {
        assert(p[0] == e);
        assert(p.drop_first() =~= Seq::<EntryModel>::empty());
        assert(enc_entries(p) == enc_entry(e) + enc_entries(Seq::<EntryModel>::empty()));
        assert(enc_entry(e) + Seq::<u8>::empty() =~= enc_entry(e));
        assert(enc_entries(s) + enc_entry(e) =~= enc_entry(e));
    } else {
        assert(p[0] == s[0]);
        assert(p.drop_first() =~= s.drop_first().push(e));
        assert(enc_entries(p) == enc_entry(s[0]) + enc_entries(s.drop_first().push(e)));
        lemma_enc_entries_snoc(s.drop_first(), e);
        assert(enc_entry(s[0]) + (enc_entries(s.drop_first()) + enc_entry(e)) =~= (enc_entry(s[0])
            + enc_entries(s.drop_first())) + enc_entry(e));
        assert(enc_entries(s) == enc_entry(s[0]) + enc_entries(s.drop_first()));
    }
}

/// Append `x` to the buffer, least significant byte first.
fn push_u64(out: &mut Vec<u8>, x: u64)
    ensures
        final(out)@ =~= old(out)@ + u64_le_bytes(x),
{
    out.push((x & 0xff) as u8);
    out.push(((x >> 8) & 0xff) as u8);
    out.push(((x >> 16) & 0xff) as u8);
    out.push(((x >> 24) & 0xff) as u8);
    out.push(((x >> 32) & 0xff) as u8);
    out.push(((x >> 40) & 0xff) as u8);
    out.push(((x >> 48) & 0xff) as u8);
    out.push(((x >> 56) & 0xff) as u8);
}

/// Append a length-prefixed byte string to the buffer.
#[verifier::loop_isolation(false)]
fn push_chunk(out: &mut Vec<u8>, v: &Vec<u8>)
    ensures
        final(out)@ =~= old(out)@ + enc_bytes(v@),
{
    push_u64(out, v.len() as u64);
    let ghost mid = out@;
    let n = v.len();
    let mut j: usize = 0;
    while j < n
        invariant
            j <= n,
            out@ =~= mid + v@.take(j as int),
        decreases n - j,
    {
        out.push(v[j]);
        proof {
            assert(v@.take(j as int + 1) =~= v@.take(j as int) + seq![v@[j as int]]);
        }
        j = j + 1;
    }
    proof {
        assert(v@.take(n as int) =~= v@);
    }
}

/// Serialize the store's entries into the on-disk byte format.
#[verifier::loop_isolation(false)]
pub fn encode(store: &HistoryStore) -> (out: Vec<u8>)
    ensures
        out@ =~= spec_encode(store@),
{
    let ghost s = store@;
    let mut out: Vec<u8> = Vec::new();
    let n = store.len();
    push_u64(&mut out, n as u64);
    proof {
        assert(enc_entries(s.take(0)) == Seq::<u8>::empty());
        assert(out@ =~= u64_le_bytes(s.len() as u64) + enc_entries(s.take(0)));
    }
    let mut i: usize = 0;
    while i < n
        invariant
            i <= n,
            out@ =~= u64_le_bytes(s.len() as u64) + enc_entries(s.take(i as int)),
        decreases n - i,
    {
        let e = store.entry_at(i);
        push_u64(&mut out, e.id);
        push_u64(&mut out, e.timestamp);
        push_chunk(&mut out, &e.mime_type);
        push_chunk(&mut out, &e.nonce);
        push_chunk(&mut out, &e.ciphertext);
        proof {
            lemma_enc_entries_snoc(s.take(i as int), s[i as int]);
            assert(s.take(i as int).push(s[i as int]) =~= s.take(i as int + 1));
        }
        i = i + 1;
    }
    proof {
        assert(s.take(n as int) =~= s);
    }
    out
}

/// Parse a number at `pos`; the parse mirrors `dec_u64` on the remaining
/// bytes.
fn read_u64_at(data: &Vec<u8>, pos: usize) -> (r: Option<(u64, usize)>)
    requires
        pos <= data@.len(),
    ensures
        r is Some ==> (r->0).1 == pos + 8 && (r->0).1 <= data@.len() && dec_u64(
            data@.skip(pos as int),
        ) == Some(((r->0).0, data@.skip(pos as int + 8))),
        r is None <==> dec_u64(data@.skip(pos as int)) is None,
{
    if data.len() - pos < 8 {
        return None;
    }
    let x = (data[pos] as u64) | ((data[pos + 1] as u64) << 8) | ((data[pos + 2] as u64) << 16) | (
    (data[pos + 3] as u64) << 24) | ((data[pos + 4] as u64) << 32) | ((data[pos + 5] as u64) << 40)
        | ((data[pos + 6] as u64) << 48) | ((data[pos + 7] as u64) << 56);
    proof {
        let rest = data@.skip(pos as int);
        assert(rest.subrange(0, 8) =~= data@.subrange(pos as int, pos as int + 8));
        assert(rest.skip(8) =~= data@.skip(pos as int + 8));
        assert(x == u64_of_le(rest.subrange(0, 8)));
    }
    Some((x, pos + 8))
}

/// Parse a length-prefixed byte string at `pos`; mirrors `dec_bytes`.
fn read_chunk_at(data: &Vec<u8>, pos: usize) -> (r: Option<(Vec<u8>, usize)>)
    requires
        pos <= data@.len(),
    ensures
        r is Some ==> pos <= (r->0).1 <= data@.len() && dec_bytes(data@.skip(pos as int)) == Some(
            ((r->0).0@, data@.skip((r->0).1 as int)),
        ),
        r is None <==> dec_bytes(data@.skip(pos as int)) is None,
{
    match read_u64_at(data, pos) {
        None => None,
        Some((n, p1)) => {
            let remaining = data.len() - p1;
            if n > remaining as u64 {
                return None;
            }
            let nn = n as usize;
            let chunk = vstd::slice::slice_to_vec(
                vstd::slice::slice_subrange(data.as_slice(), p1, p1 + nn),
            );
            proof {
                let r1 = data@.skip(p1 as int);
                assert(r1.take(n as int) =~= data@.subrange(p1 as int, p1 as int + nn as int));
                assert(r1.skip(n as int) =~= data@.skip(p1 as int + nn as int));
            }
            Some((chunk, p1 + nn))
        }
    }
}

/// Parse one entry at `pos`; mirrors `dec_entry`.
fn decode_entry_at(data: &Vec<u8>, pos: usize) -> (r: Option<(HistoryEntry, usize)>)
    requires
        pos <= data@.len(),
    ensures
        r is Some ==> pos <= (r->0).1 <= data@.len() && dec_entry(data@.skip(pos as int)) == Some(
            ((r->0).0@, data@.skip((r->0).1 as int)),
        ),
        r is None <==> dec_entry(data@.skip(pos as int)) is None,
{
    let (id, p1) = match read_u64_at(data, pos) {
        None => {
            return None;
        },
        Some(v) => v,
    };
    let (ts, p2) = match read_u64_at(data, p1) {
        None => {
            return None;
        },
        Some(v) => v,
    };
    let (mime, p3) = match read_chunk_at(data, p2) {
        None => {
            return None;
        },
        Some(v) => v,
    };
    let (nonce, p4) = match read_chunk_at(data, p3) {
        None => {
            return None;
        },
        Some(v) => v,
    };
    let (ct, p5) = match read_chunk_at(data, p4) {
        None => {
            return None;
        },
        Some(v) => v,
    };
    Some((HistoryEntry { id, timestamp: ts, mime_type: mime, nonce, ciphertext: ct }, p5))
}

/// Parse a persisted history file.
///
/// Succeeds exactly on complete, exact encodings; any truncated, padded or
/// otherwise malformed byte string is rejected as corrupt, and no partial
/// history is handed back.
#[verifier::loop_isolation(false)]
#[verifier::rlimit(80)]
pub fn decode(data: &Vec<u8>) -> (r: Result<Vec<HistoryEntry>, StoreError>)
    ensures
        r is Ok ==> spec_decode(data@) == Some(r->Ok_0@.map_values(|e: HistoryEntry| e@)),
        r is Err <==> spec_decode(data@) is None,
        r is Err ==> r->Err_0 == StoreError::CorruptHistory,
{
    let ghost b = data@;
    proof {
        assert(b.skip(0) =~= b);
    }
    let (n, p0) = match read_u64_at(data, 0) {
        None => {
            return Err(StoreError::CorruptHistory);
        },
        Some(v) => v,
    };
    let mut out: Vec<HistoryEntry> = Vec::new();
    let mut pos: usize = p0;
    let mut i: u64 = 0;
    while i < n
        invariant
            pos <= b.len(),
            i <= n,
            b == data@,
            dec_u64(b) == Some((n, b.skip(8))),
            pos >= 8,
            ({
                let fin = dec_entries(b.skip(pos as int), (n - i) as nat);
                dec_entries(b.skip(8), n as nat) == (match fin {
                    Some(p) => Some((out@.map_values(|e: HistoryEntry| e@) + p.0, p.1)),
                    None => None::<(Seq<EntryModel>, Seq<u8>)>,
                })
            }),
        decreases n - i,
    {
        match decode_entry_at(data, pos) {
            None => {
                proof {
                    assert(dec_entries(b.skip(pos as int), (n - i) as nat) is None);
                }
                return Err(StoreError::CorruptHistory);
            },
            Some((e, p2)) => {
                proof {
                    let fin = dec_entries(b.skip(pos as int), (n - i) as nat);
                    let fin2 = dec_entries(b.skip(p2 as int), (n - i - 1) as nat);
                    assert(fin == (match fin2 {
                        Some(q) => Some((seq![e@] + q.0, q.1)),
                        None => None::<(Seq<EntryModel>, Seq<u8>)>,
                    }));
                    if fin2 is Some {
                        let q = fin2->0;
                        assert(out@.push(e).map_values(|x: HistoryEntry| x@) =~= out@.map_values(
                            |x: HistoryEntry| x@,
                        ) + seq![e@]);
                        assert((out@.map_values(|x: HistoryEntry| x@) + seq![e@]) + q.0
                            =~= out@.map_values(|x: HistoryEntry| x@) + (seq![e@] + q.0));
                    }
                }
                out.push(e);
                pos = p2;
                i = i + 1;
            },
        }
    }
    proof {
        assert(dec_entries(b.skip(pos as int), 0) == Some(
            (Seq::<EntryModel>::empty(), b.skip(pos as int)),
        ));
        assert(out@.map_values(|e: HistoryEntry| e@) + Seq::<EntryModel>::empty() =~= out@.map_values(
            |e: HistoryEntry| e@,
        ));
    }
    if pos != data.len() {
        proof {
            assert(b.skip(pos as int).len() > 0);
        }
        return Err(StoreError::CorruptHistory);
    }
    proof {
        assert(b.skip(pos as int).len() == 0);
    }
    Ok(out)
}

/// Load a store from the bytes of the history file.
///
/// Succeeds exactly when the bytes are a complete encoding of entries whose
/// ids strictly decrease; anything else is corrupt, and no auto-repair is
/// attempted.  Entries beyond the configured bound are evicted, oldest
/// first.  A missing file is the caller's case: it stands for an empty
/// history and never reaches this parser.
pub fn load(data: &Vec<u8>, max_entries: usize) -> (r: Result<HistoryStore, StoreError>)
    requires
        max_entries >= 1,
    ensures
        r is Ok ==> (r->Ok_0).wf() && (r->Ok_0).capacity() == max_entries,
        r is Ok ==> spec_decode(data@) is Some && (r->Ok_0)@ =~= evict(
            spec_decode(data@)->0,
            max_entries as nat,
        ),
        r is Err <==> (spec_decode(data@) is None || !ids_decreasing(spec_decode(data@)->0)),
        r is Err ==> r->Err_0 == StoreError::CorruptHistory,
{
    match decode(data) {
        Err(e) => Err(e),
        Ok(entries) => HistoryStore::from_entries(entries, max_entries),
    }
}

} // verus!
