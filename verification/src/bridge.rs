//! The clipboard bridge adapter: the in-core side of the boundary to the
//! clipboard protocol client.
//!
//! The surrounding application reads the current selection and reports one
//! `ClipboardRead`; the adapter feeds it into the store.  An empty clipboard
//! and a missing seat are expected, non-fatal outcomes and change nothing; a
//! transport failure is fatal and surfaced.

use vstd::prelude::*;

use crate::codec::{open_of, seal_of, valid_key, valid_nonce, MAX_PAYLOAD_LEN};
use crate::errors::{ClipboardError, IngestError};
use crate::store::{spec_dedup_head, spec_insert, spec_next_id, EntryModel, HistoryStore};

verus! {

/// The outcome of one clipboard read, as the application reports it.
pub enum ClipboardRead {
    /// The clipboard held content: the payload bytes and their mime type.
    Content(Vec<u8>, Vec<u8>),
    /// The clipboard is empty.
    Empty,
    /// No seat is available.
    NoSeat,
    /// The transport to the clipboard failed.
    Transport,
}

/// What one ingest did.
#[derive(Clone, Copy, Debug, PartialEq, Eq, Structural)]
pub enum IngestReport {
    /// A fresh entry was stored.
    Added,
    /// The content equals the most recent entry; nothing was stored.
    Deduplicated,
    /// The clipboard had nothing to store.
    NothingToAdd,
}

/// Feed one clipboard read into the store.
///
/// Content goes through `HistoryStore::add` — sealed, deduplicated against
/// the most recent entry, bounded.  An empty clipboard or missing seat is a
/// no-op.  A transport failure is surfaced and changes nothing.
pub fn ingest(store: &mut HistoryStore, key: &Vec<u8>, read: ClipboardRead, timestamp: u64)
    -> (r: Result<IngestReport, IngestError>)
    requires
        old(store).wf(),
        valid_key(key@),
        read matches ClipboardRead::Content(p, m) ==> p@.len() <= MAX_PAYLOAD_LEN,
    ensures
        final(store).wf(),
        final(store).capacity() == old(store).capacity(),
        read is Empty || read is NoSeat ==> r == Ok::<IngestReport, IngestError>(
            IngestReport::NothingToAdd,
        ) && final(store)@ == old(store)@,
        read is Transport ==> r == Err::<IngestReport, IngestError>(
            IngestError::Clipboard(ClipboardError::Transport),
        ) && final(store)@ == old(store)@,
        read is Content ==> {
            let payload = read->Content_0@;
            let mime = read->Content_1@;
            &&& (r == Ok::<IngestReport, IngestError>(IngestReport::Deduplicated) <==> spec_dedup_head(
                old(store)@,
                key@,
                payload,
                mime,
            ))
            &&& r == Ok::<IngestReport, IngestError>(IngestReport::Deduplicated) ==> final(store)@
                == old(store)@
            &&& r == Ok::<IngestReport, IngestError>(IngestReport::Added) ==> exists|n: Seq<u8>, c: Seq<u8>|
                {
                    &&& valid_nonce(n)
                    &&& c == seal_of(key@, n, payload)
                    &&& open_of(key@, n, c) == Some(payload)
                    &&& final(store)@ =~= spec_insert(
                        old(store)@,
                        EntryModel {
                            id: spec_next_id(old(store)@) as u64,
                            timestamp,
                            mime_type: mime,
                            nonce: n,
                            ciphertext: c,
                        },
                        old(store).capacity(),
                    )
                }
            &&& r is Ok ==> (r->Ok_0 == IngestReport::Added || r->Ok_0
                == IngestReport::Deduplicated)
            &&& r is Err ==> r->Err_0 is Store && final(store)@ == old(store)@
        },
{
    match read {
        ClipboardRead::Empty => Ok(IngestReport::NothingToAdd),
        ClipboardRead::NoSeat => Ok(IngestReport::NothingToAdd),
        ClipboardRead::Transport => Err(IngestError::Clipboard(ClipboardError::Transport)),
        ClipboardRead::Content(payload, mime) => {
            match store.add(key, &payload, &mime, timestamp) {
                Ok(true) => Ok(IngestReport::Added),
                Ok(false) => Ok(IngestReport::Deduplicated),
                Err(e) => Err(IngestError::Store(e)),
            }
        },
    }
}

} // verus!
