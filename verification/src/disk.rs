//! The atomic persistence protocol: write the full serialization to a
//! temporary file beside the target, then rename it over the target.
//!
//! The pair of files is modeled here as a value, so the protocol and its
//! crash behaviour are verified: until the rename happens the target file's
//! bytes are untouched, and a valid history they held stays loadable.  The
//! surrounding application performs the same two steps with real files.

use vstd::prelude::*;

use crate::store::{EntryModel, HistoryStore};
use crate::wire::{encode, lemma_encode_decode, spec_decode, spec_encode, store_fits};

verus! {

/// The pair of files the protocol touches: the target history file and the
/// temporary file beside it.  `None` stands for an absent file.
pub struct FileState {
    /// The bytes of the history file itself.
    pub target: Option<Vec<u8>>,
    /// The bytes of the temporary file, when one exists.
    pub temp: Option<Vec<u8>>,
}

impl FileState {
    /// A directory with neither file.
    pub fn new() -> (r: FileState)
        ensures
            r.target is None,
            r.temp is None,
    {
        FileState { target: None, temp: None }
    }

    /// Write the serialized bytes to the temporary file.  The target file is
    /// untouched, whatever happens afterwards.
    pub fn write_temp(&mut self, data: Vec<u8>)
        ensures
            final(self).temp == Some(data),
            final(self).target == old(self).target,
    {
        self.temp = Some(data);
    }

    /// Atomically rename the temporary file over the target: the target now
    /// holds exactly what the temporary file held, never a mixture.
    pub fn commit(&mut self)
        requires
            old(self).temp is Some,
        ensures
            final(self).target == old(self).temp,
            final(self).temp is None,
    {
        let t = self.temp.take();
        self.target = t;
    }

    /// A crash between the two steps: the temporary file is abandoned, the
    /// target keeps its bytes.
    pub fn crash(&mut self)
        ensures
            final(self).target == old(self).target,
            final(self).temp is None,
    {
        self.temp = None;
    }

    /// Persist a store: serialize it, write the temporary file, rename it
    /// over the target.  Afterwards the target holds the store's complete
    /// encoding.
    pub fn persist(&mut self, store: &HistoryStore)
        ensures
            final(self).target is Some,
            final(self).target->0@ == spec_encode(store@),
            final(self).temp is None,
    {
        let data = encode(store);
        self.write_temp(data);
        self.commit();
    }
}

/// Persistence atomicity: a crash immediately after the temporary file was
/// written, before the rename, leaves the original history file's bytes
/// untouched — that is `write_temp`'s and `crash`'s contract — and a valid
/// history they held is still loadable and decodes to the same entries.
pub proof fn lemma_crash_before_rename(fs0: FileState, fs1: FileState, s: Seq<EntryModel>)
    requires
        fs1.target == fs0.target,
        fs0.target is Some,
        fs0.target->0@ == spec_encode(s),
        store_fits(s),
    ensures
        fs1.target is Some,
        spec_decode(fs1.target->0@) == Some(s),
{
    lemma_encode_decode(s);
}

} // verus!
