//! The secret key provider protocol.
//!
//! The process-wide symmetric key lives in the operating system's secret
//! service, as the single item carrying this application's label.  On first
//! run the item is created from freshly drawn random material; on every later
//! run the stored secret is reused — never silently regenerated, since a new
//! key would make every existing history entry undecryptable.  The item's
//! state is modeled here as a value, so the protocol is verified; the
//! surrounding application performs the bus calls and feeds the observed
//! state through the same decision.

use vstd::prelude::*;

use crate::codec::{valid_key, KEY_LEN};
use crate::errors::KeyProviderError;

verus! {

/// What the key of a run is: the stored secret when the item exists, else
/// the freshly drawn material.
pub open spec fn spec_key_of(stored: Option<Seq<u8>>, fresh: Seq<u8>) -> Seq<u8> {
    match stored {
        Some(k) => k,
        None => fresh,
    }
}

/// The item's state after a run: it always exists and holds the run's key.
pub open spec fn spec_state_after(stored: Option<Seq<u8>>, fresh: Seq<u8>) -> Option<Seq<u8>> {
    Some(spec_key_of(stored, fresh))
}

/// Key persistence: once a run has obtained a key, every later run — with no
/// outside deletion of the item in between — obtains byte-identical key
/// material and leaves the item as it is, whatever fresh material it drew.
pub proof fn lemma_key_stable(stored: Option<Seq<u8>>, fresh1: Seq<u8>, fresh2: Seq<u8>)
    ensures
        spec_key_of(spec_state_after(stored, fresh1), fresh2) == spec_key_of(stored, fresh1),
        spec_state_after(spec_state_after(stored, fresh1), fresh2) == spec_state_after(
            stored,
            fresh1,
        ),
{
}

/// The state of this application's labeled item in the secret service: the
/// stored secret bytes, or nothing while no item with the label exists.
pub struct SecretItemState {
    /// The stored secret, when the item exists.
    pub secret: Option<Vec<u8>>,
}

impl SecretItemState {
    /// The mathematical model of the item.
    pub open spec fn model(&self) -> Option<Seq<u8>> {
        match self.secret {
            Some(v) => Some(v@),
            None => None,
        }
    }

    /// A service in which the item does not exist yet.
    pub fn absent() -> (r: SecretItemState)
        ensures
            r.model() is None,
    {
        SecretItemState { secret: None }
    }

    /// A service already holding the secret.
    pub fn holding(secret: Vec<u8>) -> (r: SecretItemState)
        ensures
            r.model() == Some(secret@),
    {
        SecretItemState { secret: Some(secret) }
    }

    /// Obtain the key: reuse the stored secret when the item exists, else
    /// store the freshly drawn material as the new item.  A stored secret of
    /// the wrong length is reported, never replaced.
    pub fn get_or_create(&mut self, fresh: Vec<u8>) -> (r: Result<Vec<u8>, KeyProviderError>)
        requires
            valid_key(fresh@),
        ensures
            r is Ok <==> (old(self).model() is None || old(self).model()->0.len() == KEY_LEN),
            r is Ok ==> r->Ok_0@ == spec_key_of(old(self).model(), fresh@),
            r is Ok ==> final(self).model() == spec_state_after(old(self).model(), fresh@),
            r is Ok ==> valid_key(r->Ok_0@),
            r is Err ==> r->Err_0 == KeyProviderError::MalformedSecret,
            r is Err ==> final(self).model() == old(self).model(),
    {
        match &self.secret {
            Some(v) => {
                if v.len() == KEY_LEN {
                    Ok(vstd::slice::slice_to_vec(v.as_slice()))
                } else {
                    Err(KeyProviderError::MalformedSecret)
                }
            },
            None => {
                let key = vstd::slice::slice_to_vec(fresh.as_slice());
                self.secret = Some(fresh);
                Ok(key)
            },
        }
    }
}

} // verus!
