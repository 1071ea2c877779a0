use vstd::prelude::*;

verus! {

/// Why key material could not be obtained from the secret service.
#[derive(Clone, Copy, Debug, PartialEq, Eq, Structural)]
pub enum KeyProviderError {
    /// The secret service itself could not be reached.
    ServiceUnavailable,
    /// The service refused to unlock or hand out the secret.
    AccessDenied,
    /// A stored secret exists but does not have the expected length.
    MalformedSecret,
}

/// Why a payload could not be encrypted or decrypted.
#[derive(Clone, Copy, Debug, PartialEq, Eq, Structural)]
pub enum CodecError {
    /// The cipher or random-number backend failed while producing a ciphertext.
    CipherFailure,
    /// Authentication or framing of a stored ciphertext failed; no plaintext
    /// is ever returned in this case.
    DecodeError,
}

/// Why the history store rejected an operation.
#[derive(Clone, Copy, Debug, PartialEq, Eq, Structural)]
pub enum StoreError {
    /// The persisted history bytes are not a valid serialization.
    CorruptHistory,
    /// Encrypting a new entry failed.
    Cipher(CodecError),
    /// Every identifier has been handed out; no fresh one exists.
    IdSpaceExhausted,
}

/// Why an entry could not be fetched for copying back to the clipboard.
#[derive(Clone, Copy, Debug, PartialEq, Eq, Structural)]
pub enum LookupError {
    /// No entry carries the requested id.
    UnknownId,
    /// The entry exists but no longer decrypts under the process key.
    Undecryptable,
}

/// Why the clipboard could not be read at all (an empty clipboard is not an
/// error and is reported as an ordinary outcome instead).
#[derive(Clone, Copy, Debug, PartialEq, Eq, Structural)]
pub enum ClipboardError {
    /// The transport to the clipboard failed.
    Transport,
}

/// Why one ingest of a clipboard read failed.
#[derive(Clone, Copy, Debug, PartialEq, Eq, Structural)]
pub enum IngestError {
    /// The clipboard could not be read.
    Clipboard(ClipboardError),
    /// The store rejected the capture.
    Store(StoreError),
}

} // verus!
