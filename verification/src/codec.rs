//! Encryption and decryption of a single history entry's payload.
//!
//! Every payload is sealed with AES-256-GCM under the process-wide key, with a
//! nonce drawn freshly for each seal and stored beside the ciphertext.  The
//! authentication tag trails the ciphertext bytes, so a stored ciphertext is
//! always `payload length + TAG_LEN` bytes long.  Decryption fails closed: a
//! tampered or foreign ciphertext yields `CodecError::DecodeError`, never a
//! partial plaintext.

use vstd::prelude::*;

use crate::errors::CodecError;

verus! {

/// Number of bytes of symmetric key material (AES-256).
pub const KEY_LEN: usize = 32;

/// Number of bytes of a nonce (GCM initialisation vector).
pub const NONCE_LEN: usize = 12;

/// Number of bytes of the authentication tag that trails a ciphertext.
pub const TAG_LEN: usize = 16;

/// The largest payload the cipher backend accepts in one call: its lengths
/// travel through a C `int`, so anything beyond this bound would make the
/// call panic instead of erring.
pub const MAX_PAYLOAD_LEN: usize = 0x7fff_ffff;

/// A key is usable exactly when it has `KEY_LEN` bytes.
pub open spec fn valid_key(k: Seq<u8>) -> bool {
    k.len() == KEY_LEN
}

/// A nonce is usable exactly when it has `NONCE_LEN` bytes.
pub open spec fn valid_nonce(n: Seq<u8>) -> bool {
    n.len() == NONCE_LEN
}

/// The ciphertext (tag included) that AES-256-GCM produces for the given key,
/// nonce and plaintext.  The cipher is deterministic in these three inputs, so
/// the result is a function of the arguments alone.
pub uninterp spec fn seal_of(key: Seq<u8>, nonce: Seq<u8>, pt: Seq<u8>) -> Seq<u8>;

/// What AES-256-GCM authenticated decryption returns for the given key, nonce
/// and ciphertext (tag included): the plaintext, or nothing when the tag does
/// not authenticate.  Deterministic in the three inputs.
pub uninterp spec fn open_of(key: Seq<u8>, nonce: Seq<u8>, ct: Seq<u8>) -> Option<Seq<u8>>;

/// Relies on `openssl::symm::encrypt_aead` with `Cipher::aes_256_gcm`: the
/// ciphertext and tag are a deterministic function of key, nonce and
/// plaintext; GCM keeps the payload length, so with the 16-byte tag appended
/// the result has `pt.len() + TAG_LEN` bytes; and decrypting the sealed bytes
/// with the same key and nonce authenticates and yields the plaintext back.
/// The length bound keeps the payload inside the range the backend accepts
/// without panicking (its length travels through a C `int`).
#[verifier::external_body]
fn aead_seal(key: &[u8], nonce: &[u8], pt: &[u8]) -> (r: Option<Vec<u8>>)
    requires
        valid_key(key@),
        valid_nonce(nonce@),
        pt@.len() <= MAX_PAYLOAD_LEN,
    ensures
        r is Some ==> r->0@ == seal_of(key@, nonce@, pt@),
        r is Some ==> r->0@.len() == pt@.len() + TAG_LEN,
        r is Some ==> open_of(key@, nonce@, r->0@) == Some(pt@),
{
    let mut tag = [0u8; 16];
    match openssl::symm::encrypt_aead(
        openssl::symm::Cipher::aes_256_gcm(),
        key,
        Some(nonce),
        &[],
        pt,
        &mut tag,
    ) {
        Ok(mut ct) => {
            ct.extend_from_slice(&tag);
            Some(ct)
        }
        Err(_) => None,
    }
}

/// Relies on `openssl::symm::decrypt_aead` with `Cipher::aes_256_gcm`: the
/// outcome is a deterministic function of key, nonce, ciphertext body and
/// 16-byte tag; on authentication failure it reports an error and hands out no
/// plaintext at all.  The length bound keeps the body inside the range the
/// backend accepts without panicking (its length travels through a C `int`).
#[verifier::external_body]
fn aead_open(key: &[u8], nonce: &[u8], body: &[u8], tag: &[u8]) -> (r: Option<Vec<u8>>)
    requires
        valid_key(key@),
        valid_nonce(nonce@),
        tag@.len() == TAG_LEN,
        body@.len() <= MAX_PAYLOAD_LEN,
    ensures
        r is Some <==> open_of(key@, nonce@, body@ + tag@) is Some,
        r is Some ==> r->0@ == open_of(key@, nonce@, body@ + tag@)->0,
{
    match openssl::symm::decrypt_aead(
        openssl::symm::Cipher::aes_256_gcm(),
        key,
        Some(nonce),
        &[],
        body,
        tag,
    ) {
        Ok(pt) => Some(pt),
        Err(_) => None,
    }
}

/// Relies on `openssl::rand::rand_priv_bytes`: fills a buffer of the requested
/// length with cryptographically secure random bytes; nothing is promised of
/// their values.  The length bound keeps the call inside the range the
/// function accepts without panicking.
#[verifier::external_body]
fn fill_random(n: usize) -> (r: Option<Vec<u8>>)
    requires
        n <= 0x7fff_ffff,
    ensures
        r is Some ==> r->0@.len() == n,
{
    let mut buf = vec![0u8; n];
    match openssl::rand::rand_priv_bytes(&mut buf) {
        Ok(()) => Some(buf),
        Err(_) => None,
    }
}

/// Draw fresh random key material of `KEY_LEN` bytes, for first-run creation
/// of the application's secret.
pub fn generate_key_material() -> (r: Result<Vec<u8>, CodecError>)
    ensures
        r is Ok ==> valid_key(r->Ok_0@),
        r is Err ==> r->Err_0 == CodecError::CipherFailure,
{
    match fill_random(KEY_LEN) {
        Some(b) => Ok(b),
        None => Err(CodecError::CipherFailure),
    }
}

/// Seal a payload under the process key with a freshly drawn nonce.
///
/// On success the returned pair is `(nonce, ciphertext)`; the ciphertext
/// carries the authentication tag in its trailing `TAG_LEN` bytes, and opening
/// it again under the same key and nonce yields the payload back.
pub fn encrypt(key: &Vec<u8>, payload: &Vec<u8>) -> (r: Result<(Vec<u8>, Vec<u8>), CodecError>)
    requires
        valid_key(key@),
        payload@.len() <= MAX_PAYLOAD_LEN,
    ensures
        r is Ok ==> valid_nonce(r->Ok_0.0@),
        r is Ok ==> r->Ok_0.1@ == seal_of(key@, r->Ok_0.0@, payload@),
        r is Ok ==> r->Ok_0.1@.len() == payload@.len() + TAG_LEN,
        r is Ok ==> open_of(key@, r->Ok_0.0@, r->Ok_0.1@) == Some(payload@),
        r is Err ==> r->Err_0 == CodecError::CipherFailure,
{
    let nonce = match fill_random(NONCE_LEN) {
        Some(n) => n,
        None => {
            return Err(CodecError::CipherFailure);
        }
    };
    match aead_seal(key.as_slice(), nonce.as_slice(), payload.as_slice()) {
        Some(ct) => Ok((nonce, ct)),
        None => Err(CodecError::CipherFailure),
    }
}

/// Round trip: decrypting what `encrypt` sealed, under the same key, yields
/// exactly the payload back.
///
/// The law holds for every payload and key and is proved here from the
/// codec's contracts by running the pair; the result is `None` only when the
/// cipher backend refused to seal at all.  That decryption under a
/// *different* key fails is the cipher's cryptographic guarantee; it cannot
/// be a theorem and is exercised by the tests instead.
pub fn encrypt_decrypt_round_trip(key: &Vec<u8>, payload: &Vec<u8>) -> (r: Option<Vec<u8>>)
    requires
        valid_key(key@),
        payload@.len() <= MAX_PAYLOAD_LEN,
    ensures
        r is Some ==> r->0@ == payload@,
{
    match encrypt(key, payload) {
        Ok((nonce, ct)) => {
            let pt = match decrypt(key, &nonce, &ct) {
                Ok(pt) => pt,
                Err(_) => {
                    // Unreachable: the sealed ciphertext authenticates under
                    // this key and nonce, so decryption is owed success.
                    proof {
                        assert(false);
                    }
                    return None;
                },
            };
            assert(pt@ == payload@);
            Some(pt)
        },
        Err(_) => None,
    }
}

/// Open a stored ciphertext under the process key.
///
/// Succeeds exactly when the nonce is well formed, the ciphertext is framed
/// (long enough to carry a tag, with a body within the backend's bound) and
/// the tag authenticates under this key; any other input is rejected with
/// `DecodeError` and no partial plaintext escapes.
pub fn decrypt(key: &Vec<u8>, nonce: &Vec<u8>, ct: &Vec<u8>) -> (r: Result<Vec<u8>, CodecError>)
    requires
        valid_key(key@),
    ensures
        r is Ok <==> valid_nonce(nonce@) && TAG_LEN <= ct@.len() <= MAX_PAYLOAD_LEN + TAG_LEN
            && open_of(key@, nonce@, ct@) is Some,
        r is Ok ==> r->Ok_0@ == open_of(key@, nonce@, ct@)->0,
        r is Err ==> r->Err_0 == CodecError::DecodeError,
{
    if nonce.len() != NONCE_LEN {
        return Err(CodecError::DecodeError);
    }
    if ct.len() < TAG_LEN {
        return Err(CodecError::DecodeError);
    }
    if ct.len() - TAG_LEN > MAX_PAYLOAD_LEN {
        return Err(CodecError::DecodeError);
    }
    let split = ct.len() - TAG_LEN;
    let body = vstd::slice::slice_subrange(ct.as_slice(), 0, split);
    let tag = vstd::slice::slice_subrange(ct.as_slice(), split, ct.len());
    proof {
        assert(body@ + tag@ =~= ct@);
    }
    match aead_open(key.as_slice(), nonce.as_slice(), body, tag) {
        Some(pt) => Ok(pt),
        None => Err(CodecError::DecodeError),
    }
}

} // verus!
