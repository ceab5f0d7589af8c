//! The authenticated cipher that protects a stored password: AES-256-GCM
//! with a 96-bit nonce and no associated data.

use aes_gcm::aead::{Aead, AeadCore, KeyInit, OsRng};
use aes_gcm::{Aes256Gcm, Key, Nonce};
use vstd::prelude::*;

verus! {

/// Bytes in a key.
pub const KEY_LEN: usize = 32;

/// Bytes in a nonce.
pub const NONCE_LEN: usize = 12;

/// Bytes in the authentication tag that follows the ciphertext.
pub const TAG_LEN: usize = 16;

/// Longest plaintext, in bytes, that the cipher accepts.
pub const MAX_PLAINTEXT_LEN: u64 = 0x10_0000_0000;

/// What AES-256-GCM makes of `plaintext` under `key` and `nonce`: the
/// ciphertext followed by its tag.
pub uninterp spec fn aes256_gcm_seal(key: Seq<u8>, nonce: Seq<u8>, plaintext: Seq<u8>) -> Seq<u8>;

/// What AES-256-GCM recovers from `sealed` under `key` and `nonce`, or `None`
/// where it refuses `sealed`.
pub uninterp spec fn aes256_gcm_open(key: Seq<u8>, nonce: Seq<u8>, sealed: Seq<u8>) -> Option<
    Seq<u8>,
>;

/// What holds of a plaintext that the cipher has sealed: the sealed text is
/// longer by the tag, and it opens, under the same key and nonce, to that
/// plaintext.
pub open spec fn seal_opens(key: Seq<u8>, nonce: Seq<u8>, plaintext: Seq<u8>) -> bool {
    let sealed = aes256_gcm_seal(key, nonce, plaintext);
    &&& sealed.len() == plaintext.len() + TAG_LEN
    &&& aes256_gcm_open(key, nonce, sealed) == Some(plaintext)
}

/// `aes_gcm::Error`, the cipher's one error, which tells nothing of its
/// cause.
#[verifier::external_type_specification]
#[verifier::external_body]
pub struct ExCipherError(aes_gcm::Error);

/// `AeadCore::generate_nonce` of `Aes256Gcm` on `OsRng`: twelve bytes from
/// the operating system's random source. Nothing is claimed of the bytes.
#[verifier::external_body]
pub(crate) fn fresh_nonce() -> (nonce: [u8; 12]) {
    let drawn = Aes256Gcm::generate_nonce(&mut OsRng);
    let mut nonce = [0u8; 12];
    nonce.copy_from_slice(drawn.as_slice());
    nonce
}

/// `Aead::encrypt` of `Aes256Gcm`, made with `KeyInit::new` from `key`. Its
/// only error is a plaintext longer than the crate's `P_MAX`, which the
/// precondition leaves out; it returns the ciphertext, as long as the
/// plaintext, followed by the 16-byte tag. That `Aead::decrypt` under the
/// same key and nonce gives the plaintext back is the cipher's documented
/// round trip.
#[verifier::external_body]
pub(crate) fn seal(key: &[u8; 32], nonce: &[u8], plaintext: &[u8]) -> (r: Result<
    Vec<u8>,
    aes_gcm::Error,
>)
    requires
        nonce@.len() == NONCE_LEN,
        plaintext@.len() <= MAX_PLAINTEXT_LEN,
    ensures
        r is Ok,
        r matches Ok(sealed) ==> sealed@ == aes256_gcm_seal(key@, nonce@, plaintext@) && seal_opens(
            key@,
            nonce@,
            plaintext@,
        ),
{
    let cipher = Aes256Gcm::new(Key::<Aes256Gcm>::from_slice(key));
    cipher.encrypt(Nonce::from_slice(nonce), plaintext)
}

/// `Aead::decrypt` of `Aes256Gcm`, made with `KeyInit::new` from `key`: the
/// plaintext where the tag at the end of `sealed` authenticates the rest, an
/// error otherwise. The result depends on the three arguments alone.
#[verifier::external_body]
pub(crate) fn open(key: &[u8; 32], nonce: &[u8], sealed: &[u8]) -> (r: Result<
    Vec<u8>,
    aes_gcm::Error,
>)
    requires
        nonce@.len() == NONCE_LEN,
    ensures
        match r {
            Ok(plaintext) => aes256_gcm_open(key@, nonce@, sealed@) == Some(plaintext@),
            Err(_) => aes256_gcm_open(key@, nonce@, sealed@) is None,
        },
{
    let cipher = Aes256Gcm::new(Key::<Aes256Gcm>::from_slice(key));
    cipher.decrypt(Nonce::from_slice(nonce), sealed)
}

} // verus!
