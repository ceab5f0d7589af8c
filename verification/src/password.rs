//! The password value type: validation, and the plaintext/encrypted state.

use crate::cipher::{
    aes256_gcm_open, aes256_gcm_seal, fresh_nonce, open, seal, seal_opens, MAX_PLAINTEXT_LEN,
    NONCE_LEN,
};
use crate::hex_codec::{decode, encode, hex_decode, hex_encode, lemma_hex_decode_encode};
use rand::distributions::Alphanumeric;
use rand::Rng;
use vstd::prelude::*;
use vstd::slice::slice_to_vec;
use vstd::std_specs::cmp::PartialEqSpecImpl;
use vstd::std_specs::convert::TryFromSpecImpl;
use vstd::utf8::*;

verus! {

/// Fewest bytes a password may have.
pub const MIN_PASSWORD_LEN: usize = 8;

/// Most bytes a password may have.
pub const MAX_PASSWORD_LEN: usize = 256;

/// Why a raw string was refused as a password.
#[derive(Debug, Clone, Copy, PartialEq, Eq, Structural)]
pub enum PasswordCreationError {
    /// Fewer than `MIN_PASSWORD_LEN` bytes.
    TooShort,
    /// More than `MAX_PASSWORD_LEN` bytes.
    TooLong,
    /// Every character is an ASCII letter or digit.
    NoSpecialChars,
}

/// True for the ASCII letters and digits, and for nothing else.
pub open spec fn is_alphanumeric(c: char) -> bool {
    ||| 'a' <= c <= 'z'
    ||| 'A' <= c <= 'Z'
    ||| '0' <= c <= '9'
}

/// True when some character of `s` is not an ASCII letter or digit.
pub open spec fn has_special_char(s: Seq<char>) -> bool {
    exists|i: int| 0 <= i < s.len() && !is_alphanumeric(#[trigger] s[i])
}

/// The length that the policy measures: the bytes of the UTF-8 encoding.
pub open spec fn byte_len(s: Seq<char>) -> nat {
    encode_utf8(s).len()
}

/// What the policy says of a raw string: `Ok` when it may be a password,
/// otherwise the first rule that it breaks.
pub open spec fn check_policy(s: Seq<char>) -> Result<(), PasswordCreationError> {
    if byte_len(s) < MIN_PASSWORD_LEN {
        Err(PasswordCreationError::TooShort)
    } else if byte_len(s) > MAX_PASSWORD_LEN {
        Err(PasswordCreationError::TooLong)
    } else if !has_special_char(s) {
        Err(PasswordCreationError::NoSpecialChars)
    } else {
        Ok(())
    }
}

/// Tells whether `c` is an ASCII letter or digit.
pub fn char_is_alphanumeric(c: char) -> (b: bool)
    ensures
        b == is_alphanumeric(c),
{
    ('a' <= c && c <= 'z') || ('A' <= c && c <= 'Z') || ('0' <= c && c <= '9')
}

/// Tells whether some character of `s` is not an ASCII letter or digit.
pub fn contains_special_char(s: &str) -> (b: bool)
    ensures
        b == has_special_char(s@),
{
    let mut found = false;
    for c in it: s.chars()
        invariant
            it.seq() == s@,
            found == has_special_char(s@.take(it.index())),
    {
        proof {
            let i = it.index();
            assert(s@.take(i + 1).drop_last() == s@.take(i));
            assert(s@.take(i + 1).last() == c);
            if has_special_char(s@.take(i)) {
                let j = choose|j: int| 0 <= j < i && !is_alphanumeric(#[trigger] s@.take(i)[j]);
                assert(s@.take(i + 1)[j] == s@.take(i)[j]);
            }
            if has_special_char(s@.take(i + 1)) && is_alphanumeric(c) {
                let j = choose|j: int| 0 <= j < i + 1 && !is_alphanumeric(#[trigger] s@.take(i + 1)[j]);
                assert(s@.take(i)[j] == s@.take(i + 1)[j]);
            }
            if !is_alphanumeric(c) {
                assert(!is_alphanumeric(s@.take(i + 1)[i]));
            }
        }
        if !char_is_alphanumeric(c) {
            found = true;
        }
    }
    assert(s@.take(s@.len() as int) == s@);
    found
}

/// Checks a raw string against the password policy.
pub fn validate(s: &str) -> (r: Result<(), PasswordCreationError>)
    ensures
        r == check_policy(s@),
{
    let len = s.as_bytes().len();
    if len < MIN_PASSWORD_LEN {
        Err(PasswordCreationError::TooShort)
    } else if len > MAX_PASSWORD_LEN {
        Err(PasswordCreationError::TooLong)
    } else if !contains_special_char(s) {
        Err(PasswordCreationError::NoSpecialChars)
    } else {
        Ok(())
    }
}

/// Characters that `generate` draws when it makes a password for `new`.
pub const GENERATED_LEN: usize = 26;

/// Why a password could not be encrypted or decrypted.
#[derive(Debug, Clone, Copy, PartialEq, Eq, Structural)]
pub enum PasswordCryptoError {
    /// `encrypt` on a password that is encrypted already.
    AlreadyEncrypted,
    /// `decrypt` on a password that is in plaintext.
    NotEncrypted,
    /// The cipher refused the plaintext.
    EncryptionFailed,
    /// The stored value is no hexadecimal text, or is shorter than a nonce.
    MalformedCiphertext,
    /// The cipher could not authenticate the stored value under the key.
    AuthenticationFailed,
    /// The recovered bytes are not UTF-8.
    InvalidUtf8,
}

/// A secret together with the state it is in: plaintext, or encrypted, in
/// which case `value` is the hexadecimal text of nonce, ciphertext and tag.
#[derive(Debug, Hash)]
pub struct Password {
    value: String,
    is_encrypted: bool,
}

/// What a `Password` holds.
pub struct PasswordView {
    pub value: Seq<char>,
    pub is_encrypted: bool,
}

impl View for Password {
    type V = PasswordView;

    closed spec fn view(&self) -> PasswordView {
        PasswordView { value: self.value@, is_encrypted: self.is_encrypted }
    }
}

/// The plaintext password that holds `value`.
pub open spec fn plaintext(value: Seq<char>) -> PasswordView {
    PasswordView { value, is_encrypted: false }
}

/// The error with which generating `length` characters ends. Generation draws
/// letters and digits only, so what it makes never has the special character
/// that the policy asks for.
pub open spec fn generation_error(length: nat) -> PasswordCreationError {
    if length < MIN_PASSWORD_LEN {
        PasswordCreationError::TooShort
    } else if length > MAX_PASSWORD_LEN {
        PasswordCreationError::TooLong
    } else {
        PasswordCreationError::NoSpecialChars
    }
}

/// The stored value of a plaintext `value` encrypted under `key` with
/// `nonce`: the hexadecimal text of the nonce followed by what the cipher
/// made of the UTF-8 bytes.
pub open spec fn sealed_value(key: Seq<u8>, nonce: Seq<u8>, value: Seq<char>) -> Seq<char> {
    hex_encode(nonce + aes256_gcm_seal(key, nonce, encode_utf8(value)))
}

/// The error with which `encrypt` refuses `p`, whatever the key and the
/// nonce: an encrypted password, or a plaintext too long for the cipher.
/// `None` where it encrypts `p`.
pub open spec fn encrypt_refusal(p: PasswordView) -> Option<PasswordCryptoError> {
    if p.is_encrypted {
        Some(PasswordCryptoError::AlreadyEncrypted)
    } else if byte_len(p.value) > MAX_PLAINTEXT_LEN {
        Some(PasswordCryptoError::EncryptionFailed)
    } else {
        None
    }
}

/// What `encrypt` with `nonce` makes of `p`.
pub open spec fn encrypt_outcome(p: PasswordView, key: Seq<u8>, nonce: Seq<u8>) -> Result<
    PasswordView,
    PasswordCryptoError,
> {
    match encrypt_refusal(p) {
        Some(e) => Err(e),
        None => Ok(PasswordView { value: sealed_value(key, nonce, p.value), is_encrypted: true }),
    }
}

/// What `decrypt` makes of `p`.
pub open spec fn decrypt_outcome(p: PasswordView, key: Seq<u8>) -> Result<
    PasswordView,
    PasswordCryptoError,
> {
    if !p.is_encrypted {
        Err(PasswordCryptoError::NotEncrypted)
    } else {
        match hex_decode(encode_utf8(p.value)) {
            None => Err(PasswordCryptoError::MalformedCiphertext),
            Some(blob) => if blob.len() < NONCE_LEN {
                Err(PasswordCryptoError::MalformedCiphertext)
            } else {
                let nonce = blob.subrange(0, NONCE_LEN as int);
                let sealed = blob.subrange(NONCE_LEN as int, blob.len() as int);
                match aes256_gcm_open(key, nonce, sealed) {
                    None => Err(PasswordCryptoError::AuthenticationFailed),
                    Some(bytes) => if valid_utf8(bytes) {
                        Ok(plaintext(decode_utf8(bytes)))
                    } else {
                        Err(PasswordCryptoError::InvalidUtf8)
                    },
                }
            },
        }
    }
}

/// True when `after` is what a successful `encrypt` under `key` with `nonce`
/// left of `before`.
pub open spec fn encrypted_from(
    before: PasswordView,
    key: Seq<u8>,
    nonce: Seq<u8>,
    after: PasswordView,
) -> bool {
    &&& nonce.len() == NONCE_LEN
    &&& encrypt_outcome(before, key, nonce) == Ok::<PasswordView, PasswordCryptoError>(after)
    &&& seal_opens(key, nonce, encode_utf8(before.value))
}

/// `rand`'s `Rng::sample_iter` over `Alphanumeric` on `thread_rng()`, cut
/// after `length` draws. Each draw is one of the 62 ASCII letters and digits.
#[verifier::external_body]
fn random_alphanumeric(length: usize) -> (text: String)
    requires
        length <= MAX_PASSWORD_LEN,
    ensures
        text@.len() == length,
        forall|i: int| 0 <= i < text@.len() ==> is_alphanumeric(#[trigger] text@[i]),
{
    rand::thread_rng().sample_iter(&Alphanumeric).take(length).map(char::from).collect()
}

/// `String::from_utf8`: the text that `bytes` encode, or `None` where they
/// are not UTF-8.
#[verifier::external_body]
fn string_from_utf8(bytes: Vec<u8>) -> (r: Option<String>)
    ensures
        match r {
            Some(text) => valid_utf8(bytes@) && text@ == decode_utf8(bytes@),
            None => !valid_utf8(bytes@),
        },
{
    String::from_utf8(bytes).ok()
}

impl Password {
    /// Makes a plaintext password of `input` if the policy accepts it. With
    /// `generate` set, an accepted `input` is dropped and `generate` is asked
    /// for `GENERATED_LEN` characters in its place: the result is then the
    /// error in which `generate` ends.
    pub fn new(input: String, generate: bool) -> (r: Result<Password, PasswordCreationError>)
        ensures
            match check_policy(input@) {
                Err(e) => r == Err::<Password, PasswordCreationError>(e),
                Ok(()) => if generate {
                    r == Err::<Password, PasswordCreationError>(
                        generation_error(GENERATED_LEN as nat),
                    )
                } else {
                    r matches Ok(p) && p@ == plaintext(input@)
                },
            },
    {
        match validate(input.as_str()) {
            Err(e) => Err(e),
            Ok(()) => if generate {
                Self::generate(GENERATED_LEN)
            } else {
                Ok(Password { value: input, is_encrypted: false })
            },
        }
    }

    /// Makes a plaintext password of `raw` if the policy accepts it.
    fn create(raw: String) -> (r: Result<Password, PasswordCreationError>)
        ensures
            match check_policy(raw@) {
                Err(e) => r == Err::<Password, PasswordCreationError>(e),
                Ok(()) => r matches Ok(p) && p@ == plaintext(raw@),
            },
    {
        match validate(raw.as_str()) {
            Err(e) => Err(e),
            Ok(()) => Ok(Password { value: raw, is_encrypted: false }),
        }
    }

    /// An encrypted password that holds `stored`, for a value that was
    /// taken from an encrypted password earlier and is read back. Nothing is
    /// checked here: `decrypt` tells whether `stored` is well formed and
    /// authentic.
    pub fn from_encrypted(stored: String) -> (p: Password)
        ensures
            p@ == (PasswordView { value: stored@, is_encrypted: true }),
    {
        Password { value: stored, is_encrypted: true }
    }

    /// A copy of the stored value: the secret itself, or the hexadecimal
    /// text while the password is encrypted.
    pub fn get_password(&self) -> (value: String)
        ensures
            value@ == self@.value,
    {
        self.value.clone()
    }

    /// Tells whether the stored value is encrypted.
    pub fn is_encrypted(&self) -> (b: bool)
        ensures
            b == self@.is_encrypted,
    {
        self.is_encrypted
    }

    /// Replaces the stored value by `new_password` if the policy accepts it.
    /// The state stays as it was.
    pub fn set_password(&mut self, new_password: String) -> (r: Result<(), PasswordCreationError>)
        ensures
            match check_policy(new_password@) {
                Err(e) => r == Err::<(), PasswordCreationError>(e) && final(self)@ == old(self)@,
                Ok(()) => r is Ok && final(self)@ == (PasswordView {
                    value: new_password@,
                    is_encrypted: old(self)@.is_encrypted,
                }),
            },
    {
        match validate(new_password.as_str()) {
            Err(e) => Err(e),
            Ok(()) => {
                self.value = new_password;
                Ok(())
            },
        }
    }

    /// The length of the stored value in bytes.
    pub fn len(&self) -> (n: usize)
        ensures
            n == byte_len(self@.value),
    {
        self.value.as_str().as_bytes().len()
    }

    /// Draws `length` random letters and digits and puts them to the policy;
    /// a `length` that the policy refuses by itself is refused before
    /// anything is drawn. The policy asks for a character that is neither
    /// letter nor digit, so this ends in an error for every `length`; which
    /// one depends on `length` alone.
    pub fn generate(length: usize) -> (r: Result<Password, PasswordCreationError>)
        ensures
            r == Err::<Password, PasswordCreationError>(generation_error(length as nat)),
    {
        if length < MIN_PASSWORD_LEN {
            return Err(PasswordCreationError::TooShort);
        }
        if length > MAX_PASSWORD_LEN {
            return Err(PasswordCreationError::TooLong);
        }
        let value = random_alphanumeric(length);
        proof {
            assert(is_ascii_chars(value@));
            is_ascii_chars_encode_utf8(value@);
        }
        Password::create(value)
    }

    /// Encrypts a plaintext password under `key` with a nonce drawn for this
    /// call, as `encrypt_with_nonce` does.
    pub fn encrypt(&mut self, key: &[u8; 32]) -> (r: Result<(), PasswordCryptoError>)
        ensures
            match encrypt_refusal(old(self)@) {
                Some(e) => r == Err::<(), PasswordCryptoError>(e) && final(self)@ == old(self)@,
                None => r is Ok && exists|nonce: Seq<u8>| #[trigger]
                    encrypted_from(old(self)@, key@, nonce, final(self)@),
            },
    {
        let nonce = fresh_nonce();
        let r = self.encrypt_with_nonce(key, &nonce);
        proof {
            if r is Ok {
                assert(encrypted_from(old(self)@, key@, nonce@, self@));
            }
        }
        r
    }

    /// Encrypts a plaintext password under `key` with `nonce`: the stored
    /// value becomes the hexadecimal text of the nonce, the ciphertext and
    /// the tag. An encrypted password is refused and left as it is.
    pub fn encrypt_with_nonce(&mut self, key: &[u8; 32], nonce: &[u8; 12]) -> (r: Result<
        (),
        PasswordCryptoError,
    >)
        ensures
            match encrypt_outcome(old(self)@, key@, nonce@) {
                Ok(after) => r is Ok && final(self)@ == after && encrypted_from(
                    old(self)@,
                    key@,
                    nonce@,
                    final(self)@,
                ),
                Err(e) => r == Err::<(), PasswordCryptoError>(e) && final(self)@ == old(self)@,
            },
    {
        if self.is_encrypted {
            return Err(PasswordCryptoError::AlreadyEncrypted);
        }
        if self.value.as_str().as_bytes().len() as u64 > MAX_PLAINTEXT_LEN {
            return Err(PasswordCryptoError::EncryptionFailed);
        }
        match seal(key, nonce.as_slice(), self.value.as_str().as_bytes()) {
            Err(_) => Err(PasswordCryptoError::EncryptionFailed),
            Ok(sealed) => {
                let mut blob = slice_to_vec(nonce.as_slice());
                blob.extend_from_slice(sealed.as_slice());
                assert(blob@ == nonce@ + sealed@);
                self.value = encode(blob.as_slice());
                self.is_encrypted = true;
                Ok(())
            },
        }
    }

    /// Decrypts an encrypted password under `key`. On any error the password
    /// is left as it is.
    pub fn decrypt(&mut self, key: &[u8; 32]) -> (r: Result<(), PasswordCryptoError>)
        ensures
            match decrypt_outcome(old(self)@, key@) {
                Ok(after) => r is Ok && final(self)@ == after,
                Err(e) => r == Err::<(), PasswordCryptoError>(e) && final(self)@ == old(self)@,
            },
    {
        if !self.is_encrypted {
            return Err(PasswordCryptoError::NotEncrypted);
        }
        let blob = match decode(self.value.as_str().as_bytes()) {
            Ok(blob) => blob,
            Err(_) => {
                return Err(PasswordCryptoError::MalformedCiphertext);
            },
        };
        if blob.len() < NONCE_LEN {
            return Err(PasswordCryptoError::MalformedCiphertext);
        }
        let (nonce, sealed) = blob.as_slice().split_at(NONCE_LEN);
        match open(key, nonce, sealed) {
            Err(_) => Err(PasswordCryptoError::AuthenticationFailed),
            Ok(bytes) => match string_from_utf8(bytes) {
                None => Err(PasswordCryptoError::InvalidUtf8),
                Some(value) => {
                    self.value = value;
                    self.is_encrypted = false;
                    Ok(())
                },
            },
        }
    }
}

/// A text has at least as many bytes as characters.
pub proof fn lemma_byte_len_at_least_len(s: Seq<char>)
    ensures
        s.len() <= byte_len(s),
    decreases s.len(),
{
    if s.len() > 0 {
        lemma_byte_len_at_least_len(s.drop_first());
        assert(encode_scalar(s[0] as u32).len() >= 1);
    }
}

/// Encryption followed by decryption under the same key restores the
/// plaintext: whatever `encrypt` left of `before` under `key`, with any
/// nonce, `decrypt` under `key` turns back into `before`.
pub proof fn lemma_decrypt_restores_plaintext(
    before: PasswordView,
    key: Seq<u8>,
    nonce: Seq<u8>,
    after: PasswordView,
)
    requires
        encrypted_from(before, key, nonce, after),
    ensures
        decrypt_outcome(after, key) == Ok::<PasswordView, PasswordCryptoError>(before),
{
    let bytes = encode_utf8(before.value);
    let sealed = aes256_gcm_seal(key, nonce, bytes);
    let blob = nonce + sealed;
    lemma_hex_decode_encode(blob);
    assert(blob.subrange(0, NONCE_LEN as int) == nonce);
    assert(blob.subrange(NONCE_LEN as int, blob.len() as int) == sealed);
    encode_utf8_valid_utf8(before.value);
    encode_utf8_decode_utf8(before.value);
}

/// The stored value of an encrypted password is never its plaintext.
pub proof fn lemma_encrypted_value_differs(
    before: PasswordView,
    key: Seq<u8>,
    nonce: Seq<u8>,
    after: PasswordView,
)
    requires
        encrypted_from(before, key, nonce, after),
    ensures
        after.value != before.value,
        after.value.len() == 2 * (NONCE_LEN + byte_len(before.value) + crate::cipher::TAG_LEN),
{
    lemma_byte_len_at_least_len(before.value);
}

/// Encrypting one plaintext under one key with two different nonces gives
/// two different stored values.
pub proof fn lemma_distinct_nonces_distinct_values(
    key: Seq<u8>,
    first: Seq<u8>,
    second: Seq<u8>,
    value: Seq<char>,
)
    requires
        first.len() == NONCE_LEN,
        second.len() == NONCE_LEN,
        first != second,
    ensures
        sealed_value(key, first, value) != sealed_value(key, second, value),
{
    let a = first + aes256_gcm_seal(key, first, encode_utf8(value));
    let b = second + aes256_gcm_seal(key, second, encode_utf8(value));
    lemma_hex_decode_encode(a);
    lemma_hex_decode_encode(b);
    if hex_encode(a) == hex_encode(b) {
        assert(a == b);
        assert(a.subrange(0, NONCE_LEN as int) == first);
        assert(b.subrange(0, NONCE_LEN as int) == second);
    }
}

impl TryFrom<&str> for Password {
    type Error = PasswordCreationError;

    /// Makes a plaintext password of `value` if the policy accepts it.
    fn try_from(value: &str) -> (r: Result<Password, PasswordCreationError>)
        ensures
            match check_policy(value@) {
                Err(e) => r == Err::<Password, PasswordCreationError>(e),
                Ok(()) => r matches Ok(p) && p@ == plaintext(value@),
            },
    {
        Password::create(value.to_owned())
    }
}

/// Two passwords with one view need not be one value, so the result of
/// `try_from` is stated by its own contract, over the view, and not through
/// `try_from_spec`.
impl TryFromSpecImpl<&str> for Password {
    open spec fn obeys_try_from_spec() -> bool {
        false
    }

    open spec fn try_from_spec(value: &str) -> Result<Password, PasswordCreationError> {
        match check_policy(value@) {
            Err(e) => Err(e),
            Ok(()) => Ok(choose|p: Password| p@ == plaintext(value@)),
        }
    }
}

impl PartialEq for Password {
    fn eq(&self, other: &Self) -> (r: bool) {
        self.value == other.value && self.is_encrypted == other.is_encrypted
    }
}

impl PartialEqSpecImpl for Password {
    open spec fn obeys_eq_spec() -> bool {
        true
    }

    open spec fn eq_spec(&self, other: &Self) -> bool {
        self@ == other@
    }
}

impl Clone for Password {
    fn clone(&self) -> (copy: Self)
        ensures
            copy@ == self@,
    {
        Password { value: self.value.clone(), is_encrypted: self.is_encrypted }
    }
}

} // verus!
