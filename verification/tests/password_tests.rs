use accman::password::{Password, PasswordCreationError, PasswordCryptoError};
use aes_gcm::aead::{Aead, KeyInit};
use aes_gcm::{Aes256Gcm, Key, Nonce};

const KEY: [u8; 32] = [42; 32];
const OTHER_KEY: [u8; 32] = [7; 32];

fn sealed_hex(key: &[u8; 32], nonce: &[u8; 12], plaintext: &[u8]) -> String {
    let cipher = Aes256Gcm::new(Key::<Aes256Gcm>::from_slice(key));
    let sealed = cipher.encrypt(Nonce::from_slice(nonce), plaintext).unwrap();
    let mut blob = nonce.to_vec();
    blob.extend_from_slice(&sealed);
    hex::encode(blob)
}

#[test]
fn test_new_password() {
    assert_eq!(
        Password::new("password".into(), false),
        Err(PasswordCreationError::NoSpecialChars)
    );
    let made = Password::new("password!".into(), false).unwrap();
    assert_eq!(made.get_password(), "password!");
    assert!(!made.is_encrypted());
    assert_eq!(Password::try_from("password!").unwrap(), made);
}

#[test]
fn test_get_password() {
    assert!(Password::new("password".into(), false).is_err());
    let password = Password::new("password!".into(), false).unwrap();
    assert_eq!("password!".to_string(), password.get_password());
}

#[test]
fn test_set_password() {
    let mut password = Password::new(String::from("password!"), false).unwrap();
    assert_eq!(
        password.set_password("Password".into()),
        Err(PasswordCreationError::NoSpecialChars)
    );
    assert_eq!(Password::new("password!".into(), false).unwrap(), password);
    assert_eq!(password.set_password("Password!".into()), Ok(()));
    assert_eq!(Password::new("Password!".into(), false).unwrap(), password);
}

#[test]
fn test_password_from_string() {
    assert_eq!(
        Password::try_from("password"),
        Err(PasswordCreationError::NoSpecialChars)
    );
    let password = Password::try_from("password!").unwrap();
    assert_eq!(
        Password::new("password!".into(), false).unwrap(),
        password.clone()
    );
}

#[test]
fn test_password_length() {
    assert!(Password::try_from("password").is_err());
    let password = Password::try_from("p@ssword").unwrap();
    assert_eq!(password.get_password().len(), 8);
    assert_eq!(password.len(), 8);
}

#[test]
fn test_try_new_password_from_string() {
    assert!(Password::try_from("password").is_err());
    let password = Password::try_from("password!").unwrap();
    assert_eq!(Password::try_from("password!").unwrap(), password);
}

#[test]
fn test_password_validation() {
    let short_password = Password::try_from("pass").unwrap_err();
    assert_eq!(short_password, PasswordCreationError::TooShort);

    let mut long_password = "".to_string();
    for _ in 0..=256 {
        long_password.push('a');
    }
    let long_password = Password::new(long_password, false).unwrap_err();
    assert_eq!(long_password, PasswordCreationError::TooLong);

    let special_char_password = Password::try_from("*(&**)&&&^");
    assert_eq!(
        special_char_password.map(|p| p.get_password()),
        Ok("*(&**)&&&^".to_string())
    );
    assert_eq!(
        Password::try_from("abcdefgh"),
        Err(PasswordCreationError::NoSpecialChars)
    );
}

#[test]
fn test_encrypt_password() {
    assert!(Password::try_from("password").is_err());
    let mut password = Password::try_from("password!").unwrap();
    assert_eq!(password.encrypt(&KEY), Ok(()));
    let encrypted_password = password.get_password();
    assert_eq!(password.decrypt(&KEY), Ok(()));
    let decrypted_password = password.get_password();
    println!("encrypted_password: {}", encrypted_password);
    assert_ne!(encrypted_password, decrypted_password);
    assert_eq!(decrypted_password, "password!");
}

#[test]
fn test_is_encrypted_toggle() {
    assert!(Password::try_from("password").is_err());
    let mut password = Password::try_from("password!").unwrap();
    let _ = password.encrypt(&KEY);
    assert_eq!(password.is_encrypted(), true);
    let _ = password.decrypt(&KEY);
    assert_eq!(password.is_encrypted(), false);
}

#[test]
fn create_accepts_every_length_from_eight_to_256() {
    let mut raw = String::from("!");
    while raw.len() < 7 {
        raw.push('a');
    }
    assert_eq!(
        Password::try_from(raw.as_str()),
        Err(PasswordCreationError::TooShort)
    );
    raw.push('a');
    assert_eq!(raw.len(), 8);
    let password = Password::try_from(raw.as_str()).unwrap();
    assert!(!password.is_encrypted());
    assert_eq!(password.get_password(), raw);
    while raw.len() < 256 {
        raw.push('a');
    }
    let password = Password::try_from(raw.as_str()).unwrap();
    assert_eq!(password.len(), 256);
    raw.push('a');
    assert_eq!(
        Password::try_from(raw.as_str()),
        Err(PasswordCreationError::TooLong)
    );
}

#[test]
fn create_scenario_short_plain_and_special() {
    assert_eq!(
        Password::try_from("pass"),
        Err(PasswordCreationError::TooShort)
    );
    assert_eq!(
        Password::try_from("abcdefgh"),
        Err(PasswordCreationError::NoSpecialChars)
    );
    let password = Password::try_from("abcdefg!").unwrap();
    assert_eq!(password.get_password(), "abcdefg!");
    assert!(!password.is_encrypted());
}

#[test]
fn length_is_checked_before_characters() {
    assert_eq!(
        Password::try_from("abc"),
        Err(PasswordCreationError::TooShort)
    );
    assert_eq!(
        Password::try_from("!!!"),
        Err(PasswordCreationError::TooShort)
    );
    let long_plain = "a".repeat(300);
    assert_eq!(
        Password::try_from(long_plain.as_str()),
        Err(PasswordCreationError::TooLong)
    );
}

#[test]
fn length_counts_bytes_and_letters_beyond_ascii_are_special() {
    // Four characters of two bytes each make eight bytes.
    let password = Password::try_from("éééé").unwrap();
    assert_eq!(password.len(), 8);
    assert_eq!(
        Password::try_from("ééé"),
        Err(PasswordCreationError::TooShort)
    );
    assert!(Password::try_from("abcdefgé").is_ok());
    assert!(Password::try_from("abcdefg_").is_ok());
    assert!(Password::try_from("abcdefg ").is_ok());
    assert_eq!(
        Password::try_from("azAZ0189"),
        Err(PasswordCreationError::NoSpecialChars)
    );
}

#[test]
fn generate_never_passes_the_policy() {
    assert_eq!(
        Password::generate(26),
        Err(PasswordCreationError::NoSpecialChars)
    );
    assert_eq!(
        Password::generate(8),
        Err(PasswordCreationError::NoSpecialChars)
    );
    assert_eq!(
        Password::generate(256),
        Err(PasswordCreationError::NoSpecialChars)
    );
    assert_eq!(Password::generate(7), Err(PasswordCreationError::TooShort));
    assert_eq!(Password::generate(0), Err(PasswordCreationError::TooShort));
    assert_eq!(Password::generate(257), Err(PasswordCreationError::TooLong));
}

#[test]
fn new_with_generate_checks_the_input_first() {
    assert_eq!(
        Password::new("pass".into(), true),
        Err(PasswordCreationError::TooShort)
    );
    assert_eq!(
        Password::new("abcdefgh".into(), true),
        Err(PasswordCreationError::NoSpecialChars)
    );
    assert_eq!(
        Password::new("abcdefg!".into(), true),
        Err(PasswordCreationError::NoSpecialChars)
    );
}

#[test]
fn set_password_keeps_the_state() {
    let mut password = Password::try_from("Secret1!").unwrap();
    assert_eq!(
        password.set_password("short!".into()),
        Err(PasswordCreationError::TooShort)
    );
    assert_eq!(password.get_password(), "Secret1!");
    assert_eq!(password.set_password("Another2?".into()), Ok(()));
    assert_eq!(password.get_password(), "Another2?");
    assert!(!password.is_encrypted());

    password.encrypt(&KEY).unwrap();
    assert_eq!(password.set_password("Changed3#".into()), Ok(()));
    assert!(password.is_encrypted());
    assert_eq!(password.get_password(), "Changed3#");
}

#[test]
fn encrypt_with_nonce_matches_the_published_vector() {
    // AES-256-GCM with an all-zero key and nonce on sixteen zero bytes.
    let raw = "\0".repeat(16);
    let mut password = Password::try_from(raw.as_str()).unwrap();
    assert_eq!(password.encrypt_with_nonce(&[0u8; 32], &[0u8; 12]), Ok(()));
    assert!(password.is_encrypted());
    assert_eq!(
        password.get_password(),
        "000000000000000000000000\
         cea7403d4d606b6e074ec5d3baf39d18\
         d0d1c8a799996bf0265b98b5d48ab919"
    );
    assert_eq!(password.decrypt(&[0u8; 32]), Ok(()));
    assert_eq!(password.get_password(), raw);
}

#[test]
fn encrypted_value_is_hex_of_nonce_ciphertext_and_tag() {
    let nonce = [1u8, 2, 3, 4, 5, 6, 7, 8, 9, 10, 11, 12];
    let mut password = Password::try_from("Secret1!").unwrap();
    password.encrypt_with_nonce(&KEY, &nonce).unwrap();
    let value = password.get_password();
    assert_eq!(value, sealed_hex(&KEY, &nonce, b"Secret1!"));
    assert_eq!(value.len(), 2 * (12 + 8 + 16));
    assert!(value.starts_with("0102030405060708090a0b0c"));
    assert!(value
        .chars()
        .all(|c| c.is_ascii_digit() || ('a'..='f').contains(&c)));
}

#[test]
fn round_trip_restores_the_plaintext() {
    for raw in ["Secret1!", "pässwörd", "a b c d e f", "!!!!!!!!"] {
        let mut password = Password::try_from(raw).unwrap();
        assert_eq!(password.encrypt(&KEY), Ok(()));
        assert!(password.is_encrypted());
        assert_ne!(password.get_password(), raw);
        assert_eq!(password.decrypt(&KEY), Ok(()));
        assert!(!password.is_encrypted());
        assert_eq!(password.get_password(), raw);
    }
}

#[test]
fn two_encryptions_of_one_plaintext_differ() {
    let mut first = Password::try_from("Secret1!").unwrap();
    let mut second = Password::try_from("Secret1!").unwrap();
    first.encrypt(&KEY).unwrap();
    second.encrypt(&KEY).unwrap();
    assert_ne!(first.get_password(), second.get_password());
    assert_ne!(first.get_password(), "Secret1!");
    assert_ne!(second.get_password(), "Secret1!");
    first.decrypt(&KEY).unwrap();
    second.decrypt(&KEY).unwrap();
    assert_eq!(first, second);
}

#[test]
fn distinct_nonces_give_distinct_values() {
    let mut first = Password::try_from("Secret1!").unwrap();
    let mut second = Password::try_from("Secret1!").unwrap();
    first.encrypt_with_nonce(&KEY, &[0u8; 12]).unwrap();
    second.encrypt_with_nonce(&KEY, &[1u8; 12]).unwrap();
    assert_ne!(first.get_password(), second.get_password());
}

#[test]
fn encrypt_twice_is_refused() {
    let mut password = Password::try_from("Secret1!").unwrap();
    password.encrypt(&KEY).unwrap();
    let stored = password.get_password();
    assert_eq!(
        password.encrypt(&KEY),
        Err(PasswordCryptoError::AlreadyEncrypted)
    );
    assert_eq!(
        password.encrypt_with_nonce(&KEY, &[0u8; 12]),
        Err(PasswordCryptoError::AlreadyEncrypted)
    );
    assert_eq!(password.get_password(), stored);
    assert!(password.is_encrypted());
}

#[test]
fn decrypt_of_plaintext_is_refused() {
    let mut password = Password::try_from("Secret1!").unwrap();
    assert_eq!(
        password.decrypt(&KEY),
        Err(PasswordCryptoError::NotEncrypted)
    );
    assert_eq!(password.get_password(), "Secret1!");
    assert!(!password.is_encrypted());
}

#[test]
fn decrypt_under_another_key_fails() {
    let mut password = Password::try_from("Secret1!").unwrap();
    password.encrypt(&KEY).unwrap();
    let stored = password.get_password();
    assert_eq!(
        password.decrypt(&OTHER_KEY),
        Err(PasswordCryptoError::AuthenticationFailed)
    );
    assert_eq!(password.get_password(), stored);
    assert!(password.is_encrypted());
    assert_eq!(password.decrypt(&KEY), Ok(()));
    assert_eq!(password.get_password(), "Secret1!");
}

#[test]
fn decrypt_of_a_flipped_bit_fails() {
    let stored = sealed_hex(&KEY, &[9u8; 12], b"Secret1!");
    for at in [0usize, 23, 24, 40, stored.len() - 1] {
        let mut bytes = stored.clone().into_bytes();
        bytes[at] ^= 1;
        let flipped = String::from_utf8(bytes).unwrap();
        let mut password = Password::from_encrypted(flipped.clone());
        let r = password.decrypt(&KEY);
        assert!(
            r == Err(PasswordCryptoError::AuthenticationFailed)
                || r == Err(PasswordCryptoError::MalformedCiphertext)
        );
        assert_eq!(password.get_password(), flipped);
        assert!(password.is_encrypted());
    }
    // '0' with its lowest bit flipped is '1', still a digit.
    let mut bytes = sealed_hex(&KEY, &[0u8; 12], b"Secret1!").into_bytes();
    assert_eq!(bytes[0], b'0');
    bytes[0] ^= 1;
    let mut password = Password::from_encrypted(String::from_utf8(bytes).unwrap());
    assert_eq!(
        password.decrypt(&KEY),
        Err(PasswordCryptoError::AuthenticationFailed)
    );
    // '0' with another bit flipped is 'p', no digit at all.
    let mut bytes = sealed_hex(&KEY, &[0u8; 12], b"Secret1!").into_bytes();
    bytes[0] ^= 0x40;
    assert_eq!(bytes[0], b'p');
    let mut password = Password::from_encrypted(String::from_utf8(bytes).unwrap());
    assert_eq!(
        password.decrypt(&KEY),
        Err(PasswordCryptoError::MalformedCiphertext)
    );
}

#[test]
fn decrypt_of_what_is_not_hex_is_malformed() {
    for stored in ["not hex at all!", "abc", "zz", "0g", "é0"] {
        let mut password = Password::from_encrypted(stored.to_string());
        assert_eq!(
            password.decrypt(&KEY),
            Err(PasswordCryptoError::MalformedCiphertext)
        );
        assert_eq!(password.get_password(), stored);
        assert!(password.is_encrypted());
    }
}

#[test]
fn decrypt_of_less_than_a_nonce_is_malformed() {
    for stored in ["", "00", "0102030405060708090a0b"] {
        let mut password = Password::from_encrypted(stored.to_string());
        assert_eq!(
            password.decrypt(&KEY),
            Err(PasswordCryptoError::MalformedCiphertext)
        );
    }
    // A nonce alone, or a nonce and less than a tag, is well formed and not authentic.
    for stored in ["0102030405060708090a0b0c", "0102030405060708090a0b0c0d0e"] {
        let mut password = Password::from_encrypted(stored.to_string());
        assert_eq!(
            password.decrypt(&KEY),
            Err(PasswordCryptoError::AuthenticationFailed)
        );
    }
}

#[test]
fn decrypt_takes_hex_of_either_case() {
    let stored = sealed_hex(&KEY, &[0xabu8; 12], b"Secret1!");
    let mut upper = Password::from_encrypted(stored.to_uppercase());
    assert_eq!(upper.decrypt(&KEY), Ok(()));
    assert_eq!(upper.get_password(), "Secret1!");
    let mut lower = Password::from_encrypted(stored);
    assert_eq!(lower.decrypt(&KEY), Ok(()));
    assert_eq!(lower.get_password(), "Secret1!");
}

#[test]
fn decrypt_of_bytes_that_are_not_utf8_fails() {
    let stored = sealed_hex(&KEY, &[3u8; 12], &[0xff, 0xfe, 0xfd]);
    let mut password = Password::from_encrypted(stored.clone());
    assert_eq!(
        password.decrypt(&KEY),
        Err(PasswordCryptoError::InvalidUtf8)
    );
    assert_eq!(password.get_password(), stored);
    assert!(password.is_encrypted());
}

#[test]
fn decrypt_does_not_check_the_policy() {
    let stored = sealed_hex(&KEY, &[3u8; 12], b"abc");
    let mut password = Password::from_encrypted(stored);
    assert_eq!(password.decrypt(&KEY), Ok(()));
    assert_eq!(password.get_password(), "abc");
    assert!(!password.is_encrypted());
}

#[test]
fn clone_and_equality_go_by_value_and_state() {
    let password = Password::try_from("Secret1!").unwrap();
    let copy = password.clone();
    assert_eq!(password, copy);
    assert_ne!(password, Password::try_from("Secret2!").unwrap());
    assert_ne!(password, Password::from_encrypted("Secret1!".to_string()));
}
