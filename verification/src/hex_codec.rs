//! Hexadecimal text: what the encoding of a byte string is, which texts
//! decode, and the proof that decoding undoes encoding.

use vstd::prelude::*;
use vstd::utf8::*;

verus! {

/// The lower-case hexadecimal digit for `n`, where `0 <= n < 16`.
pub open spec fn hex_digit(n: int) -> char {
    if n < 10 {
        ('0' as int + n) as char
    } else {
        ('a' as int + n - 10) as char
    }
}

/// The hexadecimal text of `bytes`: two lower-case digits for each byte,
/// the high half first.
pub open spec fn hex_encode(bytes: Seq<u8>) -> Seq<char> {
    Seq::new(
        2 * bytes.len(),
        |i: int|
            if i % 2 == 0 {
                hex_digit(bytes[i / 2] as int / 16)
            } else {
                hex_digit(bytes[i / 2] as int % 16)
            },
    )
}

/// The number that the ASCII byte `b` stands for as a hexadecimal digit, of
/// either case; `None` where `b` is no such digit.
pub open spec fn hex_value(b: u8) -> Option<int> {
    if 0x30 <= b <= 0x39 {
        Some(b - 0x30)
    } else if 0x61 <= b <= 0x66 {
        Some(b - 0x61 + 10)
    } else if 0x41 <= b <= 0x46 {
        Some(b - 0x41 + 10)
    } else {
        None
    }
}

/// True when `text` is an even number of hexadecimal digits.
pub open spec fn is_hex_text(text: Seq<u8>) -> bool {
    &&& text.len() % 2 == 0
    &&& forall|i: int| 0 <= i < text.len() ==> (#[trigger] hex_value(text[i])) is Some
}

/// The bytes that the ASCII text `text` stands for; `None` unless `text` is
/// an even number of hexadecimal digits.
pub open spec fn hex_decode(text: Seq<u8>) -> Option<Seq<u8>> {
    if is_hex_text(text) {
        Some(
            Seq::new(
                text.len() / 2,
                |i: int| (16 * hex_value(text[2 * i])->0 + hex_value(text[2 * i + 1])->0) as u8,
            ),
        )
    } else {
        None
    }
}

/// `hex::FromHexError`, which says why a text did not decode.
#[verifier::external_type_specification]
#[verifier::external_body]
pub struct ExFromHexError(hex::FromHexError);

/// `hex::encode`. Its table is `0123456789abcdef`, and it writes for each
/// byte the digit of the high four bits and then that of the low four.
#[verifier::external_body]
pub(crate) fn encode(bytes: &[u8]) -> (text: String)
    ensures
        text@ == hex_encode(bytes@),
{
    hex::encode(bytes)
}

/// `hex::decode` on the bytes of a text. It fails on an odd length and on a
/// byte outside `0-9`, `a-f`, `A-F`; otherwise each pair of digits gives one
/// byte, the first digit being the high half.
#[verifier::external_body]
pub(crate) fn decode(text: &[u8]) -> (r: Result<Vec<u8>, hex::FromHexError>)
    ensures
        match r {
            Ok(bytes) => hex_decode(text@) == Some(bytes@),
            Err(_) => hex_decode(text@) is None,
        },
{
    hex::decode(text)
}

/// A hexadecimal text is ASCII, so its UTF-8 encoding has one byte for each
/// digit.
pub proof fn lemma_hex_encode_is_ascii(bytes: Seq<u8>)
    ensures
        is_ascii_chars(hex_encode(bytes)),
        encode_utf8(hex_encode(bytes)).len() == 2 * bytes.len(),
        forall|i: int|
            0 <= i < 2 * bytes.len() ==> #[trigger] encode_utf8(hex_encode(bytes))[i]
                == hex_encode(bytes)[i] as u8,
{
    let text = hex_encode(bytes);
    assert forall|i: int| 0 <= i < text.len() implies '\0' <= #[trigger] text[i] <= '\u{7f}' by {
        let b = bytes[i / 2] as int;
        assert(0 <= b / 16 < 16 && 0 <= b % 16 < 16);
    }
    is_ascii_chars_encode_utf8(text);
}

/// Decoding the text that encoding wrote gives the bytes back.
pub proof fn lemma_hex_decode_encode(bytes: Seq<u8>)
    ensures
        hex_decode(encode_utf8(hex_encode(bytes))) == Some(bytes),
{
    let text = hex_encode(bytes);
    let raw = encode_utf8(text);
    lemma_hex_encode_is_ascii(bytes);
    assert forall|i: int| 0 <= i < raw.len() implies (#[trigger] hex_value(raw[i])) is Some by {
        let b = bytes[i / 2] as int;
        assert(0 <= b / 16 < 16 && 0 <= b % 16 < 16);
        assert(raw[i] == text[i] as u8);
    }
    assert(is_hex_text(raw));
    let decoded = hex_decode(raw)->0;
    assert(decoded.len() == bytes.len());
    assert forall|k: int| 0 <= k < bytes.len() implies decoded[k] == bytes[k] by {
        let b = bytes[k] as int;
        assert(0 <= b / 16 < 16 && 0 <= b % 16 < 16);
        assert((2 * k) / 2 == k && (2 * k + 1) / 2 == k);
        assert((2 * k) % 2 == 0 && (2 * k + 1) % 2 == 1);
        assert(raw[2 * k] == text[2 * k] as u8);
        assert(raw[2 * k + 1] == text[2 * k + 1] as u8);
        assert(hex_value(raw[2 * k]) == Some(b / 16));
        assert(hex_value(raw[2 * k + 1]) == Some(b % 16));
        assert(16 * (b / 16) + b % 16 == b);
    }
    assert(decoded =~= bytes);
}

} // verus!
