//! Hexadecimal text and SHA-256 digests, by way of the `hex` and `ring` crates.
use vstd::prelude::*;
use vstd::string::StringSliceAdditionalSpecFns;

verus! {

/// `hex::FromHexError`, the reason a string is not hexadecimal.
#[verifier::external_type_specification]
#[verifier::external_body]
pub struct ExFromHexError(hex::FromHexError);

/// The lower-case hexadecimal digit for `n < 16`.
pub open spec fn lower_digit(n: u8) -> char {
    if n < 10 {
        (n + 48) as char
    } else {
        (n + 87) as char
    }
}

/// The upper-case hexadecimal digit for `n < 16`.
pub open spec fn upper_digit(n: u8) -> char {
    if n < 10 {
        (n + 48) as char
    } else {
        (n + 55) as char
    }
}

/// Each byte as two lower-case hexadecimal digits, high nibble first.
pub open spec fn hex_lower(b: Seq<u8>) -> Seq<char> {
    Seq::new(
        2 * b.len(),
        |i: int|
            if i % 2 == 0 {
                lower_digit(b[i / 2] / 16)
            } else {
                lower_digit(b[i / 2] % 16)
            },
    )
}

/// Each byte as two upper-case hexadecimal digits, high nibble first.
pub open spec fn hex_upper(b: Seq<u8>) -> Seq<char> {
    Seq::new(
        2 * b.len(),
        |i: int|
            if i % 2 == 0 {
                upper_digit(b[i / 2] / 16)
            } else {
                upper_digit(b[i / 2] % 16)
            },
    )
}

/// The value of an ASCII hexadecimal digit of either case.
pub open spec fn hex_byte_value(c: u8) -> Option<u8> {
    if 0x30 <= c <= 0x39 {
        Some((c - 0x30) as u8)
    } else if 0x41 <= c <= 0x46 {
        Some((c - 0x41 + 10) as u8)
    } else if 0x61 <= c <= 0x66 {
        Some((c - 0x61 + 10) as u8)
    } else {
        None
    }
}

/// Hexadecimal text (either case, an even number of digits) decoded to bytes.
pub open spec fn hex_decoded(t: Seq<u8>) -> Option<Seq<u8>> {
    if t.len() % 2 == 0 && forall|i: int| 0 <= i < t.len() ==> #[trigger] hex_byte_value(t[i]) is Some {
        Some(
            Seq::new(
                t.len() / 2,
                |i: int|
                    (hex_byte_value(t[2 * i])->0 * 16 + hex_byte_value(t[2 * i + 1])->0) as u8,
            ),
        )
    } else {
        None
    }
}

/// The SHA-256 digest of `data`.
pub uninterp spec fn sha256(data: Seq<u8>) -> Seq<u8>;

/// `hex::encode`: two lower-case digits per byte.
#[verifier::external_body]
pub(crate) fn hex_encode(bytes: &[u8]) -> (s: String)
    ensures
        s@ == hex_lower(bytes@),
{
    hex::encode(bytes)
}

/// `hex::encode_upper`: two upper-case digits per byte.
#[verifier::external_body]
pub(crate) fn hex_encode_upper(bytes: &[u8]) -> (s: String)
    ensures
        s@ == hex_upper(bytes@),
{
    hex::encode_upper(bytes)
}

/// `hex::decode` of the UTF-8 bytes of `text`: fails on an odd length or a
/// character that is not a hexadecimal digit, else gives one byte per pair of digits.
#[verifier::external_body]
pub(crate) fn hex_decode(text: &str) -> (r: Result<Vec<u8>, hex::FromHexError>)
    ensures
        r is Ok <==> hex_decoded(text.spec_bytes()) is Some,
        r matches Ok(v) ==> v@ == hex_decoded(text.spec_bytes())->0,
{
    hex::decode(text)
}

/// `ring::digest::digest` with `SHA256`: the 32-byte digest of `data`. ring refuses
/// (and panics on) input whose bit length overflows 64 bits.
#[verifier::external_body]
pub(crate) fn sha256_digest(data: &[u8]) -> (d: Vec<u8>)
    requires
        data@.len() < 0x2000_0000_0000_0000,
    ensures
        d@ == sha256(data@),
        d@.len() == 32,
{
    ring::digest::digest(&ring::digest::SHA256, data).as_ref().to_vec()
}

} // verus!
