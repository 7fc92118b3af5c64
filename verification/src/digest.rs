//! SHA-1 digests and their hexadecimal rendering.

use vstd::prelude::*;
use vstd::utf8::encode_utf8;

verus! {

/// The SHA-1 digest of a byte sequence.
pub uninterp spec fn sha1(data: Seq<u8>) -> [u8; 20];

/// Computes the SHA-1 digest of `data` with `sha1::Sha1::digest`: the result
/// is the 20-byte digest that this module calls `sha1(data@)`.
#[verifier::external_body]
pub(crate) fn sha1_digest(data: &[u8]) -> (r: [u8; 20])
    ensures
        r == sha1(data@),
{
    <sha1::Sha1 as sha1::Digest>::digest(data).into()
}

/// The lowercase ASCII digit of a nibble.
pub open spec fn hex_digit(n: int) -> u8 {
    if n < 10 {
        (48 + n) as u8
    } else {
        (87 + n) as u8
    }
}

/// The lowercase hexadecimal rendering of `data`, two digits per byte.
pub open spec fn hex_encode(data: Seq<u8>) -> Seq<u8> {
    Seq::new(
        2 * data.len(),
        |i: int|
            if i % 2 == 0 {
                hex_digit(data[i / 2] as int / 16)
            } else {
                hex_digit(data[i / 2] as int % 16)
            },
    )
}

/// Whether `b` is one of `0-9a-f`.
pub open spec fn is_lower_hex(b: u8) -> bool {
    (48 <= b <= 57) || (97 <= b <= 102)
}

/// Whether `b` is one of `0-9a-fA-F`.
pub open spec fn is_hex_digit(b: u8) -> bool {
    is_lower_hex(b) || (65 <= b <= 70)
}

/// The value of a hexadecimal digit.
pub open spec fn hex_value(b: u8) -> int {
    if 48 <= b <= 57 {
        b - 48
    } else if 97 <= b <= 102 {
        b - 87
    } else {
        b - 55
    }
}

/// Whether every byte of `s` is a lowercase hexadecimal digit.
pub open spec fn all_lower_hex(s: Seq<u8>) -> bool {
    forall|i: int| 0 <= i < s.len() ==> is_lower_hex(#[trigger] s[i])
}

/// Whether `s` is an even number of hexadecimal digits.
pub open spec fn is_hex(s: Seq<u8>) -> bool {
    s.len() % 2 == 0 && forall|i: int| 0 <= i < s.len() ==> is_hex_digit(#[trigger] s[i])
}

/// The bytes that the hexadecimal text `s` stands for, if it is such a text.
pub open spec fn hex_decode(s: Seq<u8>) -> Option<Seq<u8>> {
    if is_hex(s) {
        Some(
            Seq::new(
                (s.len() / 2) as nat,
                |i: int| (hex_value(s[2 * i]) * 16 + hex_value(s[2 * i + 1])) as u8,
            ),
        )
    } else {
        None
    }
}

/// Renders `data` with `hex::encode`: the bytes of the resulting string are
/// the lowercase hexadecimal digits of `data`, high nibble first.
#[verifier::external_body]
pub(crate) fn hex_string(data: &[u8]) -> (r: String)
    ensures
        encode_utf8(r@) == hex_encode(data@),
{
    hex::encode(data)
}

/// Reads hexadecimal text with `hex::decode`: the call succeeds exactly on
/// an even number of digits `0-9a-fA-F`, and then returns one byte per pair
/// of digits, high nibble first.
#[verifier::external_body]
pub(crate) fn hex_bytes(text: &[u8]) -> (r: Option<Vec<u8>>)
    ensures
        r is Some <==> is_hex(text@),
        r matches Some(v) ==> Some(v@) == hex_decode(text@),
{
    hex::decode(text).ok()
}

/// The hexadecimal rendering holds only lowercase digits.
pub proof fn lemma_hex_encode_lower(data: Seq<u8>)
    ensures
        hex_encode(data).len() == 2 * data.len(),
        all_lower_hex(hex_encode(data)),
{
}

/// Decoding the rendering of `data` gives `data` back.
pub proof fn lemma_hex_round_trip(data: Seq<u8>)
    ensures
        hex_decode(hex_encode(data)) == Some(data),
{
    let h = hex_encode(data);
    lemma_hex_encode_lower(data);
    assert(is_hex(h));
    let d = hex_decode(h)->0;
    assert(d.len() == data.len());
    assert forall|i: int| 0 <= i < data.len() implies d[i] == data[i] by {
        assert(h[2 * i] == hex_digit(data[i] as int / 16));
        assert(h[2 * i + 1] == hex_digit(data[i] as int % 16));
    }
    assert(d =~= data);
}

} // verus!
