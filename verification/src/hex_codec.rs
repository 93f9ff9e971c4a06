//! Hexadecimal text of byte strings, through the `hex` crate.

use vstd::prelude::*;
use vstd::utf8::*;
use crate::text::hex_digit_lower;

verus! {

/// Why a text is not the hexadecimal form of a byte string.
#[derive(Clone, Copy, Debug, PartialEq, Eq, Structural)]
pub enum HexError {
    /// The byte at `index` is not a hexadecimal digit; `c` is that byte read as a character.
    InvalidHexCharacter { c: char, index: usize },
    /// The text has an odd number of bytes.
    OddLength,
    /// The text does not fit the fixed size that was asked for.
    InvalidStringLength,
}

/// Lower-case hexadecimal text of `b`, two digits per byte, high nibble first.
pub open spec fn hex_text(b: Seq<u8>) -> Seq<char> {
    Seq::new(
        2 * b.len(),
        |i: int|
            if i % 2 == 0 {
                hex_digit_lower((b[i / 2] / 16) as nat)
            } else {
                hex_digit_lower((b[i / 2] % 16) as nat)
            },
    )
}

/// `0-9`, `a-f` or `A-F`.
pub open spec fn is_hex_byte(c: u8) -> bool {
    (48 <= c <= 57) || (97 <= c <= 102) || (65 <= c <= 70)
}

/// Value of the hexadecimal digit `c`.
pub open spec fn hex_value(c: u8) -> int {
    if 48 <= c <= 57 {
        c - 48
    } else if 97 <= c <= 102 {
        c - 87
    } else {
        c - 55
    }
}

/// Index of the first byte of `h` at or after `i` that is not a hexadecimal
/// digit, or `h.len()` when there is none.
pub open spec fn first_non_hex(h: Seq<u8>, i: int) -> int
    decreases h.len() - i,
{
    if i >= h.len() || i < 0 {
        h.len() as int
    } else if !is_hex_byte(h[i]) {
        i
    } else {
        first_non_hex(h, i + 1)
    }
}

/// Decoding the hexadecimal text with bytes `h`: an odd length is refused
/// first, then the first byte that is not a digit; otherwise each pair of
/// digits gives one byte, high nibble first.
pub open spec fn hex_decoded(h: Seq<u8>) -> Result<Seq<u8>, HexError> {
    if h.len() % 2 != 0 {
        Err(HexError::OddLength)
    } else if first_non_hex(h, 0) < h.len() {
        let i = first_non_hex(h, 0);
        Err(HexError::InvalidHexCharacter { c: h[i] as char, index: i as usize })
    } else {
        Ok(Seq::new((h.len() / 2) as nat, |k: int| (hex_value(h[2 * k]) * 16 + hex_value(h[2 * k + 1])) as u8))
    }
}

/// `hex::encode`: the contract claims that the result is the lower-case
/// hexadecimal text of `bytes`, two digits per byte, high nibble first (the
/// crate writes each byte as `table[byte >> 4]` then `table[byte & 0x0F]`
/// with the table `0123456789abcdef`).
#[verifier::external_body]
pub(crate) fn hex_encode(bytes: &[u8]) -> (res: String)
    ensures
        res@ == hex_text(bytes@),
{
    hex::encode(bytes)
}

/// `hex::decode` on the UTF-8 bytes of `s`: the contract claims what the
/// crate's `FromHex for Vec<u8>` does: `OddLength` for an odd number of
/// bytes, else `InvalidHexCharacter` for the first byte that is not
/// `0-9a-fA-F` (the byte as a `char`, and its index), else the bytes that the
/// digit pairs give. The outside error is carried over variant by variant.
#[verifier::external_body]
pub(crate) fn hex_decode(s: &str) -> (r: Result<Vec<u8>, HexError>)
    ensures
        match r {
            Ok(v) => hex_decoded(encode_utf8(s@)) == Ok::<Seq<u8>, HexError>(v@),
            Err(e) => hex_decoded(encode_utf8(s@)) == Err::<Seq<u8>, HexError>(e),
        },
{
    match hex::decode(s) {
        Ok(v) => Ok(v),
        Err(hex::FromHexError::InvalidHexCharacter { c, index }) => Err(HexError::InvalidHexCharacter { c, index }),
        Err(hex::FromHexError::OddLength) => Err(HexError::OddLength),
        Err(hex::FromHexError::InvalidStringLength) => Err(HexError::InvalidStringLength),
    }
}

/// Hexadecimal text is ASCII.
pub proof fn lemma_hex_text_ascii(b: Seq<u8>)
    ensures
        is_ascii_chars(hex_text(b)),
        encode_utf8(hex_text(b)).len() == 2 * b.len(),
        forall|i: int| 0 <= i < 2 * b.len() ==> #[trigger] encode_utf8(hex_text(b))[i] == hex_text(b)[i] as u8,
{
    let t = hex_text(b);
    assert forall|i: int| 0 <= i < t.len() implies '\0' <= #[trigger] t[i] <= '\u{7f}' by {
        let d = if i % 2 == 0 { (b[i / 2] / 16) as nat } else { (b[i / 2] % 16) as nat };
        assert(d < 16);
    }
    is_ascii_chars_encode_utf8(t);
}

proof fn lemma_all_hex(h: Seq<u8>, i: int)
    requires
        0 <= i <= h.len(),
        forall|k: int| i <= k < h.len() ==> is_hex_byte(#[trigger] h[k]),
    ensures
        first_non_hex(h, i) == h.len(),
    decreases h.len() - i,
{
    if i < h.len() {
        lemma_all_hex(h, i + 1);
    }
}

/// Decoding gives back what encoding wrote.
pub proof fn lemma_hex_round_trip(b: Seq<u8>)
    ensures
        hex_decoded(encode_utf8(hex_text(b))) == Ok::<Seq<u8>, HexError>(b),
{
    lemma_hex_text_ascii(b);
    let t = hex_text(b);
    let h = encode_utf8(t);
    assert forall|k: int| 0 <= k < h.len() implies is_hex_byte(#[trigger] h[k]) by {
        let d = if k % 2 == 0 { (b[k / 2] / 16) as nat } else { (b[k / 2] % 16) as nat };
        assert(d < 16);
        assert(h[k] == t[k] as u8);
    }
    lemma_all_hex(h, 0);
    let d = Seq::new((h.len() / 2) as nat, |k: int| (hex_value(h[2 * k]) * 16 + hex_value(h[2 * k + 1])) as u8);
    assert forall|k: int| 0 <= k < b.len() implies #[trigger] d[k] == b[k] by {
        assert(h[2 * k] == t[2 * k] as u8);
        assert(h[2 * k + 1] == t[2 * k + 1] as u8);
        assert((2 * k) % 2 == 0);
        assert((2 * k + 1) % 2 == 1);
        assert((2 * k) / 2 == k);
        assert((2 * k + 1) / 2 == k);
        assert(hex_value(h[2 * k]) == b[k] / 16);
        assert(hex_value(h[2 * k + 1]) == b[k] % 16);
    }
    assert(d =~= b);
}

/// ASCII upper case of a byte: `a`-`z` become `A`-`Z`, every other byte stays.
pub open spec fn ascii_upper(c: u8) -> u8 {
    if 97 <= c <= 122 {
        (c - 32) as u8
    } else {
        c
    }
}

/// `h` with its ASCII letters in upper case.
pub open spec fn upper_bytes(h: Seq<u8>) -> Seq<u8> {
    Seq::new(h.len(), |i: int| ascii_upper(h[i]))
}

/// Hex decoding ignores letter case: text made of hexadecimal digits decodes
/// to the same bytes, or fails in the same way, once its letters are put in
/// upper case.
pub proof fn law_hex_decoding_ignores_case(h: Seq<u8>)
    requires
        forall|i: int| 0 <= i < h.len() ==> is_hex_byte(#[trigger] h[i]),
    ensures
        hex_decoded(upper_bytes(h)) == hex_decoded(h),
{
    let u = upper_bytes(h);
    assert forall|i: int| 0 <= i < u.len() implies is_hex_byte(#[trigger] u[i]) && hex_value(u[i]) == hex_value(h[i]) by {
        assert(u[i] == ascii_upper(h[i]));
    }
    lemma_all_hex(h, 0);
    lemma_all_hex(u, 0);
    if h.len() % 2 == 0 {
        let dh = Seq::new((h.len() / 2) as nat, |k: int| (hex_value(h[2 * k]) * 16 + hex_value(h[2 * k + 1])) as u8);
        let du = Seq::new((u.len() / 2) as nat, |k: int| (hex_value(u[2 * k]) * 16 + hex_value(u[2 * k + 1])) as u8);
        assert forall|k: int| 0 <= k < dh.len() implies dh[k] == du[k] by {
            assert(hex_value(u[2 * k]) == hex_value(h[2 * k]));
            assert(hex_value(u[2 * k + 1]) == hex_value(h[2 * k + 1]));
        }
        assert(dh =~= du);
    }
}

/// Decoding succeeds exactly on text of even length made only of
/// hexadecimal digits, and then gives one byte for each pair of digits.
pub proof fn law_hex_decoded_ok_exactly(h: Seq<u8>)
    ensures
        (hex_decoded(h) is Ok) <==> (h.len() % 2 == 0 && forall|k: int| 0 <= k < h.len() ==> is_hex_byte(#[trigger] h[k])),
        hex_decoded(h) matches Ok(b) ==> b.len() * 2 == h.len(),
{
    lemma_first_non_hex_bound(h, 0);
}

proof fn lemma_first_non_hex_bound(h: Seq<u8>, i: int)
    requires
        0 <= i <= h.len(),
    ensures
        i <= first_non_hex(h, i) <= h.len(),
        first_non_hex(h, i) == h.len() <==> forall|k: int| i <= k < h.len() ==> is_hex_byte(#[trigger] h[k]),
        first_non_hex(h, i) < h.len() ==> !is_hex_byte(h[first_non_hex(h, i)]),
    decreases h.len() - i,
{
    if i < h.len() {
        lemma_first_non_hex_bound(h, i + 1);
    }
}

} // verus!
