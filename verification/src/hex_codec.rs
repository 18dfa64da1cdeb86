//! Hexadecimal text.

use crate::text::{append_str, append_text, chars_of, decimal, to_decimal};
use vstd::prelude::*;
use vstd::utf8::encode_utf8;

verus! {

/// The value of a hexadecimal digit, upper or lower case.
pub open spec fn hex_value(b: u8) -> Option<nat> {
    if 48 <= b <= 57 {
        Some((b - 48) as nat)
    } else if 97 <= b <= 102 {
        Some((b - 87) as nat)
    } else if 65 <= b <= 70 {
        Some((b - 55) as nat)
    } else {
        None
    }
}

/// The lower-case hexadecimal digit of a value.
pub open spec fn hex_digit(v: nat) -> char {
    if v < 10 {
        (48 + v) as char
    } else {
        (87 + v) as char
    }
}

/// Why a text is not hexadecimal.
#[derive(Clone, Copy, Debug, PartialEq, Eq, Structural)]
pub enum HexFault {
    /// A character is not a hexadecimal digit.
    InvalidHexCharacter { c: char, index: usize },
    /// The number of digits is odd.
    OddLength,
    /// The number of digits is not the one that is needed.
    InvalidStringLength,
}

/// Where the first byte stands that is not a hexadecimal digit, or the length.
pub open spec fn first_bad(b: Seq<u8>) -> nat
    decreases b.len(),
{
    if b.len() == 0 || hex_value(b[0]) is None {
        0
    } else {
        1 + first_bad(b.skip(1))
    }
}

/// The bytes that hexadecimal digits spell, two digits each, or why they spell
/// none.
pub open spec fn hex_decoded(b: Seq<u8>) -> Result<Seq<u8>, HexFault> {
    if b.len() % 2 != 0 {
        Err(HexFault::OddLength)
    } else if first_bad(b) < b.len() {
        Err(
            HexFault::InvalidHexCharacter {
                c: b[first_bad(b) as int] as char,
                index: first_bad(b) as usize,
            },
        )
    } else {
        Ok(
            Seq::new(
                b.len() / 2,
                |i: int| (16 * hex_value(b[2 * i])->0 + hex_value(b[2 * i + 1])->0) as u8,
            ),
        )
    }
}

/// The lower-case hexadecimal digits of bytes, two digits each.
pub open spec fn hex_encoded(b: Seq<u8>) -> Seq<char> {
    Seq::new(
        2 * b.len(),
        |i: int|
            if i % 2 == 0 {
                hex_digit((b[i / 2] / 16) as nat)
            } else {
                hex_digit((b[i / 2] % 16) as nat)
            },
    )
}

/// `hex::decode` on the UTF-8 bytes of a string: upper and lower case digits
/// are taken, an odd length is reported first, and then the first byte that
/// is no digit, with its place.
#[verifier::external_body]
fn hex_crate_decode(s: &str) -> (decoded: Result<Vec<u8>, HexFault>)
    ensures
        match decoded {
            Ok(bytes) => hex_decoded(encode_utf8(s@)) == Ok::<Seq<u8>, HexFault>(bytes@),
            Err(e) => hex_decoded(encode_utf8(s@)) == Err::<Seq<u8>, HexFault>(e),
        },
{
    hex::decode(s).map_err(
        |e|
            match e {
                hex::FromHexError::InvalidHexCharacter { c, index } => {
                    HexFault::InvalidHexCharacter { c, index }
                },
                hex::FromHexError::OddLength => HexFault::OddLength,
                hex::FromHexError::InvalidStringLength => HexFault::InvalidStringLength,
            },
    )
}

/// `hex::encode`: two lower-case digits for each byte.
#[verifier::external_body]
fn hex_crate_encode(bytes: &[u8]) -> (s: String)
    ensures
        s@ == hex_encoded(bytes@),
{
    hex::encode(bytes)
}

/// How a character stands in a message: quoted and escaped.
pub uninterp spec fn quoted(c: char) -> Seq<char>;

/// The `Debug` rendering of a `char` by std, named [`quoted`] of the
/// character.
#[verifier::external_body]
fn std_char_debug(c: char) -> (s: String)
    ensures
        s@ == quoted(c),
{
    format!("{:?}", c)
}

/// Decodes a hex string into raw bytes.
pub fn decode(s: &str) -> (decoded: Result<Vec<u8>, HexFault>)
    ensures
        match decoded {
            Ok(bytes) => hex_decoded(encode_utf8(s@)) == Ok::<Seq<u8>, HexFault>(bytes@),
            Err(e) => hex_decoded(encode_utf8(s@)) == Err::<Seq<u8>, HexFault>(e),
        },
{
    hex_crate_decode(s)
}

/// Encodes bytes as a lower-case hex string.
pub fn encode(bytes: &[u8]) -> (s: String)
    ensures
        s@ == hex_encoded(bytes@),
{
    hex_crate_encode(bytes)
}

/// What a hexadecimal fault is called.
pub open spec fn hex_fault_text(e: HexFault) -> Seq<char> {
    match e {
        HexFault::InvalidHexCharacter { c, index } => "Invalid character "@ + quoted(c)
            + " at position "@ + decimal(index as nat),
        HexFault::OddLength => "Odd number of digits"@,
        HexFault::InvalidStringLength => "Invalid string length"@,
    }
}

/// What a hexadecimal fault is called.
pub fn hex_fault_name(e: &HexFault) -> (text: Vec<char>)
    ensures
        text@ == hex_fault_text(*e),
{
    match e {
        HexFault::InvalidHexCharacter { c, index } => {
            let mut out: Vec<char> = chars_of("Invalid character ");
            append_str(&mut out, std_char_debug(*c).as_str());
            append_str(&mut out, " at position ");
            append_text(&mut out, &to_decimal(*index as u128));
            out
        },
        HexFault::OddLength => chars_of("Odd number of digits"),
        HexFault::InvalidStringLength => chars_of("Invalid string length"),
    }
}

/// The first byte that is no digit is the one that has none before it.
proof fn lemma_first_bad(b: Seq<u8>, at: nat)
    requires
        at <= b.len(),
        forall|k: int| 0 <= k < at ==> hex_value(b[k]) is Some,
        at < b.len() ==> hex_value(b[at as int]) is None,
    ensures
        first_bad(b) == at,
    decreases at,
{
    if at > 0 {
        lemma_first_bad(b.skip(1), (at - 1) as nat);
    }
}

/// **Hex round-trips.** Decoding the encoding of bytes gives them back.
pub proof fn lemma_hex_roundtrip(bytes: Seq<u8>)
    ensures
        hex_decoded(encode_utf8(hex_encoded(bytes))) == Ok::<Seq<u8>, HexFault>(bytes),
{
    let s = hex_encoded(bytes);
    assert(vstd::utf8::is_ascii_chars(s));
    vstd::utf8::is_ascii_chars_encode_utf8(s);
    let b = encode_utf8(s);
    assert(b =~= Seq::new(s.len(), |i: int| s[i] as u8));
    assert forall|k: int| 0 <= k < b.len() implies hex_value(b[k]) == Some(
        if k % 2 == 0 {
            (bytes[k / 2] / 16) as nat
        } else {
            (bytes[k / 2] % 16) as nat
        },
    ) by {
        assert(b[k] == s[k] as u8);
    }
    lemma_first_bad(b, b.len());
    let got = hex_decoded(b)->Ok_0;
    assert(got =~= bytes) by {
        assert forall|i: int| 0 <= i < bytes.len() implies got[i] == bytes[i] by {
            assert(hex_value(b[2 * i]) == Some((bytes[i] / 16) as nat));
            assert(hex_value(b[2 * i + 1]) == Some((bytes[i] % 16) as nat));
        }
    }
}

} // verus!
