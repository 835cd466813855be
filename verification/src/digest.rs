//! Content digests.

use sha2::Digest;
use vstd::prelude::*;

use crate::json;

verus! {

/// The SHA-256 digest of a byte string.
pub uninterp spec fn sha256_of(bytes: Seq<u8>) -> Seq<u8>;

/// Calls `sha2::Sha256::digest`. The result is named; it has 32 bytes.
#[verifier::external_body]
pub(crate) fn sha256(bytes: &[u8]) -> (digest: Vec<u8>)
    ensures
        digest@ == sha256_of(bytes@),
        digest@.len() == 32,
{
    sha2::Sha256::digest(bytes).to_vec()
}

/// The lower-case hexadecimal spelling of a byte string.
pub open spec fn hex_of(bytes: Seq<u8>) -> Seq<char> {
    Seq::new(
        2 * bytes.len(),
        |i: int|
            {
                let byte = bytes[i / 2] as int;
                if i % 2 == 0 {
                    json::hex_digit(byte / 16) as char
                } else {
                    json::hex_digit(byte % 16) as char
                }
            },
    )
}

/// The hexadecimal SHA-256 digest of a byte string.
pub open spec fn hex_digest(bytes: Seq<u8>) -> Seq<char> {
    hex_of(sha256_of(bytes))
}

fn hex_digit_text(value: u8) -> (digit: &'static str)
    requires
        value < 16,
    ensures
        digit@ == seq![json::hex_digit(value as int) as char],
{
    let digit: &'static str = match value {
        0 => "0",
        1 => "1",
        2 => "2",
        3 => "3",
        4 => "4",
        5 => "5",
        6 => "6",
        7 => "7",
        8 => "8",
        9 => "9",
        10 => "a",
        11 => "b",
        12 => "c",
        13 => "d",
        14 => "e",
        _ => "f",
    };
    proof {
        reveal_strlit("0");
        reveal_strlit("1");
        reveal_strlit("2");
        reveal_strlit("3");
        reveal_strlit("4");
        reveal_strlit("5");
        reveal_strlit("6");
        reveal_strlit("7");
        reveal_strlit("8");
        reveal_strlit("9");
        reveal_strlit("a");
        reveal_strlit("b");
        reveal_strlit("c");
        reveal_strlit("d");
        reveal_strlit("e");
        reveal_strlit("f");
        assert(digit@ =~= seq![json::hex_digit(value as int) as char]);
    }
    digit
}

/// Spells a byte string in lower-case hexadecimal.
pub fn hex_text(bytes: &[u8]) -> (text: String)
    ensures
        text@ == hex_of(bytes@),
{
    let mut text: String = String::new();
    for i in 0..bytes.len()
        invariant
            text@ == hex_of(bytes@.take(i as int)),
    {
        let byte: u8 = bytes[i];
        let ghost before = text@;
        text.append(hex_digit_text(byte / 16));
        text.append(hex_digit_text(byte % 16));
        assert(text@ =~= hex_of(bytes@.take(i + 1)));
    }
    assert(bytes@.take(bytes@.len() as int) =~= bytes@);
    text
}

/// The hexadecimal SHA-256 digest of a byte string: the address under which
/// content is kept.
pub fn sha256_hex(bytes: &[u8]) -> (text: String)
    ensures
        text@ == hex_digest(bytes@),
        text@.len() == 64,
{
    let digest: Vec<u8> = sha256(bytes);
    hex_text(digest.as_slice())
}

/// Sixteen digits spell the values of half a byte: `0` to `9`, then `a` to `f`.
pub open spec fn digit_spells(digit: char, value: int) -> bool {
    if value <= 9 {
        digit as int == '0' as int + value
    } else {
        digit as int == 'a' as int + (value - 10)
    }
}

/// A text spells bytes with two digits for each, the higher half first.
pub proof fn law_hex_spells_bytes(bytes: Seq<u8>, i: int)
    requires
        0 <= i < bytes.len(),
    ensures
        hex_of(bytes).len() == 2 * bytes.len(),
        exists|high: int, low: int|
            bytes[i] == 16 * high + low && 0 <= low < 16 && #[trigger] digit_spells(
                hex_of(bytes)[2 * i],
                high,
            ) && #[trigger] digit_spells(hex_of(bytes)[2 * i + 1], low),
{
    let high = bytes[i] as int / 16;
    let low = bytes[i] as int % 16;
    assert((2 * i) / 2 == i && (2 * i) % 2 == 0);
    assert((2 * i + 1) / 2 == i && (2 * i + 1) % 2 == 1);
    assert(digit_spells(hex_of(bytes)[2 * i], high));
    assert(digit_spells(hex_of(bytes)[2 * i + 1], low));
}

} // verus!
