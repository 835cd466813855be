//! JSON spellings that enter a fingerprint.

use vstd::prelude::*;

use crate::text;
use crate::text::decimal_text;
use crate::wire::put_bytes;

verus! {

/// A lower-case hexadecimal digit.
pub open spec fn hex_digit(value: int) -> u8 {
    if value < 10 {
        (0x30 + value) as u8
    } else {
        (0x57 + value) as u8
    }
}

/// One byte of a text inside a JSON string: quotes, backslashes and control
/// characters are escaped, everything else stands for itself.
pub open spec fn escaped_byte(byte: u8) -> Seq<u8> {
    if byte == 0x22 || byte == 0x5c {
        seq![0x5cu8, byte]
    } else if byte == 0x08 {
        seq![0x5cu8, 0x62u8]
    } else if byte == 0x09 {
        seq![0x5cu8, 0x74u8]
    } else if byte == 0x0a {
        seq![0x5cu8, 0x6eu8]
    } else if byte == 0x0c {
        seq![0x5cu8, 0x66u8]
    } else if byte == 0x0d {
        seq![0x5cu8, 0x72u8]
    } else if byte < 0x20 {
        seq![0x5cu8, 0x75u8, 0x30u8, 0x30u8, hex_digit(byte as int / 16), hex_digit(byte as int % 16)]
    } else {
        seq![byte]
    }
}

/// The first `count` bytes of a text inside a JSON string.
pub open spec fn escaped(bytes: Seq<u8>, count: int) -> Seq<u8>
    decreases count,
{
    if count <= 0 {
        Seq::empty()
    } else {
        escaped(bytes, count - 1) + escaped_byte(bytes[count - 1])
    }
}

/// A text as a JSON string.
pub open spec fn string_of(value: Seq<char>) -> Seq<u8> {
    let bytes = text::utf8(value);
    seq![0x22u8] + escaped(bytes, bytes.len() as int) + seq![0x22u8]
}

/// Calls `serde_json::to_vec` on a text. It writes the text between quotes,
/// with quotes, backslashes and control characters escaped and every other
/// byte as it is; writing to memory does not fail.
#[verifier::external_body]
pub(crate) fn json_string(value: &str) -> (bytes: Vec<u8>)
    ensures
        bytes@ == string_of(value@),
{
    serde_json::to_vec(value).expect("a text is always serializable")
}

/// Appends a JSON string.
pub(crate) fn put_string(out: &mut Vec<u8>, value: &str)
    ensures
        final(out)@ == old(out)@ + string_of(value@),
{
    let bytes: Vec<u8> = json_string(value);
    put_bytes(out, bytes.as_slice());
}

/// Appends a text as it is.
pub(crate) fn put_text(out: &mut Vec<u8>, part: &str)
    ensures
        final(out)@ == old(out)@ + text::utf8(part@),
{
    put_bytes(out, part.as_bytes());
}

/// Appends a number.
pub(crate) fn put_number(out: &mut Vec<u8>, value: u64)
    ensures
        final(out)@ == old(out)@ + text::decimal(value as int),
{
    let digits: Vec<u8> = decimal_text(value);
    put_bytes(out, digits.as_slice());
}

/// What the byte behind a backslash stands for, where it is no `u`.
pub open spec fn named_escape(letter: u8) -> u8 {
    if letter == 'b' as u8 {
        0x08
    } else if letter == 't' as u8 {
        0x09
    } else if letter == 'n' as u8 {
        0x0a
    } else if letter == 'f' as u8 {
        0x0c
    } else if letter == 'r' as u8 {
        0x0d
    } else {
        letter
    }
}

/// A quote, a backslash or a control character is escaped, by a letter or by its number,
/// and stands for itself once read; any other byte is left as it is.
pub proof fn law_escapes_stand_for_their_byte(byte: u8)
    ensures
        byte >= 0x20 && byte != 0x22 && byte != 0x5c ==> escaped_byte(byte) == seq![byte],
        byte < 0x20 || byte == 0x22 || byte == 0x5c ==> {
            let spelled = escaped_byte(byte);
            &&& spelled[0] == 0x5c
            &&& spelled.len() == 2 && spelled[1] != 0x75 && named_escape(spelled[1]) == byte || (
            spelled.len() == 6 && spelled[1] == 0x75 && spelled[2] == 0x30 && spelled[3] == 0x30
                && spelled[4] == 0x30 + byte / 16 && (byte % 16 <= 9 && spelled[5] == 0x30 + byte
                % 16 || byte % 16 > 9 && spelled[5] == 0x61 + (byte % 16 - 10)))
        },
        forall|i: int| 0 <= i < escaped_byte(byte).len() ==> #[trigger] escaped_byte(byte)[i] >= 0x20,
{
}

/// A string stands between quotes, its bytes one after the other.
pub proof fn law_strings_spell_every_byte(bytes: Seq<u8>, count: int)
    requires
        0 <= count <= bytes.len(),
    ensures
        escaped(bytes, count) == bytes.take(count).map_values(
            |byte: u8| escaped_byte(byte),
        ).flatten(),
    decreases count,
{
    let spelled = |n: int| bytes.take(n).map_values(|byte: u8| escaped_byte(byte));
    if count > 0 {
        law_strings_spell_every_byte(bytes, count - 1);
        assert(spelled(count) =~= spelled(count - 1).push(escaped_byte(bytes[count - 1])));
        spelled(count - 1).lemma_flatten_push(escaped_byte(bytes[count - 1]));
    } else {
        assert(spelled(count) =~= Seq::empty());
    }
    assert(spelled(count) =~= bytes.take(count).map_values(|byte: u8| escaped_byte(byte)));
}

} // verus!
