//! Byte-level text: lines, words, decimal numbers and searches.
//!
//! Text is handled as its UTF-8 bytes. A `str` constant enters contracts by
//! its encoding, [`utf8`].

use vstd::prelude::*;

verus! {

/// The bytes of a text.
pub open spec fn utf8(chars: Seq<char>) -> Seq<u8> {
    vstd::utf8::encode_utf8(chars)
}

/// ASCII whitespace: space, tab, line feed, form feed and carriage return.
pub open spec fn is_space(byte: u8) -> bool {
    byte == 0x20 || byte == 0x09 || byte == 0x0a || byte == 0x0c || byte == 0x0d
}

/// An ASCII decimal digit.
pub open spec fn is_digit(byte: u8) -> bool {
    0x30 <= byte <= 0x39
}

/// The first place from `from` on that holds `byte`, or the end.
pub open spec fn next_byte(bytes: Seq<u8>, from: int, byte: u8) -> int
    decreases bytes.len() - from,
{
    if from >= bytes.len() || bytes[from] == byte {
        from
    } else {
        next_byte(bytes, from + 1, byte)
    }
}

/// The first place from `from` on that holds no whitespace, or the end.
pub open spec fn word_start(bytes: Seq<u8>, from: int) -> int
    decreases bytes.len() - from,
{
    if from >= bytes.len() || !is_space(bytes[from]) {
        from
    } else {
        word_start(bytes, from + 1)
    }
}

/// The first place from `from` on that holds whitespace, or the end.
pub open spec fn word_end(bytes: Seq<u8>, from: int) -> int
    decreases bytes.len() - from,
{
    if from >= bytes.len() || is_space(bytes[from]) {
        from
    } else {
        word_end(bytes, from + 1)
    }
}

/// A terminated line without the carriage return before its line feed.
pub open spec fn strip_carriage(line: Seq<u8>) -> Seq<u8> {
    if line.len() > 0 && line.last() == 0x0d {
        line.drop_last()
    } else {
        line
    }
}

/// The lines from a place on. Line feeds end lines; a carriage return before
/// one belongs to the ending; text after the last line feed is a line too.
pub open spec fn lines_from(bytes: Seq<u8>, from: int) -> Seq<Seq<u8>>
    decreases bytes.len() - from,
    via lines_from_decreases
{
    if from < 0 || from >= bytes.len() {
        Seq::empty()
    } else {
        let end = next_byte(bytes, from, 0x0a);
        if end >= bytes.len() {
            seq![bytes.subrange(from, bytes.len() as int)]
        } else {
            seq![strip_carriage(bytes.subrange(from, end))] + lines_from(bytes, end + 1)
        }
    }
}

#[via_fn]
proof fn lines_from_decreases(bytes: Seq<u8>, from: int) {
    if 0 <= from < bytes.len() {
        lemma_next_byte(bytes, from, 0x0a);
    }
}

/// The lines of a text.
pub open spec fn lines(bytes: Seq<u8>) -> Seq<Seq<u8>> {
    lines_from(bytes, 0)
}

/// The words from a place on: the maximal runs without whitespace.
pub open spec fn words_from(bytes: Seq<u8>, from: int) -> Seq<Seq<u8>>
    decreases bytes.len() - from,
    via words_from_decreases
{
    if from < 0 || word_start(bytes, from) >= bytes.len() {
        Seq::empty()
    } else {
        let start = word_start(bytes, from);
        let end = word_end(bytes, start);
        seq![bytes.subrange(start, end)] + words_from(bytes, end)
    }
}

#[via_fn]
proof fn words_from_decreases(bytes: Seq<u8>, from: int) {
    if 0 <= from {
        lemma_word_start(bytes, from);
        let start = word_start(bytes, from);
        if start < bytes.len() {
            lemma_word_end(bytes, start);
        }
    }
}

/// The words of a text.
pub open spec fn words(bytes: Seq<u8>) -> Seq<Seq<u8>> {
    words_from(bytes, 0)
}

/// Where a search from `from` on for `byte` ends.
pub proof fn lemma_next_byte(bytes: Seq<u8>, from: int, byte: u8)
    requires
        0 <= from,
    ensures
        from <= next_byte(bytes, from, byte),
        from <= bytes.len() ==> next_byte(bytes, from, byte) <= bytes.len(),
        next_byte(bytes, from, byte) < bytes.len() ==> bytes[next_byte(bytes, from, byte)] == byte,
        forall|i: int| from <= i < next_byte(bytes, from, byte) ==> #[trigger] bytes[i] != byte,
    decreases bytes.len() - from,
{
    if from < bytes.len() && bytes[from] != byte {
        lemma_next_byte(bytes, from + 1, byte);
    }
}

/// Where a search from `from` on for a word ends.
pub proof fn lemma_word_start(bytes: Seq<u8>, from: int)
    requires
        0 <= from,
    ensures
        from <= word_start(bytes, from),
        from <= bytes.len() ==> word_start(bytes, from) <= bytes.len(),
        word_start(bytes, from) < bytes.len() ==> !is_space(bytes[word_start(bytes, from)]),
        forall|i: int| from <= i < word_start(bytes, from) ==> is_space(#[trigger] bytes[i]),
    decreases bytes.len() - from,
{
    if from < bytes.len() && is_space(bytes[from]) {
        lemma_word_start(bytes, from + 1);
    }
}

/// Where a word that holds the place `from` ends.
pub proof fn lemma_word_end(bytes: Seq<u8>, from: int)
    requires
        0 <= from,
    ensures
        from <= word_end(bytes, from),
        from < bytes.len() && !is_space(bytes[from]) ==> from < word_end(bytes, from),
        from <= bytes.len() ==> word_end(bytes, from) <= bytes.len(),
        word_end(bytes, from) < bytes.len() ==> is_space(bytes[word_end(bytes, from)]),
        forall|i: int| from <= i < word_end(bytes, from) ==> !is_space(#[trigger] bytes[i]),
    decreases bytes.len() - from,
{
    if from < bytes.len() && !is_space(bytes[from]) {
        lemma_word_end(bytes, from + 1);
    }
}

/// Bytes of the character with the Unicode `White_Space` property that stands
/// at a place of a UTF-8 text; zero where none does.
pub open spec fn white_width(bytes: Seq<u8>, at: int) -> int {
    let a = bytes[at];
    let b = bytes[at + 1];
    let c = bytes[at + 2];
    if at < 0 || at >= bytes.len() {
        0
    } else if 0x09 <= a <= 0x0d || a == 0x20 {
        1
    } else if at + 2 <= bytes.len() && a == 0xc2 && (b == 0x85 || b == 0xa0) {
        2
    } else if at + 3 <= bytes.len() && (a == 0xe1 && b == 0x9a && c == 0x80 || a == 0xe2 && b == 0x80
        && (0x80 <= c <= 0x8a || c == 0xa8 || c == 0xa9 || c == 0xaf) || a == 0xe2 && b == 0x81
        && c == 0x9f || a == 0xe3 && b == 0x80 && c == 0x80) {
        3
    } else {
        0
    }
}

/// The first place from `from` on behind any white space.
pub open spec fn visible_start(bytes: Seq<u8>, from: int) -> int
    decreases bytes.len() - from,
{
    if from >= bytes.len() || white_width(bytes, from) == 0 {
        from
    } else {
        visible_start(bytes, from + white_width(bytes, from))
    }
}

/// The first place from `from` on that starts white space, or the end.
pub open spec fn visible_end(bytes: Seq<u8>, from: int) -> int
    decreases bytes.len() - from,
{
    if from >= bytes.len() || white_width(bytes, from) > 0 {
        from
    } else {
        visible_end(bytes, from + 1)
    }
}

/// The fields from a place on: the maximal runs without white space.
pub open spec fn fields_from(bytes: Seq<u8>, from: int) -> Seq<Seq<u8>>
    decreases bytes.len() - from,
    via fields_from_decreases
{
    if from < 0 || visible_start(bytes, from) >= bytes.len() {
        Seq::empty()
    } else {
        let start = visible_start(bytes, from);
        let end = visible_end(bytes, start);
        seq![bytes.subrange(start, end)] + fields_from(bytes, end)
    }
}

#[via_fn]
proof fn fields_from_decreases(bytes: Seq<u8>, from: int) {
    if 0 <= from {
        lemma_visible_start(bytes, from);
        let start = visible_start(bytes, from);
        if start < bytes.len() {
            lemma_visible_end(bytes, start + 1);
        }
    }
}

/// The fields of a text, split at Unicode white space.
pub open spec fn fields(bytes: Seq<u8>) -> Seq<Seq<u8>> {
    fields_from(bytes, 0)
}

proof fn lemma_visible_start(bytes: Seq<u8>, from: int)
    requires
        0 <= from,
    ensures
        from <= visible_start(bytes, from),
        from <= bytes.len() ==> visible_start(bytes, from) <= bytes.len(),
        visible_start(bytes, from) < bytes.len() ==> white_width(
            bytes,
            visible_start(bytes, from),
        ) == 0,
    decreases bytes.len() - from,
{
    if from < bytes.len() && white_width(bytes, from) != 0 {
        lemma_visible_start(bytes, from + white_width(bytes, from));
    }
}

proof fn lemma_visible_end(bytes: Seq<u8>, from: int)
    requires
        0 <= from,
    ensures
        from <= visible_end(bytes, from),
        from <= bytes.len() ==> visible_end(bytes, from) <= bytes.len(),
    decreases bytes.len() - from,
{
    if from < bytes.len() && white_width(bytes, from) == 0 {
        lemma_visible_end(bytes, from + 1);
    }
}

/// The contents of a list of byte strings.
pub open spec fn pieces(list: Seq<Vec<u8>>) -> Seq<Seq<u8>> {
    Seq::new(list.len(), |i: int| list[i]@)
}

/// Whether a byte is ASCII whitespace.
pub fn space(byte: u8) -> (answer: bool)
    ensures
        answer == is_space(byte),
{
    byte == 0x20 || byte == 0x09 || byte == 0x0a || byte == 0x0c || byte == 0x0d
}

/// A copy of part of a text.
pub fn slice(bytes: &[u8], from: usize, to: usize) -> (part: Vec<u8>)
    requires
        from <= to <= bytes@.len(),
    ensures
        part@ == bytes@.subrange(from as int, to as int),
{
    let mut part: Vec<u8> = Vec::new();
    for i in from..to
        invariant
            to <= bytes@.len(),
            part@ == bytes@.subrange(from as int, i as int),
    {
        part.push(bytes[i]);
        assert(part@ =~= bytes@.subrange(from as int, i + 1));
    }
    part
}

/// Whether two byte strings are the same.
pub fn same(a: &[u8], b: &[u8]) -> (answer: bool)
    ensures
        answer == (a@ == b@),
{
    if a.len() != b.len() {
        return false;
    }
    for i in 0..a.len()
        invariant
            a@.len() == b@.len(),
            forall|j: int| 0 <= j < i ==> a@[j] == b@[j],
    {
        if a[i] != b[i] {
            return false;
        }
    }
    assert(a@ =~= b@);
    true
}

/// Whether a byte string is a given text.
pub fn is_text(bytes: &[u8], text: &str) -> (answer: bool)
    ensures
        answer == (bytes@ == utf8(text@)),
{
    same(bytes, text.as_bytes())
}

/// Whether two texts are the same.
pub fn same_text(a: &str, b: &str) -> (answer: bool)
    ensures
        answer == (a@ == b@),
{
    let answer: bool = same(a.as_bytes(), b.as_bytes());
    proof {
        vstd::utf8::encode_utf8_decode_utf8(a@);
        vstd::utf8::encode_utf8_decode_utf8(b@);
    }
    answer
}

/// The pattern stands at the place.
pub open spec fn matches_at(bytes: Seq<u8>, at: int, pattern: Seq<u8>) -> bool {
    0 <= at && at + pattern.len() <= bytes.len() && bytes.subrange(at, at + pattern.len())
        == pattern
}

/// Whether the pattern stands at the place.
pub fn stands_at(bytes: &[u8], at: usize, pattern: &[u8]) -> (answer: bool)
    requires
        at <= bytes@.len(),
    ensures
        answer == matches_at(bytes@, at as int, pattern@),
{
    if bytes.len() - at < pattern.len() {
        return false;
    }
    for i in 0..pattern.len()
        invariant
            at + pattern@.len() <= bytes@.len(),
            bytes@.len() <= usize::MAX,
            forall|j: int| 0 <= j < i ==> bytes@[at + j] == #[trigger] pattern@[j],
    {
        if bytes[at + i] != pattern[i] {
            assert(bytes@.subrange(at as int, at + pattern@.len())[i as int] != pattern@[i as int]);
            return false;
        }
    }
    assert(bytes@.subrange(at as int, at + pattern@.len()) =~= pattern@);
    true
}

/// The first place from `from` on where the pattern stands.
pub open spec fn is_first_match(bytes: Seq<u8>, from: int, pattern: Seq<u8>, at: int) -> bool {
    &&& from <= at
    &&& matches_at(bytes, at, pattern)
    &&& forall|i: int| from <= i < at ==> !#[trigger] matches_at(bytes, i, pattern)
}

/// The pattern stands nowhere from `from` on.
pub open spec fn no_match(bytes: Seq<u8>, from: int, pattern: Seq<u8>) -> bool {
    forall|i: int| from <= i ==> !#[trigger] matches_at(bytes, i, pattern)
}

/// Finds the first occurrence of a pattern from a place on.
pub fn find(bytes: &[u8], from: usize, pattern: &[u8]) -> (place: Option<usize>)
    requires
        from <= bytes@.len(),
    ensures
        match place {
            Some(at) => is_first_match(bytes@, from as int, pattern@, at as int),
            None => no_match(bytes@, from as int, pattern@),
        },
{
    let mut at: usize = from;
    loop
        invariant
            from <= at <= bytes@.len(),
            forall|i: int| from <= i < at ==> !#[trigger] matches_at(bytes@, i, pattern@),
        decreases bytes@.len() - at,
    {
        if stands_at(bytes, at, pattern) {
            return Some(at);
        }
        if at == bytes.len() {
            return None;
        }
        at = at + 1;
    }
}

/// Calls `core::str::from_utf8`, which accepts a byte string exactly where it
/// is well-formed UTF-8. Only whether it accepts is taken from the call.
#[verifier::external_body]
pub(crate) fn is_utf8(bytes: &[u8]) -> (answer: bool)
    ensures
        answer == vstd::utf8::valid_utf8(bytes@),
{
    std::str::from_utf8(bytes).is_ok()
}

/// Splits a text into its lines.
pub fn split_lines(bytes: &[u8]) -> (list: Vec<Vec<u8>>)
    ensures
        pieces(list@) == lines(bytes@),
{
    let mut list: Vec<Vec<u8>> = Vec::new();
    let mut start: usize = 0;
    let mut at: usize = 0;
    assert(pieces(list@) + lines_from(bytes@, 0) =~= lines(bytes@));
    while at < bytes.len()
        invariant
            start <= at <= bytes@.len(),
            next_byte(bytes@, start as int, 0x0a) == next_byte(bytes@, at as int, 0x0a),
            pieces(list@) + lines_from(bytes@, start as int) == lines(bytes@),
        decreases bytes@.len() - at,
    {
        if bytes[at] == 0x0a {
            let end: usize = if at > start && bytes[at - 1] == 0x0d {
                at - 1
            } else {
                at
            };
            let line: Vec<u8> = slice(bytes, start, end);
            let ghost before = pieces(list@);
            assert(line@ =~= strip_carriage(bytes@.subrange(start as int, at as int)));
            assert(lines_from(bytes@, start as int) == seq![line@] + lines_from(
                bytes@,
                at + 1,
            ));
            list.push(line);
            assert(pieces(list@) =~= before.push(line@));
            assert(pieces(list@) + lines_from(bytes@, at + 1) =~= before + lines_from(
                bytes@,
                start as int,
            ));
            start = at + 1;
        }
        at = at + 1;
    }
    if start < bytes.len() {
        let line: Vec<u8> = slice(bytes, start, bytes.len());
        let ghost before = pieces(list@);
        list.push(line);
        assert(pieces(list@) =~= before + lines_from(bytes@, start as int));
    } else {
        assert(pieces(list@) =~= pieces(list@) + lines_from(bytes@, start as int));
    }
    list
}

/// Splits a text into its words.
pub fn split_words(bytes: &[u8]) -> (list: Vec<Vec<u8>>)
    ensures
        pieces(list@) == words(bytes@),
{
    let mut list: Vec<Vec<u8>> = Vec::new();
    let mut at: usize = 0;
    assert(pieces(list@) + words_from(bytes@, 0) =~= words(bytes@));
    while at < bytes.len()
        invariant
            at <= bytes@.len(),
            pieces(list@) + words_from(bytes@, at as int) == words(bytes@),
        decreases bytes@.len() - at,
    {
        if space(bytes[at]) {
            assert(words_from(bytes@, at as int) =~= words_from(bytes@, at + 1));
            at = at + 1;
        } else {
            let start: usize = at;
            let mut end: usize = at + 1;
            while end < bytes.len() && !space(bytes[end])
                invariant
                    start < end <= bytes@.len(),
                    word_end(bytes@, start as int) == word_end(bytes@, end as int),
                decreases bytes@.len() - end,
            {
                end = end + 1;
            }
            let word: Vec<u8> = slice(bytes, start, end);
            let ghost before = pieces(list@);
            assert(words_from(bytes@, start as int) == seq![word@] + words_from(
                bytes@,
                end as int,
            ));
            list.push(word);
            assert(pieces(list@) =~= before.push(word@));
            assert(pieces(list@) + words_from(bytes@, end as int) =~= before + words_from(
                bytes@,
                start as int,
            ));
            at = end;
        }
    }
    assert(pieces(list@) =~= pieces(list@) + words_from(bytes@, at as int));
    list
}

/// Bytes of the white space character at a place; zero where none stands.
fn white_width_at(bytes: &[u8], at: usize) -> (width: usize)
    requires
        at < bytes@.len(),
    ensures
        width == white_width(bytes@, at as int),
        at + width <= bytes@.len(),
{
    let a: u8 = bytes[at];
    if (0x09 <= a && a <= 0x0d) || a == 0x20 {
        return 1;
    }
    if bytes.len() - at < 2 {
        return 0;
    }
    let b: u8 = bytes[at + 1];
    if a == 0xc2 && (b == 0x85 || b == 0xa0) {
        return 2;
    }
    if bytes.len() - at < 3 {
        return 0;
    }
    let c: u8 = bytes[at + 2];
    if (a == 0xe1 && b == 0x9a && c == 0x80) || (a == 0xe2 && b == 0x80 && ((0x80 <= c && c <= 0x8a)
        || c == 0xa8 || c == 0xa9 || c == 0xaf)) || (a == 0xe2 && b == 0x81 && c == 0x9f) || (a
        == 0xe3 && b == 0x80 && c == 0x80) {
        3
    } else {
        0
    }
}

/// Nothing but white space.
pub open spec fn blank(bytes: Seq<u8>) -> bool {
    visible_start(bytes, 0) >= bytes.len()
}

/// Whether a text holds nothing but white space.
pub fn is_blank(text: &str) -> (answer: bool)
    ensures
        answer == blank(utf8(text@)),
{
    let bytes: &[u8] = text.as_bytes();
    let mut at: usize = 0;
    while at < bytes.len()
        invariant
            bytes@ == utf8(text@),
            at <= bytes@.len(),
            visible_start(bytes@, 0) == visible_start(bytes@, at as int),
        decreases bytes@.len() - at,
    {
        let width: usize = white_width_at(bytes, at);
        if width == 0 {
            return false;
        }
        at = at + width;
    }
    true
}

/// Splits a text into its fields at Unicode white space.
pub fn split_fields(bytes: &[u8]) -> (list: Vec<Vec<u8>>)
    ensures
        pieces(list@) == fields(bytes@),
{
    let mut list: Vec<Vec<u8>> = Vec::new();
    let mut at: usize = 0;
    assert(pieces(list@) + fields_from(bytes@, 0) =~= fields(bytes@));
    while at < bytes.len()
        invariant
            at <= bytes@.len(),
            pieces(list@) + fields_from(bytes@, at as int) == fields(bytes@),
        decreases bytes@.len() - at,
    {
        let width: usize = white_width_at(bytes, at);
        if width > 0 {
            assert(fields_from(bytes@, at as int) =~= fields_from(bytes@, at + width));
            at = at + width;
        } else {
            let start: usize = at;
            let mut end: usize = at + 1;
            while end < bytes.len() && white_width_at(bytes, end) == 0
                invariant
                    start < end <= bytes@.len(),
                    visible_end(bytes@, start as int) == visible_end(bytes@, end as int),
                decreases bytes@.len() - end,
            {
                end = end + 1;
            }
            let field: Vec<u8> = slice(bytes, start, end);
            let ghost before = pieces(list@);
            assert(fields_from(bytes@, start as int) == seq![field@] + fields_from(
                bytes@,
                end as int,
            ));
            list.push(field);
            assert(pieces(list@) =~= before.push(field@));
            assert(pieces(list@) + fields_from(bytes@, end as int) =~= before + fields_from(
                bytes@,
                start as int,
            ));
            at = end;
        }
    }
    assert(pieces(list@) =~= pieces(list@) + fields_from(bytes@, at as int));
    list
}

/// The number that the first `count` digits of a text spell.
pub open spec fn digits_value(bytes: Seq<u8>, from: int, to: int) -> int
    decreases to - from,
{
    if to <= from {
        0
    } else {
        digits_value(bytes, from, to - 1) * 10 + (bytes[to - 1] - 0x30)
    }
}

/// Where the digits of a number start: behind an optional plus sign.
pub open spec fn digits_start(bytes: Seq<u8>) -> int {
    if bytes.len() > 0 && bytes[0] == 0x2b {
        1
    } else {
        0
    }
}

/// The text is an optional plus sign and at least one digit.
pub open spec fn is_decimal(bytes: Seq<u8>) -> bool {
    &&& digits_start(bytes) < bytes.len()
    &&& forall|i: int| digits_start(bytes) <= i < bytes.len() ==> is_digit(#[trigger] bytes[i])
}

/// The unsigned number that a text spells, where it spells one up to `limit`.
pub open spec fn decimal_up_to(bytes: Seq<u8>, limit: int) -> Option<int> {
    let value = digits_value(bytes, digits_start(bytes), bytes.len() as int);
    if is_decimal(bytes) && value <= limit {
        Some(value)
    } else {
        None
    }
}

proof fn lemma_digits_grow(bytes: Seq<u8>, from: int, few: int, many: int)
    requires
        from <= few <= many <= bytes.len(),
        forall|i: int| from <= i < many ==> is_digit(#[trigger] bytes[i]),
    ensures
        0 <= digits_value(bytes, from, few) <= digits_value(bytes, from, many),
    decreases many - from,
{
    if few < many {
        lemma_digits_grow(bytes, from, few, many - 1);
    } else if from < many {
        lemma_digits_grow(bytes, from, few - 1, many - 1);
    }
}

/// Reads an unsigned number.
pub fn parse_usize(bytes: &[u8]) -> (number: Option<usize>)
    ensures
        match number {
            Some(value) => decimal_up_to(bytes@, usize::MAX as int) == Some(value as int),
            None => decimal_up_to(bytes@, usize::MAX as int) is None,
        },
{
    let start: usize = if bytes.len() > 0 && bytes[0] == 0x2b {
        1
    } else {
        0
    };
    if start >= bytes.len() {
        return None;
    }
    let mut value: usize = 0;
    for i in start..bytes.len()
        invariant
            start == digits_start(bytes@),
            forall|j: int| start <= j < i ==> is_digit(#[trigger] bytes@[j]),
            value == digits_value(bytes@, start as int, i as int),
    {
        let byte: u8 = bytes[i];
        if byte < 0x30 || byte > 0x39 {
            return None;
        }
        let digit: usize = (byte - 0x30) as usize;
        let next: Option<usize> = match value.checked_mul(10) {
            Some(scaled) => scaled.checked_add(digit),
            None => None,
        };
        match next {
            Some(sum) => {
                value = sum;
            },
            None => {
                proof {
                    if is_decimal(bytes@) {
                        lemma_digits_grow(
                            bytes@,
                            start as int,
                            i + 1,
                            bytes@.len() as int,
                        );
                    }
                }
                return None;
            },
        }
    }
    Some(value)
}

/// The decimal digits of a number, highest first.
pub open spec fn decimal(value: int) -> Seq<u8>
    decreases value,
{
    if value < 10 {
        seq![(0x30 + value) as u8]
    } else {
        decimal(value / 10).push((0x30 + value % 10) as u8)
    }
}

/// The decimal digits of a number, with zeros in front up to a width.
pub open spec fn padded_decimal(value: int, width: int) -> Seq<u8> {
    let digits = decimal(value);
    if digits.len() >= width {
        digits
    } else {
        Seq::new((width - digits.len()) as nat, |i: int| 0x30u8) + digits
    }
}

proof fn lemma_decimal_shape(value: int)
    requires
        value >= 0,
    ensures
        decimal(value).len() > 0,
        forall|i: int| 0 <= i < decimal(value).len() ==> is_digit(#[trigger] decimal(value)[i]),
        digits_value(decimal(value), 0, decimal(value).len() as int) == value,
    decreases value,
{
    let digits = decimal(value);
    if value >= 10 {
        let head = decimal(value / 10);
        lemma_decimal_shape(value / 10);
        lemma_digits_prefix(digits, head, head.len() as int);
    } else {
        assert(digits_value(digits, 0, 0) == 0);
    }
}

proof fn lemma_digits_prefix(a: Seq<u8>, b: Seq<u8>, to: int)
    requires
        to <= a.len(),
        to <= b.len(),
        forall|i: int| 0 <= i < to ==> a[i] == #[trigger] b[i],
    ensures
        digits_value(a, 0, to) == digits_value(b, 0, to),
    decreases to,
{
    if to > 0 {
        lemma_digits_prefix(a, b, to - 1);
    }
}

/// Reading the digits of a number gives the number.
pub proof fn law_decimal_round_trip(value: int, limit: int)
    requires
        0 <= value <= limit,
    ensures
        decimal_up_to(decimal(value), limit) == Some(value),
{
    lemma_decimal_shape(value);
    assert(is_digit(decimal(value)[0]));
}

/// The decimal digits of a number.
pub fn decimal_text(value: u64) -> (digits: Vec<u8>)
    ensures
        digits@ == decimal(value as int),
    decreases value,
{
    if value < 10 {
        let mut digits: Vec<u8> = Vec::new();
        digits.push((0x30 + value) as u8);
        assert(digits@ =~= decimal(value as int));
        digits
    } else {
        let mut digits: Vec<u8> = decimal_text(value / 10);
        digits.push((0x30 + value % 10) as u8);
        assert(digits@ =~= decimal(value as int));
        digits
    }
}

/// The decimal digits of a number, with zeros in front up to a width.
pub fn padded_decimal_text(value: u64, width: usize) -> (digits: Vec<u8>)
    ensures
        digits@ == padded_decimal(value as int, width as int),
{
    let digits: Vec<u8> = decimal_text(value);
    if digits.len() >= width {
        return digits;
    }
    let zeros: usize = width - digits.len();
    let mut padded: Vec<u8> = Vec::new();
    for i in 0..zeros
        invariant
            padded@ == Seq::new(i as nat, |j: int| 0x30u8),
    {
        padded.push(0x30);
        assert(padded@ =~= Seq::new((i + 1) as nat, |j: int| 0x30u8));
    }
    crate::wire::put_bytes(&mut padded, digits.as_slice());
    padded
}

/// A search ends at the first place that holds the byte.
proof fn lemma_next_byte_is(bytes: Seq<u8>, from: int, byte: u8, end: int)
    requires
        0 <= from <= end < bytes.len(),
        bytes[end] == byte,
        forall|i: int| from <= i < end ==> #[trigger] bytes[i] != byte,
    ensures
        next_byte(bytes, from, byte) == end,
    decreases end - from,
{
    if from < end {
        lemma_next_byte_is(bytes, from + 1, byte, end);
    }
}

/// A search behind a prefix is a search in what follows it.
proof fn lemma_next_byte_behind(a: Seq<u8>, b: Seq<u8>, from: int, byte: u8)
    requires
        0 <= from <= b.len(),
    ensures
        next_byte(a + b, a.len() + from, byte) == a.len() + next_byte(b, from, byte),
    decreases b.len() - from,
{
    if from < b.len() && b[from] != byte {
        lemma_next_byte_behind(a, b, from + 1, byte);
    }
}

proof fn lemma_lines_behind(a: Seq<u8>, b: Seq<u8>, from: int)
    requires
        0 <= from <= b.len(),
    ensures
        lines_from(a + b, a.len() + from) == lines_from(b, from),
    decreases b.len() - from,
{
    let whole = a + b;
    if from < b.len() {
        let end = next_byte(b, from, 0x0a);
        lemma_next_byte(b, from, 0x0a);
        lemma_next_byte_behind(a, b, from, 0x0a);
        if end < b.len() {
            lemma_lines_behind(a, b, end + 1);
            assert(whole.subrange(a.len() + from, a.len() + end) =~= b.subrange(from, end));
        } else {
            assert(whole.subrange(a.len() + from, whole.len() as int) =~= b.subrange(
                from,
                b.len() as int,
            ));
        }
    }
}

proof fn lemma_lines_before(a: Seq<u8>, b: Seq<u8>, from: int)
    requires
        0 <= from <= a.len(),
        a.len() > 0 ==> a.last() == 0x0a,
    ensures
        lines_from(a + b, from) == lines_from(a, from) + lines(b),
    decreases a.len() - from,
{
    let whole = a + b;
    if from < a.len() {
        let end = next_byte(a, from, 0x0a);
        lemma_next_byte(a, from, 0x0a);
        assert(end < a.len()) by {
            if end == a.len() {
                assert(a[a.len() - 1] != 0x0a);
            }
        }
        assert forall|i: int| from <= i < end implies #[trigger] whole[i] != 0x0a by {
            assert(a[i] != 0x0a);
        }
        lemma_next_byte_is(whole, from, 0x0a, end);
        lemma_lines_before(a, b, end + 1);
        assert(whole.subrange(from, end) =~= a.subrange(from, end));
        assert(lines_from(whole, from) =~= lines_from(a, from) + lines(b));
    } else {
        lemma_lines_behind(a, b, 0);
        assert(lines_from(a, from) + lines(b) =~= lines(b));
    }
}

/// The lines of a text that goes on behind a line feed are the lines before it and
/// the lines behind it.
pub proof fn lemma_lines_joined(a: Seq<u8>, b: Seq<u8>)
    requires
        a.len() > 0 ==> a.last() == 0x0a,
    ensures
        lines(a + b) == lines(a) + lines(b),
{
    lemma_lines_before(a, b, 0);
}

/// Well-formed text comes apart behind a line feed into two well-formed texts.
pub proof fn lemma_utf8_parts(a: Seq<u8>, b: Seq<u8>)
    requires
        vstd::utf8::valid_utf8(a + b),
        a.len() > 0,
        a.last() == 0x0a,
    ensures
        vstd::utf8::valid_utf8(a),
        vstd::utf8::valid_utf8(b),
{
    let whole = a + b;
    let at = a.len() - 1;
    assert(whole[at] == 0x0a);
    vstd::utf8::is_char_boundary_iff_not_is_continuation_byte(whole, at);
    vstd::utf8::valid_utf8_split(whole, at);
    let head = whole.subrange(0, at);
    let tail = whole.subrange(at, whole.len() as int);
    assert(tail[0] == 0x0a);
    assert(vstd::utf8::pop_first_scalar(tail) =~= b);
    let feed = seq![0x0au8];
    assert(vstd::utf8::valid_utf8(feed)) by {
        reveal_with_fuel(vstd::utf8::valid_utf8, 2);
        assert(vstd::utf8::is_leading_byte_width_1(feed[0]));
        assert(vstd::utf8::pop_first_scalar(feed) =~= Seq::empty());
    }
    vstd::utf8::valid_utf8_concat(head, feed);
    assert(head + feed =~= a);
}

/// A pattern that ends in its only line feed stands in a text that goes on behind a
/// line feed where it stands before that or behind it.
pub proof fn lemma_matches_joined(a: Seq<u8>, b: Seq<u8>, at: int, pattern: Seq<u8>)
    requires
        a.len() > 0 ==> a.last() == 0x0a,
        pattern.len() > 0,
        forall|i: int| 0 <= i < pattern.len() - 1 ==> #[trigger] pattern[i] != 0x0a,
    ensures
        matches_at(a + b, at, pattern) <==> matches_at(a, at, pattern) || matches_at(
            b,
            at - a.len(),
            pattern,
        ),
{
    let whole = a + b;
    let end = at + pattern.len();
    if matches_at(whole, at, pattern) {
        if end <= a.len() {
            assert(a.subrange(at, end) =~= whole.subrange(at, end));
        } else if at >= a.len() {
            assert(b.subrange(at - a.len(), end - a.len()) =~= whole.subrange(at, end));
        } else {
            let i = a.len() - 1 - at;
            assert(whole.subrange(at, end)[i] == whole[at + i]);
            assert(pattern[i] == 0x0a);
        }
    }
    if matches_at(a, at, pattern) {
        assert(a.subrange(at, end) =~= whole.subrange(at, end));
    }
    if matches_at(b, at - a.len(), pattern) {
        assert(b.subrange(at - a.len(), end - a.len()) =~= whole.subrange(at, end));
    }
}

/// A search for whitespace behind a prefix is a search in what follows it.
proof fn lemma_word_end_behind(a: Seq<u8>, b: Seq<u8>, from: int)
    requires
        0 <= from <= b.len(),
    ensures
        word_end(a + b, a.len() + from) == a.len() + word_end(b, from),
        word_start(a + b, a.len() + from) == a.len() + word_start(b, from),
    decreases b.len() - from,
{
    if from < b.len() {
        lemma_word_end_behind(a, b, from + 1);
    }
}

proof fn lemma_words_behind(a: Seq<u8>, b: Seq<u8>, from: int)
    requires
        0 <= from <= b.len(),
    ensures
        words_from(a + b, a.len() + from) == words_from(b, from),
    decreases b.len() - from,
{
    let whole = a + b;
    lemma_word_end_behind(a, b, from);
    let start = word_start(b, from);
    lemma_word_start(b, from);
    if start < b.len() {
        let end = word_end(b, start);
        lemma_word_end(b, start);
        lemma_word_end_behind(a, b, start);
        lemma_words_behind(a, b, end);
        assert(whole.subrange(a.len() + start, a.len() + end) =~= b.subrange(start, end));
    }
}

/// A search for whitespace in a text that goes on behind a space ends where it ends
/// in the text before it, or at that space.
proof fn lemma_word_end_before(a: Seq<u8>, b: Seq<u8>, from: int)
    requires
        0 <= from <= a.len(),
    ensures
        word_end(a.push(0x20) + b, from) == word_end(a, from),
        word_start(a, from) < a.len() ==> word_start(a.push(0x20) + b, from) == word_start(
            a,
            from,
        ),
        word_start(a, from) >= a.len() ==> word_start(a.push(0x20) + b, from) == word_start(
            a.push(0x20) + b,
            (a.len() + 1) as int,
        ),
    decreases a.len() - from,
{
    let whole = a.push(0x20) + b;
    assert(whole[a.len() as int] == 0x20);
    if from < a.len() {
        assert(whole[from] == a[from]);
        lemma_word_end_before(a, b, from + 1);
    }
}

proof fn lemma_words_before(a: Seq<u8>, b: Seq<u8>, from: int)
    requires
        0 <= from <= a.len(),
    ensures
        words_from(a.push(0x20) + b, from) == words_from(a, from) + words(b),
    decreases a.len() - from,
{
    let front = a.push(0x20);
    let whole = front + b;
    let start = word_start(a, from);
    lemma_word_start(a, from);
    lemma_word_end_before(a, b, from);
    if start < a.len() {
        let end = word_end(a, start);
        lemma_word_end(a, start);
        lemma_word_end_before(a, b, start);
        lemma_words_before(a, b, end);
        assert(whole.subrange(start, end) =~= a.subrange(start, end));
        assert(words_from(whole, from) =~= words_from(a, from) + words(b));
    } else {
        lemma_words_behind(front, b, 0);
        assert(words_from(whole, from) == words_from(whole, front.len() as int));
        assert(words_from(a, from) + words(b) =~= words(b));
    }
}

/// The words of a text that goes on behind a space are the words before it and the
/// words behind it.
pub proof fn lemma_words_joined(a: Seq<u8>, b: Seq<u8>)
    ensures
        words(a.push(0x20) + b) == words(a) + words(b),
{
    lemma_words_before(a, b, 0);
}

/// A text with no whitespace in it.
pub open spec fn is_word(bytes: Seq<u8>) -> bool {
    bytes.len() > 0 && forall|i: int| 0 <= i < bytes.len() ==> !is_space(#[trigger] bytes[i])
}

/// A word is its only word.
pub proof fn lemma_word_alone(bytes: Seq<u8>)
    requires
        is_word(bytes),
    ensures
        words(bytes) == seq![bytes],
{
    lemma_word_end(bytes, 0);
    let end = word_end(bytes, 0);
    if end < bytes.len() {
        assert(is_space(bytes[end]));
    }
    assert(bytes.subrange(0, end) =~= bytes);
    assert(words_from(bytes, end) =~= Seq::empty());
    assert(words(bytes) =~= seq![bytes]);
}

/// A terminated text with no other line feed is one line.
pub proof fn lemma_line_alone(content: Seq<u8>)
    requires
        forall|i: int| 0 <= i < content.len() ==> #[trigger] content[i] != 0x0a,
        content.len() > 0 ==> content.last() != 0x0d,
    ensures
        lines(content.push(0x0a)) == seq![content],
{
    let whole = content.push(0x0a);
    assert forall|i: int| 0 <= i < content.len() implies #[trigger] whole[i] != 0x0a by {
        assert(content[i] != 0x0a);
    }
    lemma_next_byte_is(whole, 0, 0x0a, content.len() as int);
    assert(whole.subrange(0, content.len() as int) =~= content);
    assert(lines_from(whole, whole.len() as int) =~= Seq::empty());
    assert(lines(whole) =~= seq![content]);
}

/// A number is spelled as one word of digits.
pub proof fn lemma_decimal_word(value: int)
    requires
        0 <= value,
    ensures
        is_word(decimal(value)),
        forall|i: int| 0 <= i < decimal(value).len() ==> is_digit(#[trigger] decimal(value)[i]),
    decreases value,
{
    if value >= 10 {
        lemma_decimal_word(value / 10);
    }
}

/// A number with zeros in front has at least its width and reads back as the number.
pub proof fn law_padded_number_reads_back(value: int, width: int)
    requires
        0 <= value,
        0 <= width,
    ensures
        padded_decimal(value, width).len() >= width,
        padded_decimal(value, width).len() > width ==> padded_decimal(value, width) == decimal(
            value,
        ),
        decimal_up_to(padded_decimal(value, width), value) == Some(value),
{
    let digits = decimal(value);
    let padded = padded_decimal(value, width);
    lemma_decimal_shape(value);
    law_decimal_round_trip(value, value);
    assert(is_digit(digits[0]));
    if digits.len() < width {
        let zeros = width - digits.len();
        lemma_zeros_add_nothing(digits, zeros, digits.len() as int);
        assert(padded =~= Seq::new(zeros as nat, |i: int| 0x30u8) + digits);
        assert forall|i: int| 0 <= i < padded.len() implies is_digit(#[trigger] padded[i]) by {
            if i >= zeros {
                assert(padded[i] == digits[i - zeros]);
            }
        }
        assert(is_digit(padded[0]));
    }
}

proof fn lemma_zeros_add_nothing(digits: Seq<u8>, zeros: int, to: int)
    requires
        0 <= zeros,
        0 <= to <= digits.len(),
    ensures
        digits_value(Seq::new(zeros as nat, |i: int| 0x30u8) + digits, 0, zeros + to)
            == digits_value(digits, 0, to),
    decreases zeros + to,
{
    let padded = Seq::new(zeros as nat, |i: int| 0x30u8) + digits;
    if to > 0 {
        lemma_zeros_add_nothing(digits, zeros, to - 1);
        assert(padded[zeros + to - 1] == digits[to - 1]);
    } else if zeros > 0 {
        lemma_only_zeros(padded, zeros);
    }
}

proof fn lemma_only_zeros(bytes: Seq<u8>, to: int)
    requires
        0 <= to <= bytes.len(),
        forall|i: int| 0 <= i < to ==> #[trigger] bytes[i] == 0x30,
    ensures
        digits_value(bytes, 0, to) == 0,
    decreases to,
{
    if to > 0 {
        lemma_only_zeros(bytes, to - 1);
    }
}

/// The digits of a number are digits.
pub proof fn lemma_decimal_is_digits(value: int)
    requires
        value >= 0,
    ensures
        decimal(value).len() > 0,
        forall|i: int|
            0 <= i < decimal(value).len() ==> 0x30 <= #[trigger] decimal(value)[i] <= 0x39,
{
    lemma_decimal_shape(value);
    assert forall|i: int| 0 <= i < decimal(value).len() implies 0x30 <= #[trigger] decimal(
        value,
    )[i] <= 0x39 by {
        assert(is_digit(decimal(value)[i]));
    }
}

/// Two texts with marks behind what holds none agree in what is before the first mark and
/// in the rest.
pub proof fn lemma_field_ends(a: Seq<u8>, rest: Seq<u8>, b: Seq<u8>, other: Seq<u8>, mark: u8)
    requires
        a + rest == b + other,
        !a.contains(mark),
        !b.contains(mark),
        rest.len() > 0,
        other.len() > 0,
        rest[0] == mark,
        other[0] == mark,
    ensures
        a == b,
        rest == other,
{
    let whole = a + rest;
    assert(whole[a.len() as int] == mark);
    assert((b + other)[b.len() as int] == mark);
    if a.len() < b.len() {
        assert((b + other)[a.len() as int] == b[a.len() as int]);
        assert(b.contains(mark));
    }
    if b.len() < a.len() {
        assert(whole[b.len() as int] == a[b.len() as int]);
        assert(a.contains(mark));
    }
    assert(a =~= whole.take(a.len() as int));
    assert(b =~= (b + other).take(b.len() as int));
    assert(rest =~= whole.skip(a.len() as int));
    assert(other =~= (b + other).skip(b.len() as int));
}

/// Two numbers with the same byte behind them, which is no digit, agree where the texts
/// do.
pub proof fn lemma_number_ends(x: int, rest: Seq<u8>, y: int, other: Seq<u8>, mark: u8)
    requires
        0 <= x,
        0 <= y,
        decimal(x) + rest == decimal(y) + other,
        rest.len() > 0,
        other.len() > 0,
        rest[0] == mark,
        other[0] == mark,
        mark < 0x30 || mark > 0x39,
    ensures
        x == y,
        rest == other,
{
    lemma_decimal_is_digits(x);
    lemma_decimal_is_digits(y);
    lemma_field_ends(decimal(x), rest, decimal(y), other, mark);
    let limit = if x < y {
        y
    } else {
        x
    };
    law_decimal_round_trip(x, limit);
    law_decimal_round_trip(y, limit);
}

/// What begins alike and is alike goes on alike.
pub proof fn lemma_same_behind(front: Seq<u8>, a: Seq<u8>, b: Seq<u8>)
    requires
        front + a == front + b,
    ensures
        a == b,
{
    assert(a =~= (front + a).skip(front.len() as int));
    assert(b =~= (front + b).skip(front.len() as int));
}

/// A text spells a number where it is digits, perhaps behind a plus sign, and the number is
/// no more than the limit. More digits spell ten times as much and the last of them.
pub proof fn law_numbers_are_made_of_digits(bytes: Seq<u8>, limit: int, digit: u8)
    requires
        0x30 <= digit <= 0x39,
    ensures
        decimal_up_to(bytes, limit) matches Some(value) ==> {
            &&& value <= limit
            &&& bytes.len() > 0
            &&& 0x30 <= bytes.last() <= 0x39
            &&& forall|i: int| 0 < i < bytes.len() ==> 0x30 <= #[trigger] bytes[i] <= 0x39
            &&& 0x30 <= bytes[0] <= 0x39 || bytes[0] == 0x2b
            &&& decimal_up_to(bytes.push(digit), 10 * value + 9) == Some(
                10 * value + (digit - 0x30),
            )
        },
{
    if let Some(value) = decimal_up_to(bytes, limit) {
        let longer = bytes.push(digit);
        let start = digits_start(bytes);
        assert forall|i: int| start <= i < bytes.len() implies 0x30 <= #[trigger] bytes[i]
            <= 0x39 by {
            assert(is_digit(bytes[i]));
        }
        assert(bytes.last() == bytes[bytes.len() - 1]);
        assert(longer[0] == bytes[0]);
        lemma_digits_agree(bytes, longer, start, bytes.len() as int);
        assert forall|i: int| start <= i < longer.len() implies is_digit(#[trigger] longer[i]) by {
            if i < bytes.len() {
                assert(longer[i] == bytes[i]);
            }
        }
    }
}

proof fn lemma_digits_agree(a: Seq<u8>, b: Seq<u8>, from: int, to: int)
    requires
        0 <= from,
        to <= a.len(),
        to <= b.len(),
        forall|i: int| from <= i < to ==> #[trigger] a[i] == b[i],
    ensures
        digits_value(a, from, to) == digits_value(b, from, to),
    decreases to - from,
{
    if from < to {
        lemma_digits_agree(a, b, from, to - 1);
        assert(a[to - 1] == b[to - 1]);
    }
}

/// Where there is no white space beyond that of ASCII, fields are words.
pub proof fn law_fields_of_plain_text_are_words(bytes: Seq<u8>, from: int)
    requires
        0 <= from <= bytes.len(),
        forall|i: int| 0 <= i < bytes.len() ==> #[trigger] bytes[i] < 0x80 && bytes[i] != 0x0b,
    ensures
        fields_from(bytes, from) == words_from(bytes, from),
    decreases bytes.len() - from,
{
    lemma_plain_start(bytes, from);
    let start = word_start(bytes, from);
    lemma_word_start(bytes, from);
    if start < bytes.len() {
        lemma_plain_end(bytes, start);
        lemma_word_end(bytes, start);
        law_fields_of_plain_text_are_words(bytes, word_end(bytes, start));
    }
}

proof fn lemma_plain_start(bytes: Seq<u8>, from: int)
    requires
        0 <= from <= bytes.len(),
        forall|i: int| 0 <= i < bytes.len() ==> #[trigger] bytes[i] < 0x80 && bytes[i] != 0x0b,
    ensures
        visible_start(bytes, from) == word_start(bytes, from),
    decreases bytes.len() - from,
{
    if from < bytes.len() {
        assert(bytes[from] < 0x80);
        lemma_plain_start(bytes, from + 1);
    }
}

proof fn lemma_plain_end(bytes: Seq<u8>, from: int)
    requires
        0 <= from <= bytes.len(),
        forall|i: int| 0 <= i < bytes.len() ==> #[trigger] bytes[i] < 0x80 && bytes[i] != 0x0b,
    ensures
        visible_end(bytes, from) == word_end(bytes, from),
    decreases bytes.len() - from,
{
    if from < bytes.len() {
        assert(bytes[from] < 0x80);
        lemma_plain_end(bytes, from + 1);
    }
}

proof fn lemma_regrouped_once(a: Seq<u8>, b: Seq<u8>, c: Seq<u8>)
    ensures
        a + b + c == a + (b + c),
{
    assert(a + b + c =~= a + (b + c));
}

/// Five parts and a rest, grouped from the front or from the back.
pub proof fn lemma_five_regrouped(a: Seq<u8>, b: Seq<u8>, c: Seq<u8>, d: Seq<u8>, e: Seq<u8>, rest: Seq<u8>)
    ensures
        a + b + c + d + e + rest == a + (b + (c + (d + (e + rest)))),
{
    lemma_regrouped_once(a + b + c + d, e, rest);
    lemma_regrouped_once(a + b + c, d, e + rest);
    lemma_regrouped_once(a + b, c, d + (e + rest));
    lemma_regrouped_once(a, b, c + (d + (e + rest)));
}

/// Six parts and a rest, grouped from the front or from the back.
pub proof fn lemma_six_regrouped(a: Seq<u8>, b: Seq<u8>, c: Seq<u8>, d: Seq<u8>, e: Seq<u8>, f: Seq<u8>, rest: Seq<u8>)
    ensures
        a + b + c + d + e + f + rest == a + (b + (c + (d + (e + (f + rest))))),
{
    lemma_regrouped_once(a + b + c + d + e, f, rest);
    lemma_regrouped_once(a + b + c + d, e, f + rest);
    lemma_regrouped_once(a + b + c, d, e + (f + rest));
    lemma_regrouped_once(a + b, c, d + (e + (f + rest)));
    lemma_regrouped_once(a, b, c + (d + (e + (f + rest))));
}

/// Eight parts and a rest, grouped from the front or from the back.
pub proof fn lemma_eight_regrouped(a: Seq<u8>, b: Seq<u8>, c: Seq<u8>, d: Seq<u8>, e: Seq<u8>, f: Seq<u8>, g: Seq<u8>, h: Seq<u8>, rest: Seq<u8>)
    ensures
        a + b + c + d + e + f + g + h + rest == a + (b + (c + (d + (e + (f + (g + (h + rest))))))),
{
    lemma_regrouped_once(a + b + c + d + e + f + g, h, rest);
    lemma_regrouped_once(a + b + c + d + e + f, g, h + rest);
    lemma_regrouped_once(a + b + c + d + e, f, g + (h + rest));
    lemma_regrouped_once(a + b + c + d, e, f + (g + (h + rest)));
    lemma_regrouped_once(a + b + c, d, e + (f + (g + (h + rest))));
    lemma_regrouped_once(a + b, c, d + (e + (f + (g + (h + rest)))));
    lemma_regrouped_once(a, b, c + (d + (e + (f + (g + (h + rest))))));
}

/// Nine parts and a rest, grouped from the front or from the back.
pub proof fn lemma_nine_regrouped(a: Seq<u8>, b: Seq<u8>, c: Seq<u8>, d: Seq<u8>, e: Seq<u8>, f: Seq<u8>, g: Seq<u8>, h: Seq<u8>, i: Seq<u8>, rest: Seq<u8>)
    ensures
        a + b + c + d + e + f + g + h + i + rest == a + (b + (c + (d + (e + (f + (g + (h + (i + rest)))))))),
{
    lemma_regrouped_once(a + b + c + d + e + f + g + h, i, rest);
    lemma_regrouped_once(a + b + c + d + e + f + g, h, i + rest);
    lemma_regrouped_once(a + b + c + d + e + f, g, h + (i + rest));
    lemma_regrouped_once(a + b + c + d + e, f, g + (h + (i + rest)));
    lemma_regrouped_once(a + b + c + d, e, f + (g + (h + (i + rest))));
    lemma_regrouped_once(a + b + c, d, e + (f + (g + (h + (i + rest)))));
    lemma_regrouped_once(a + b, c, d + (e + (f + (g + (h + (i + rest))))));
    lemma_regrouped_once(a, b, c + (d + (e + (f + (g + (h + (i + rest)))))));
}

/// Eleven parts and a rest, grouped from the front or from the back.
pub proof fn lemma_eleven_regrouped(a: Seq<u8>, b: Seq<u8>, c: Seq<u8>, d: Seq<u8>, e: Seq<u8>, f: Seq<u8>, g: Seq<u8>, h: Seq<u8>, i: Seq<u8>, j: Seq<u8>, k: Seq<u8>, rest: Seq<u8>)
    ensures
        a + b + c + d + e + f + g + h + i + j + k + rest == a + (b + (c + (d + (e + (f + (g + (h + (i + (j + (k + rest)))))))))),
{
    lemma_regrouped_once(a + b + c + d + e + f + g + h + i + j, k, rest);
    lemma_regrouped_once(a + b + c + d + e + f + g + h + i, j, k + rest);
    lemma_regrouped_once(a + b + c + d + e + f + g + h, i, j + (k + rest));
    lemma_regrouped_once(a + b + c + d + e + f + g, h, i + (j + (k + rest)));
    lemma_regrouped_once(a + b + c + d + e + f, g, h + (i + (j + (k + rest))));
    lemma_regrouped_once(a + b + c + d + e, f, g + (h + (i + (j + (k + rest)))));
    lemma_regrouped_once(a + b + c + d, e, f + (g + (h + (i + (j + (k + rest))))));
    lemma_regrouped_once(a + b + c, d, e + (f + (g + (h + (i + (j + (k + rest)))))));
    lemma_regrouped_once(a + b, c, d + (e + (f + (g + (h + (i + (j + (k + rest))))))));
    lemma_regrouped_once(a, b, c + (d + (e + (f + (g + (h + (i + (j + (k + rest)))))))));
}

} // verus!
