//! Binary portable pixmaps, the only raster encoding of a decode cache.

use vstd::prelude::*;

use crate::text;
use crate::text::{parse_usize, slice, space};

verus! {

/// A decoded image: rows of red, green and blue bytes.
#[derive(Debug, Clone, PartialEq, Eq)]
pub struct OwnedFrame {
    pub rgb_hwc_u8: Vec<u8>,
    pub width: usize,
    pub height: usize,
}

/// What is wrong with a pixmap.
#[derive(Debug, Clone, Copy, PartialEq, Eq, Structural)]
pub enum PpmProblem {
    TruncatedHeader,
    NotBinary,
    InvalidWidth,
    InvalidHeight,
    InvalidMaximum,
    UnsupportedShape,
    MissingDelimiter,
    DimensionsOverflow,
    RasterLength,
}

impl PpmProblem {
    /// The human-readable reason.
    pub fn message(&self) -> (reason: &'static str)
        ensures
            reason@ == (match self {
                PpmProblem::TruncatedHeader => "PPM header is truncated"@,
                PpmProblem::NotBinary => "only binary P6 PPM is supported"@,
                PpmProblem::InvalidWidth => "PPM width is invalid"@,
                PpmProblem::InvalidHeight => "PPM height is invalid"@,
                PpmProblem::InvalidMaximum => "PPM max value is invalid"@,
                PpmProblem::UnsupportedShape =>
                    "PPM dimensions must be positive and max value must be 255"@,
                PpmProblem::MissingDelimiter => "PPM header lacks a raster delimiter"@,
                PpmProblem::DimensionsOverflow => "PPM dimensions overflow"@,
                PpmProblem::RasterLength => "PPM raster length does not match header"@,
            }),
    {
        match self {
            PpmProblem::TruncatedHeader => "PPM header is truncated",
            PpmProblem::NotBinary => "only binary P6 PPM is supported",
            PpmProblem::InvalidWidth => "PPM width is invalid",
            PpmProblem::InvalidHeight => "PPM height is invalid",
            PpmProblem::InvalidMaximum => "PPM max value is invalid",
            PpmProblem::UnsupportedShape =>
                "PPM dimensions must be positive and max value must be 255",
            PpmProblem::MissingDelimiter => "PPM header lacks a raster delimiter",
            PpmProblem::DimensionsOverflow => "PPM dimensions overflow",
            PpmProblem::RasterLength => "PPM raster length does not match header",
        }
    }
}

/// The first place from `from` on that is neither white space nor part of a
/// comment. A comment runs from a number sign to the end of its line.
pub open spec fn token_start(bytes: Seq<u8>, from: int) -> int
    decreases bytes.len() - from,
    via token_start_decreases
{
    if from < 0 || from >= bytes.len() {
        from
    } else if text::is_space(bytes[from]) {
        token_start(bytes, from + 1)
    } else if bytes[from] == 0x23 {
        token_start(bytes, text::next_byte(bytes, from, 0x0a))
    } else {
        from
    }
}

#[via_fn]
proof fn token_start_decreases(bytes: Seq<u8>, from: int) {
    if 0 <= from < bytes.len() {
        text::lemma_next_byte(bytes, from, 0x0a);
    }
}

/// The token from a place on, and the place behind it; none where the bytes
/// end first.
pub open spec fn token_at(bytes: Seq<u8>, from: int) -> Option<(Seq<u8>, int)> {
    let start = token_start(bytes, from);
    let end = text::word_end(bytes, start);
    if start >= bytes.len() {
        None
    } else {
        Some((bytes.subrange(start, end), end))
    }
}

/// The number from a place on and the place behind it, or what is wrong.
pub open spec fn number_at(bytes: Seq<u8>, from: int, invalid: PpmProblem) -> Result<
    (int, int),
    PpmProblem,
> {
    match token_at(bytes, from) {
        None => Err(PpmProblem::TruncatedHeader),
        Some((token, end)) => match text::decimal_up_to(token, usize::MAX as int) {
            Some(value) => Ok((value, end)),
            None => Err(invalid),
        },
    }
}

/// The three numbers of a header and the place behind them.
pub open spec fn header_at(bytes: Seq<u8>, from: int) -> Result<(int, int, int, int), PpmProblem> {
    match number_at(bytes, from, PpmProblem::InvalidWidth) {
        Err(problem) => Err(problem),
        Ok((width, a)) => match number_at(bytes, a, PpmProblem::InvalidHeight) {
            Err(problem) => Err(problem),
            Ok((height, b)) => match number_at(bytes, b, PpmProblem::InvalidMaximum) {
                Err(problem) => Err(problem),
                Ok((maximum, c)) => Ok((width, height, maximum, c)),
            },
        },
    }
}

/// What a byte sequence is as an image: pixels, width and height.
pub open spec fn parse_ppm(bytes: Seq<u8>) -> Result<(Seq<u8>, int, int), PpmProblem> {
    match token_at(bytes, 0) {
        None => Err(PpmProblem::TruncatedHeader),
        Some((magic, after)) => if magic != text::utf8("P6"@) {
            Err(PpmProblem::NotBinary)
        } else {
            match header_at(bytes, after) {
                Err(problem) => Err(problem),
                Ok((width, height, maximum, end)) => if width == 0 || height == 0 || maximum
                    != 255 {
                    Err(PpmProblem::UnsupportedShape)
                } else if end >= bytes.len() || !text::is_space(bytes[end]) {
                    Err(PpmProblem::MissingDelimiter)
                } else if width * height * 3 > usize::MAX {
                    Err(PpmProblem::DimensionsOverflow)
                } else if bytes.len() != end + 1 + width * height * 3 {
                    Err(PpmProblem::RasterLength)
                } else {
                    Ok((bytes.subrange(end + 1, bytes.len() as int), width, height))
                },
            }
        },
    }
}

proof fn lemma_token_start(bytes: Seq<u8>, from: int)
    requires
        0 <= from,
    ensures
        from <= token_start(bytes, from),
        from <= bytes.len() ==> token_start(bytes, from) <= bytes.len(),
        token_start(bytes, from) < bytes.len() ==> !text::is_space(
            bytes[token_start(bytes, from)],
        ),
    decreases bytes.len() - from,
{
    if from < bytes.len() {
        if text::is_space(bytes[from]) {
            lemma_token_start(bytes, from + 1);
        } else if bytes[from] == 0x23 {
            text::lemma_next_byte(bytes, from, 0x0a);
            lemma_token_start(bytes, text::next_byte(bytes, from, 0x0a));
        }
    }
}

/// Takes the next token from the cursor on.
pub fn ppm_token(bytes: &[u8], cursor: &mut usize) -> (result: Result<Vec<u8>, PpmProblem>)
    requires
        *old(cursor) <= bytes@.len(),
    ensures
        *final(cursor) <= bytes@.len(),
        match token_at(bytes@, *old(cursor) as int) {
            Some((token, end)) => result matches Ok(found) && found@ == token && *final(cursor)
                == end,
            None => result == Err::<Vec<u8>, PpmProblem>(PpmProblem::TruncatedHeader)
                && *final(cursor) == bytes@.len(),
        },
{
    let mut at: usize = *cursor;
    let ghost from = at as int;
    proof {
        lemma_token_start(bytes@, from);
    }
    while at < bytes.len() && (space(bytes[at]) || bytes[at] == 0x23)
        invariant
            at <= bytes@.len(),
            token_start(bytes@, from) == token_start(bytes@, at as int),
        decreases bytes@.len() - at,
    {
        if space(bytes[at]) {
            at = at + 1;
        } else {
            let ghost sign = at as int;
            proof {
                text::lemma_next_byte(bytes@, sign, 0x0a);
            }
            while at < bytes.len() && bytes[at] != 0x0a
                invariant
                    sign <= at <= bytes@.len(),
                    text::next_byte(bytes@, sign, 0x0a) == text::next_byte(
                        bytes@,
                        at as int,
                        0x0a,
                    ),
                decreases bytes@.len() - at,
            {
                at = at + 1;
            }
        }
    }
    let start: usize = at;
    proof {
        text::lemma_word_end(bytes@, start as int);
    }
    while at < bytes.len() && !space(bytes[at])
        invariant
            start <= at <= bytes@.len(),
            text::word_end(bytes@, start as int) == text::word_end(bytes@, at as int),
        decreases bytes@.len() - at,
    {
        at = at + 1;
    }
    *cursor = at;
    if start == at {
        return Err(PpmProblem::TruncatedHeader);
    }
    Ok(slice(bytes, start, at))
}

/// Takes the next number from the cursor on.
pub fn ppm_number(bytes: &[u8], cursor: &mut usize, invalid: PpmProblem) -> (result: Result<
    usize,
    PpmProblem,
>)
    requires
        *old(cursor) <= bytes@.len(),
    ensures
        *final(cursor) <= bytes@.len(),
        match number_at(bytes@, *old(cursor) as int, invalid) {
            Ok((value, end)) => result matches Ok(found) && found == value && *final(cursor)
                == end,
            Err(problem) => result == Err::<usize, PpmProblem>(problem),
        },
        *final(cursor) == (match token_at(bytes@, *old(cursor) as int) {
            Some((_, end)) => end,
            None => bytes@.len() as int,
        }),
{
    let token: Vec<u8> = ppm_token(bytes, cursor)?;
    match parse_usize(token.as_slice()) {
        Some(value) => Ok(value),
        None => Err(invalid),
    }
}

/// Reads a binary pixmap with 255 levels.
pub fn read_ppm_rgb(bytes: &[u8]) -> (result: Result<OwnedFrame, PpmProblem>)
    ensures
        match parse_ppm(bytes@) {
            Ok((pixels, width, height)) => result matches Ok(frame) && frame.rgb_hwc_u8@ == pixels
                && frame.width == width && frame.height == height,
            Err(problem) => result == Err::<OwnedFrame, PpmProblem>(problem),
        },
{
    let mut cursor: usize = 0;
    let magic: Vec<u8> = ppm_token(bytes, &mut cursor)?;
    if !text::is_text(magic.as_slice(), "P6") {
        return Err(PpmProblem::NotBinary);
    }
    let width: usize = ppm_number(bytes, &mut cursor, PpmProblem::InvalidWidth)?;
    let height: usize = ppm_number(bytes, &mut cursor, PpmProblem::InvalidHeight)?;
    let maximum: usize = ppm_number(bytes, &mut cursor, PpmProblem::InvalidMaximum)?;
    if width == 0 || height == 0 || maximum != 255 {
        return Err(PpmProblem::UnsupportedShape);
    }
    if cursor >= bytes.len() || !space(bytes[cursor]) {
        return Err(PpmProblem::MissingDelimiter);
    }
    let start: usize = cursor + 1;
    let expected: usize = match width.checked_mul(height) {
        Some(pixels) => match pixels.checked_mul(3) {
            Some(expected) => expected,
            None => return Err(PpmProblem::DimensionsOverflow),
        },
        None => {
            assert(width * height * 3 > usize::MAX) by (nonlinear_arith)
                requires
                    width * height > usize::MAX,
            ;
            return Err(PpmProblem::DimensionsOverflow);
        },
    };
    if bytes.len() - start != expected {
        return Err(PpmProblem::RasterLength);
    }
    Ok(OwnedFrame { rgb_hwc_u8: slice(bytes, start, bytes.len()), width, height })
}

/// An image that was read holds exactly three bytes for each of its pixels.
pub proof fn law_read_image_is_full(bytes: Seq<u8>)
    requires
        parse_ppm(bytes) is Ok,
    ensures
        ({
            let (pixels, width, height) = parse_ppm(bytes)->Ok_0;
            pixels.len() == width * height * 3 && width != 0 && height != 0
        }),
{
    lemma_token_place(bytes, 0);
    let after = token_at(bytes, 0).unwrap().1;
    lemma_token_place(bytes, after);
    let second = token_at(bytes, after).unwrap().1;
    lemma_token_place(bytes, second);
    let third = token_at(bytes, second).unwrap().1;
    lemma_token_place(bytes, third);
}

proof fn lemma_token_place(bytes: Seq<u8>, from: int)
    requires
        0 <= from <= bytes.len(),
    ensures
        token_at(bytes, from) matches Some((_, end)) ==> from <= end <= bytes.len(),
{
    lemma_token_start(bytes, from);
    text::lemma_word_end(bytes, token_start(bytes, from));
}

/// A comment is skipped with its line: what is read from it on is what is read from the
/// next line on. So is an empty line.
pub proof fn law_comments_are_skipped(bytes: Seq<u8>, from: int, feed: int)
    requires
        0 <= from <= feed < bytes.len(),
        from == feed || bytes[from] == 0x23,
        bytes[feed] == 0x0a,
        forall|i: int| from <= i < feed ==> #[trigger] bytes[i] != 0x0a,
    ensures
        token_at(bytes, from) == token_at(bytes, feed + 1),
{
    assert(text::is_space(0x0a));
    assert(token_start(bytes, feed) == token_start(bytes, feed + 1));
    if from < feed {
        assert(!text::is_space(0x23));
        text::lemma_next_byte(bytes, from, 0x0a);
        let found = text::next_byte(bytes, from, 0x0a);
        if found < feed {
            assert(bytes[found] != 0x0a);
        }
        if found > feed {
            assert(bytes[feed] != 0x0a);
        }
    }
}

/// The bytes that end a header field: a space, a tab, a line feed, a form feed or a
/// carriage return.
pub open spec fn ends_field(byte: u8) -> bool {
    byte == 0x20 || byte == 0x09 || byte == 0x0a || byte == 0x0c || byte == 0x0d
}

proof fn lemma_token_is(bytes: Seq<u8>, from: int, token: Seq<u8>)
    requires
        0 <= from,
        token.len() > 0,
        from + token.len() < bytes.len(),
        bytes.subrange(from, from + token.len()) == token,
        forall|i: int|
            0 <= i < token.len() ==> !ends_field(#[trigger] token[i]) && token[i] != 0x23,
        ends_field(bytes[from + token.len()]),
    ensures
        token_at(bytes, from) == Some((token, from + token.len())),
        from > 0 && ends_field(bytes[from - 1]) ==> token_at(bytes, from - 1) == Some(
            (token, from + token.len()),
        ),
{
    let end = text::word_end(bytes, from);
    assert(bytes[from] == token[0]);
    text::lemma_word_end(bytes, from);
    if end < from + token.len() {
        assert(bytes[end] == token[end - from]);
    }
    if end > from + token.len() {
        assert(text::is_space(bytes[from + token.len()]));
    }
    assert(token_start(bytes, from) == from);
    if from > 0 && ends_field(bytes[from - 1]) {
        assert(token_start(bytes, from - 1) == from);
    }
}

/// An image that is written as `P6`, its width, its height and 255, each followed by a
/// byte that ends a field, and three bytes for each pixel, is read back.
pub proof fn law_written_image_is_read(width: int, height: int, ends: Seq<u8>, pixels: Seq<u8>)
    requires
        0 < width <= usize::MAX,
        0 < height <= usize::MAX,
        width * height * 3 <= usize::MAX,
        pixels.len() == width * height * 3,
        ends.len() == 4,
        forall|i: int| 0 <= i < 4 ==> ends_field(#[trigger] ends[i]),
    ensures
        ({
            let written = seq![0x50u8, 0x36u8].push(ends[0]) + text::decimal(width).push(ends[1])
                + text::decimal(height).push(ends[2]) + seq![0x32u8, 0x35u8, 0x35u8].push(ends[3])
                + pixels;
            parse_ppm(written) == Ok::<(Seq<u8>, int, int), PpmProblem>((pixels, width, height))
        }),
{
    let magic = seq![0x50u8, 0x36u8];
    let full = seq![0x32u8, 0x35u8, 0x35u8];
    let w = text::decimal(width);
    let h = text::decimal(height);
    let written = magic.push(ends[0]) + w.push(ends[1]) + h.push(ends[2]) + full.push(ends[3])
        + pixels;
    reveal_strlit("P6");
    vstd::utf8::is_ascii_chars_encode_utf8("P6"@);
    assert(text::utf8("P6"@) =~= magic);
    text::lemma_decimal_is_digits(width);
    text::lemma_decimal_is_digits(height);
    text::law_decimal_round_trip(width, usize::MAX as int);
    text::law_decimal_round_trip(height, usize::MAX as int);
    let a = 2int;
    let b = a + 1 + w.len();
    let c = b + 1 + h.len();
    let d = c + 1 + 3;
    assert(written.subrange(0, a) =~= magic);
    assert(written.subrange(a + 1, b) =~= w);
    assert(written.subrange(b + 1, c) =~= h);
    assert(written.subrange(c + 1, d) =~= full);
    assert(written.subrange(d + 1, written.len() as int) =~= pixels);
    assert(ends_field(ends[0]) && ends_field(ends[1]) && ends_field(ends[2]) && ends_field(
        ends[3],
    ));
    assert(written[a] == ends[0]);
    assert(written[b] == ends[1]);
    assert(written[c] == ends[2]);
    assert(written[d] == ends[3]);
    lemma_token_is(written, 0, magic);
    lemma_token_is(written, a + 1, w);
    lemma_token_is(written, b + 1, h);
    lemma_token_is(written, c + 1, full);
    assert(text::decimal_up_to(full, usize::MAX as int) == Some(255int)) by {
        reveal_with_fuel(text::decimal, 4);
        assert(text::decimal(255) =~= full);
        text::law_decimal_round_trip(255, usize::MAX as int);
    }
}

} // verus!
