//! The text layer: bytes behind a byte-order mark in, text and its lines out.
//!
//! `text_of` says which text a buffer holds, and `lines_of` how a text falls
//! into lines. `decode` and `Lines` are proved to compute them.

use vstd::prelude::*;
use vstd::slice::slice_subrange;
use vstd::utf8::{decode_utf8 as utf8_chars, encode_scalar, encode_utf8, valid_utf8};
use crate::wsv::push_char;
use std::str::Utf8Error;
use std::string::FromUtf16Error;

verus! {

/// The error of `std::str::from_utf8`, carried through as it came.
#[verifier::external_type_specification]
#[verifier::external_body]
pub struct ExUtf8Error(Utf8Error);

/// The error of `String::from_utf16`, carried through as it came.
#[verifier::external_type_specification]
#[verifier::external_body]
pub struct ExFromUtf16Error(FromUtf16Error);

/// Why a buffer holds no text.
#[derive(Debug)]
pub enum Error {
    /// The bytes behind the mark are not UTF-8.
    Utf8Error(Utf8Error),
    /// The code units behind the mark are not UTF-16.
    Utf16Error(FromUtf16Error),
    /// A code unit behind the mark is no Unicode scalar value.
    Utf32Error,
    /// The buffer starts with none of the four byte-order marks.
    BadBOM,
    /// The bytes behind the mark do not make up whole code units.
    BadLength,
}

/// The kinds of `Error`.
pub enum Fault {
    Utf8,
    Utf16,
    Utf32,
    Mark,
    Length,
}

impl Error {
    /// The kind of this error.
    pub open spec fn fault(self) -> Fault {
        match self {
            Error::Utf8Error(_) => Fault::Utf8,
            Error::Utf16Error(_) => Fault::Utf16,
            Error::Utf32Error => Fault::Utf32,
            Error::BadBOM => Fault::Mark,
            Error::BadLength => Fault::Length,
        }
    }
}

/// The text that a sequence of UTF-16 code units encodes, or `None` where it
/// holds a surrogate without its partner: what `String::from_utf16` decides.
pub uninterp spec fn utf16_text(units: Seq<u16>) -> Option<Seq<char>>;

/// Whether `v` is a Unicode scalar value: a code point that is no surrogate.
pub open spec fn is_scalar_value(v: u32) -> bool {
    v < 0xD800 || 0xE000 <= v <= 0x10FFFF
}

/// The 16-bit unit with the high byte `hi` and the low byte `lo`.
pub open spec fn unit16(hi: u8, lo: u8) -> u16 {
    ((hi as u16) << 8) | (lo as u16)
}

/// The 32-bit unit of four bytes, the highest first.
pub open spec fn unit32(a: u8, b: u8, c: u8, d: u8) -> u32 {
    ((a as u32) << 24) | ((b as u32) << 16) | ((c as u32) << 8) | (d as u32)
}

/// The 16-bit units of `bytes`, each with its high byte first.
pub open spec fn units16_be(bytes: Seq<u8>) -> Seq<u16> {
    Seq::new(bytes.len() / 2, |i: int| unit16(bytes[2 * i], bytes[2 * i + 1]))
}

/// The 16-bit units of `bytes`, each with its low byte first.
pub open spec fn units16_le(bytes: Seq<u8>) -> Seq<u16> {
    Seq::new(bytes.len() / 2, |i: int| unit16(bytes[2 * i + 1], bytes[2 * i]))
}

/// The 32-bit units of `bytes`, each with its highest byte first.
pub open spec fn units32_be(bytes: Seq<u8>) -> Seq<u32> {
    Seq::new(
        bytes.len() / 4,
        |i: int| unit32(bytes[4 * i], bytes[4 * i + 1], bytes[4 * i + 2], bytes[4 * i + 3]),
    )
}

/// The text that `bytes` hold in UTF-8.
pub open spec fn utf8_text(bytes: Seq<u8>) -> Result<Seq<char>, Fault> {
    if valid_utf8(bytes) {
        Ok(utf8_chars(bytes))
    } else {
        Err(Fault::Utf8)
    }
}

/// The text that the code units `units` hold in UTF-16.
pub open spec fn units16_text(units: Seq<u16>) -> Result<Seq<char>, Fault> {
    match utf16_text(units) {
        Some(text) => Ok(text),
        None => Err(Fault::Utf16),
    }
}

/// The text that `bytes` hold in UTF-16, high bytes first.
pub open spec fn utf16be_text(bytes: Seq<u8>) -> Result<Seq<char>, Fault> {
    if bytes.len() % 2 != 0 {
        Err(Fault::Length)
    } else {
        units16_text(units16_be(bytes))
    }
}

/// The text that `bytes` hold in UTF-16, low bytes first.
pub open spec fn utf16le_text(bytes: Seq<u8>) -> Result<Seq<char>, Fault> {
    if bytes.len() % 2 != 0 {
        Err(Fault::Length)
    } else {
        units16_text(units16_le(bytes))
    }
}

/// The text that `bytes` hold in UTF-32, highest bytes first: one character
/// for each unit, if every unit is a scalar value.
pub open spec fn utf32be_text(bytes: Seq<u8>) -> Result<Seq<char>, Fault> {
    let units = units32_be(bytes);
    if bytes.len() % 4 != 0 {
        Err(Fault::Length)
    } else if forall|i: int| 0 <= i < units.len() ==> is_scalar_value(#[trigger] units[i]) {
        Ok(Seq::new(units.len(), |i: int| units[i] as char))
    } else {
        Err(Fault::Utf32)
    }
}

/// Whether `bytes` start with the mark of UTF-8.
pub open spec fn marked_utf8(bytes: Seq<u8>) -> bool {
    bytes.len() >= 3 && bytes[0] == 0xef && bytes[1] == 0xbb && bytes[2] == 0xbf
}

/// Whether `bytes` start with the mark of UTF-16, high bytes first.
pub open spec fn marked_utf16be(bytes: Seq<u8>) -> bool {
    bytes.len() >= 2 && bytes[0] == 0xfe && bytes[1] == 0xff
}

/// Whether `bytes` start with the mark of UTF-16, low bytes first.
pub open spec fn marked_utf16le(bytes: Seq<u8>) -> bool {
    bytes.len() >= 2 && bytes[0] == 0xff && bytes[1] == 0xfe
}

/// Whether `bytes` start with the mark of UTF-32, highest bytes first.
pub open spec fn marked_utf32be(bytes: Seq<u8>) -> bool {
    bytes.len() >= 4 && bytes[0] == 0 && bytes[1] == 0 && bytes[2] == 0xfe && bytes[3] == 0xff
}

/// The text that a buffer holds: the bytes behind its byte-order mark, read
/// in the encoding that the mark names.
pub open spec fn text_of(bytes: Seq<u8>) -> Result<Seq<char>, Fault> {
    if marked_utf8(bytes) {
        utf8_text(bytes.skip(3))
    } else if marked_utf16be(bytes) {
        utf16be_text(bytes.skip(2))
    } else if marked_utf16le(bytes) {
        utf16le_text(bytes.skip(2))
    } else if marked_utf32be(bytes) {
        utf32be_text(bytes.skip(4))
    } else {
        Err(Fault::Mark)
    }
}

/// A buffer that starts with the mark of UTF-8 is read as UTF-8: its text is
/// what the bytes behind the mark encode, if they are valid, and no other
/// error than that of UTF-8 can come of it.
pub proof fn lemma_utf8_mark_means_utf8(body: Seq<u8>)
    ensures
        text_of(seq![0xefu8, 0xbbu8, 0xbfu8] + body) == utf8_text(body),
        valid_utf8(body) ==> text_of(seq![0xefu8, 0xbbu8, 0xbfu8] + body) == Ok::<
            Seq<char>,
            Fault,
        >(utf8_chars(body)),
{
    let bytes = seq![0xefu8, 0xbbu8, 0xbfu8] + body;
    assert(bytes.skip(3) =~= body);
}

/// A buffer that starts with none of the four marks holds no text, whatever
/// else it holds: the error is that of the missing mark.
pub proof fn lemma_unmarked_is_refused(bytes: Seq<u8>)
    requires
        !marked_utf8(bytes),
        !marked_utf16be(bytes),
        !marked_utf16le(bytes),
        !marked_utf32be(bytes),
    ensures
        text_of(bytes) == Err::<Seq<char>, Fault>(Fault::Mark),
{
}

/// Whether the result `r` of a decoding is what `want` says: the same text, or
/// an error of the same kind.
pub open spec fn agrees(r: Result<String, Error>, want: Result<Seq<char>, Fault>) -> bool {
    match want {
        Ok(text) => r is Ok && r->Ok_0@ == text,
        Err(fault) => r is Err && r->Err_0.fault() == fault,
    }
}

/// Reads `bytes` as UTF-8 with `std::str::from_utf8`, which succeeds exactly
/// on valid UTF-8 and then gives the characters that the bytes encode.
#[verifier::external_body]
fn str_from_utf8(bytes: &[u8]) -> (r: Result<&str, Utf8Error>)
    ensures
        r is Ok <==> valid_utf8(bytes@),
        r is Ok ==> r->Ok_0@ == utf8_chars(bytes@),
{
    std::str::from_utf8(bytes)
}

/// Reads `units` as UTF-16 with `String::from_utf16`. Its result depends on
/// the units alone and is named `utf16_text`.
#[verifier::external_body]
fn string_from_utf16(units: &Vec<u16>) -> (r: Result<String, FromUtf16Error>)
    ensures
        match r {
            Ok(text) => utf16_text(units@) == Some(text@),
            Err(_) => utf16_text(units@) is None,
        },
{
    String::from_utf16(units)
}

/// The character with the code `v`, by `char::from_u32`, which gives one
/// exactly for the scalar values.
#[verifier::external_body]
fn char_from_u32(v: u32) -> (r: Option<char>)
    ensures
        is_scalar_value(v) ==> r == Some(v as char),
        !is_scalar_value(v) ==> r is None,
{
    char::from_u32(v)
}

/// Reads bytes as UTF-8.
pub fn decode_utf8(bytes: &[u8]) -> (r: Result<String, Error>)
    ensures
        agrees(r, utf8_text(bytes@)),
{
    match str_from_utf8(bytes) {
        Ok(raw) => Ok(raw.to_owned()),
        Err(e) => Err(Error::Utf8Error(e)),
    }
}

/// Reads code units as UTF-16.
fn decode_units16(units: &Vec<u16>) -> (r: Result<String, Error>)
    ensures
        agrees(r, units16_text(units@)),
{
    match string_from_utf16(units) {
        Ok(raw) => Ok(raw),
        Err(e) => Err(Error::Utf16Error(e)),
    }
}

/// Reads bytes as UTF-16, the high byte of each unit first.
pub fn decode_utf16be(bytes: &[u8]) -> (r: Result<String, Error>)
    ensures
        agrees(r, utf16be_text(bytes@)),
{
    if bytes.len() % 2 != 0 {
        return Err(Error::BadLength);
    }
    let count: usize = bytes.len() / 2;
    let mut units: Vec<u16> = Vec::new();
    let mut i: usize = 0;
    while i < count
        invariant
            count == bytes@.len() / 2,
            bytes@.len() <= usize::MAX,
            i <= count,
            units@ =~= units16_be(bytes@).take(i as int),
        decreases count - i,
    {
        units.push(((bytes[2 * i] as u16) << 8) | (bytes[2 * i + 1] as u16));
        i = i + 1;
    }
    assert(units@ =~= units16_be(bytes@));
    decode_units16(&units)
}

/// Reads bytes as UTF-16, the low byte of each unit first.
pub fn decode_utf16le(bytes: &[u8]) -> (r: Result<String, Error>)
    ensures
        agrees(r, utf16le_text(bytes@)),
{
    if bytes.len() % 2 != 0 {
        return Err(Error::BadLength);
    }
    let count: usize = bytes.len() / 2;
    let mut units: Vec<u16> = Vec::new();
    let mut i: usize = 0;
    while i < count
        invariant
            count == bytes@.len() / 2,
            bytes@.len() <= usize::MAX,
            i <= count,
            units@ =~= units16_le(bytes@).take(i as int),
        decreases count - i,
    {
        units.push(((bytes[2 * i + 1] as u16) << 8) | (bytes[2 * i] as u16));
        i = i + 1;
    }
    assert(units@ =~= units16_le(bytes@));
    decode_units16(&units)
}

/// Reads bytes as UTF-32, the highest byte of each unit first.
pub fn decode_utf32be(bytes: &[u8]) -> (r: Result<String, Error>)
    ensures
        agrees(r, utf32be_text(bytes@)),
{
    if bytes.len() % 4 != 0 {
        return Err(Error::BadLength);
    }
    let count: usize = bytes.len() / 4;
    let ghost units = units32_be(bytes@);
    let mut out = String::new();
    let mut i: usize = 0;
    while i < count
        invariant
            count == bytes@.len() / 4,
            bytes@.len() % 4 == 0,
            bytes@.len() <= usize::MAX,
            units == units32_be(bytes@),
            i <= count,
            forall|k: int| 0 <= k < i ==> is_scalar_value(#[trigger] units[k]),
            out@ =~= Seq::new(i as nat, |k: int| units[k] as char),
        decreases count - i,
    {
        let val: u32 = ((bytes[4 * i] as u32) << 24) | ((bytes[4 * i + 1] as u32) << 16) | ((bytes[4
            * i + 2] as u32) << 8) | (bytes[4 * i + 3] as u32);
        assert(val == units[i as int]);
        match char_from_u32(val) {
            Some(c) => {
                push_char(&mut out, c);
            },
            None => {
                assert(!is_scalar_value(units[i as int]));
                return Err(Error::Utf32Error);
            },
        }
        i = i + 1;
    }
    Ok(out)
}

/// Reads the text of a buffer: tells the encoding by the byte-order mark at
/// its start, and reads the bytes behind the mark in it.
pub fn decode(bytes: &[u8]) -> (r: Result<String, Error>)
    ensures
        agrees(r, text_of(bytes@)),
{
    let n: usize = bytes.len();
    if n >= 3 && bytes[0] == 0xef && bytes[1] == 0xbb && bytes[2] == 0xbf {
        decode_utf8(slice_subrange(bytes, 3, n))
    } else if n >= 2 && bytes[0] == 0xfe && bytes[1] == 0xff {
        decode_utf16be(slice_subrange(bytes, 2, n))
    } else if n >= 2 && bytes[0] == 0xff && bytes[1] == 0xfe {
        decode_utf16le(slice_subrange(bytes, 2, n))
    } else if n >= 4 && bytes[0] == 0 && bytes[1] == 0 && bytes[2] == 0xfe && bytes[3] == 0xff {
        decode_utf32be(slice_subrange(bytes, 4, n))
    } else {
        Err(Error::BadBOM)
    }
}

/// The character that stands between two lines.
pub const SEPARATOR: char = '\n';

/// The lines of `text`: the pieces between its separators. A text without a
/// separator is one line, and so is the empty text.
pub open spec fn lines_of(text: Seq<char>) -> Seq<Seq<char>>
    decreases text.len(),
{
    match text.index_of_first(SEPARATOR) {
        Some(i) if 0 <= i < text.len() => seq![text.subrange(0, i)] + lines_of(
            text.subrange(i + 1, text.len() as int),
        ),
        _ => seq![text],
    }
}

/// The lines that are still to come when `rest` is what is left of a text:
/// none once the last line was handed out.
pub open spec fn pending(rest: Option<Seq<char>>) -> Seq<Seq<char>> {
    match rest {
        Some(text) => lines_of(text),
        None => Seq::empty(),
    }
}

/// How much is still to come when `rest` is what is left of a text: a
/// measure that every line handed out makes smaller.
pub open spec fn backlog(rest: Option<Seq<char>>) -> nat {
    match rest {
        Some(text) => text.len() + 1,
        None => 0,
    }
}

/// The first line of a text ends at its first separator, and the other
/// lines are those of the text behind it; a text without a separator is its
/// own single line.
pub proof fn lemma_first_line(text: Seq<char>)
    ensures
        match text.index_of_first(SEPARATOR) {
            Some(i) => 0 <= i < text.len() && lines_of(text) == seq![text.subrange(0, i)]
                + lines_of(text.subrange(i + 1, text.len() as int)),
            None => lines_of(text) == seq![text],
        },
{
    text.index_of_first_ensures(SEPARATOR);
}

/// The text that `lines` make up: the lines with a separator between each
/// two of them.
pub open spec fn joined(lines: Seq<Seq<char>>) -> Seq<char>
    decreases lines.len(),
{
    if lines.len() == 0 {
        Seq::empty()
    } else if lines.len() == 1 {
        lines[0]
    } else {
        lines[0].push(SEPARATOR) + joined(lines.drop_first())
    }
}

/// A text without a separator is exactly one line.
pub proof fn lemma_one_line_without_separator(text: Seq<char>)
    requires
        !text.contains(SEPARATOR),
    ensures
        lines_of(text) == seq![text],
{
    text.index_of_first_ensures(SEPARATOR);
}

/// A text is split at its separators and nowhere else: it has at least one
/// line, no line holds a separator, and the lines joined by separators are
/// the text again.
pub proof fn lemma_lines_split_at_separators(text: Seq<char>)
    ensures
        lines_of(text).len() >= 1,
        forall|k: int|
            0 <= k < lines_of(text).len() ==> !(#[trigger] lines_of(text)[k]).contains(SEPARATOR),
        joined(lines_of(text)) == text,
    decreases text.len(),
{
    lemma_first_line(text);
    text.index_of_first_ensures(SEPARATOR);
    match text.index_of_first(SEPARATOR) {
        Some(i) => {
            let head = text.subrange(0, i);
            let tail = text.subrange(i + 1, text.len() as int);
            let rest = lines_of(tail);
            lemma_lines_split_at_separators(tail);
            assert(lines_of(text) == seq![head] + rest);
            assert(!head.contains(SEPARATOR)) by {
                if head.contains(SEPARATOR) {
                    let j = choose|j: int| 0 <= j < head.len() && head[j] == SEPARATOR;
                    assert(text[j] == SEPARATOR);
                }
            }
            assert forall|k: int| 0 <= k < lines_of(text).len() implies !(#[trigger] lines_of(
                text,
            )[k]).contains(SEPARATOR) by {
                if k > 0 {
                    assert(lines_of(text)[k] == rest[k - 1]);
                }
            }
            assert(lines_of(text).drop_first() =~= rest);
            assert(head.push(SEPARATOR) + tail =~= text);
        },
        None => {},
    }
}

/// A text has no more characters than its UTF-8 encoding has bytes.
pub proof fn lemma_chars_fit(text: Seq<char>)
    ensures
        text.len() <= encode_utf8(text).len(),
    decreases text.len(),
{
    if text.len() > 0 {
        lemma_chars_fit(text.drop_first());
        assert(encode_scalar(text[0] as u32).len() >= 1);
    }
}

/// The lines in `lines` as mathematical values.
pub open spec fn lines_view(lines: Seq<&str>) -> Seq<Seq<char>> {
    Seq::new(lines.len(), |i: int| lines[i]@)
}

/// Splits `text` at the first `at` with `str::split_once`: the text before
/// it, which holds no `at`, and the text behind it; `None` if there is none.
#[verifier::external_body]
fn split_once<'a>(text: &'a str, at: char) -> (r: Option<(&'a str, &'a str)>)
    ensures
        match r {
            Some((head, tail)) => !head@.contains(at) && text@ == head@.push(at) + tail@,
            None => !text@.contains(at),
        },
{
    text.split_once(at)
}

/// The lines of a text, one at a time. Lines are separated, not ended: every
/// text has at least one line.
pub struct Lines<'a> {
    raw: Option<&'a str>,
}

impl<'a> View for Lines<'a> {
    type V = Option<Seq<char>>;

    /// The text whose lines are still to come, or `None` behind the last.
    closed spec fn view(&self) -> Option<Seq<char>> {
        match self.raw {
            Some(text) => Some(text@),
            None => None,
        }
    }
}

impl<'a> Lines<'a> {
    /// The lines of `raw`, none of them handed out yet.
    pub fn new(raw: &'a str) -> (lines: Self)
        ensures
            lines@ == Some(raw@),
    {
        Self { raw: Some(raw) }
    }

    /// Hands out the next line: the text up to the first separator, leaving
    /// what stands behind it; or the whole text if it has none, leaving
    /// nothing. `None` once the last line was handed out.
    pub fn next(&mut self) -> (r: Option<&'a str>)
        ensures
            match old(self)@ {
                None => r is None && final(self)@ is None,
                Some(text) => match text.index_of_first(SEPARATOR) {
                    Some(i) => r is Some && r->0@ == text.subrange(0, i) && final(self)@ == Some(
                        text.subrange(i + 1, text.len() as int),
                    ),
                    None => r is Some && r->0@ == text && final(self)@ is None,
                },
            },
    {
        match self.raw {
            None => None,
            Some(text) => {
                proof {
                    text@.index_of_first_ensures(SEPARATOR);
                }
                match split_once(text, SEPARATOR) {
                    None => {
                        self.raw = None;
                        Some(text)
                    },
                    Some((head, tail)) => {
                        proof {
                            let at = head@.len() as int;
                            assert(text@[at] == SEPARATOR);
                            assert(forall|j: int| 0 <= j < at ==> text@[j] == head@[j]);
                            assert(text@.contains(SEPARATOR));
                            let i = text@.index_of_first(SEPARATOR)->0;
                            if i < at {
                                assert(head@[i] == SEPARATOR);
                                assert(head@.contains(SEPARATOR));
                            }
                            assert(i == at);
                            assert(head@ =~= text@.subrange(0, at));
                            assert(tail@ =~= text@.subrange(at + 1, text@.len() as int));
                        }
                        self.raw = Some(tail);
                        Some(head)
                    },
                }
            },
        }
    }

    /// All the lines that are still to come, in order.
    pub fn collect(self) -> (lines: Vec<&'a str>)
        ensures
            lines_view(lines@) == pending(self@),
    {
        let mut rest = self;
        let mut lines: Vec<&'a str> = Vec::new();
        loop
            invariant
                pending(self@) =~= lines_view(lines@) + pending(rest@),
            ensures
                lines_view(lines@) == pending(self@),
            decreases backlog(rest@),
        {
            let ghost before = rest@;
            let ghost seen = lines@;
            proof {
                if before is Some {
                    before->0.index_of_first_ensures(SEPARATOR);
                }
            }
            match rest.next() {
                None => {
                    assert(lines_view(lines@) =~= pending(self@));
                    break;
                },
                Some(line) => {
                    lines.push(line);
                    assert(lines_view(lines@) =~= lines_view(seen).push(line@));
                    assert(pending(before) =~= seq![line@] + pending(rest@));
                },
            }
        }
        lines
    }
}

} // verus!
