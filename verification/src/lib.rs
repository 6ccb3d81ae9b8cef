//! Reader for a two-layer text format: rows of whitespace-separated cells,
//! and a tree of elements and attributes written as such rows.
//!
//! `reliabletext` turns bytes into text and lines, `wsv` turns a line into a
//! row of cells, and `sml` turns rows into a tree. `parse` runs the three in
//! a row, and `tree_of` says what it returns.

use vstd::prelude::*;
use vstd::utf8::encode_utf8;

pub mod reliabletext;
pub mod sml;
pub mod wsv;

pub use sml::Element;
use crate::reliabletext::{
    backlog, decode, lemma_chars_fit, lemma_first_line, lines_of, pending, text_of, Lines,
};
use crate::sml::{
    document_of, feed, feed_row, fresh, option_view, read_rows, Decoder, ElementView, Stepped,
};
use crate::wsv::{parse_row, row_of};

verus! {

/// Why a buffer holds no document.
#[derive(Debug)]
pub enum Error {
    /// The buffer holds no text.
    ReliableTextError(reliabletext::Error),
    /// A line is no row: the line's index, and the offset in it of the first
    /// character that is not allowed.
    WsvError(usize, usize),
    /// The rows are no document: the index of the line in error, and the error.
    SmlError(usize, sml::Error),
}

/// The document that the lines from index `i` on complete, when the lines
/// before them have come as far as `p`; or the first error. A line is first
/// split into cells, and its row then fed to the document.
pub open spec fn read_lines(lines: Seq<Seq<char>>, i: int, p: Stepped) -> Result<ElementView, Error>
    decreases lines.len() - i,
{
    if i < 0 || i >= lines.len() {
        match p.root {
            Some(root) => Ok(root),
            None => Err(Error::SmlError(0, sml::Error::MissingEnd)),
        }
    } else {
        match row_of(lines[i]) {
            Err(at) => Err(Error::WsvError(i as usize, at as usize)),
            Ok(row) => match feed(p, row) {
                Ok(next) => read_lines(lines, i + 1, next),
                Err(e) => Err(Error::SmlError(i as usize, e)),
            },
        }
    }
}

/// The document that `text` denotes, or the first error in it.
pub open spec fn tree_of(text: Seq<char>) -> Result<ElementView, Error> {
    read_lines(lines_of(text), 0, fresh())
}

/// The structural error `e` at the row `at`, as an error of a whole buffer.
pub open spec fn at_line(e: (nat, sml::Error)) -> Error {
    Error::SmlError(e.0 as usize, e.1)
}

/// Lines that all split into rows read from the line `i` on as their rows do.
proof fn lemma_lines_as_rows_from(
    lines: Seq<Seq<char>>,
    rows: Seq<Seq<Option<Seq<char>>>>,
    i: int,
    p: Stepped,
)
    requires
        0 <= i <= lines.len() == rows.len(),
        forall|j: int|
            0 <= j < lines.len() ==> row_of(#[trigger] lines[j]) == Ok::<
                Seq<Option<Seq<char>>>,
                nat,
            >(rows[j]),
    ensures
        read_lines(lines, i, p) == match read_rows(rows, i, p) {
            Ok(root) => Ok::<ElementView, Error>(root),
            Err(e) => Err(at_line(e)),
        },
    decreases lines.len() - i,
{
    if i < lines.len() {
        assert(row_of(lines[i]) == Ok::<Seq<Option<Seq<char>>>, nat>(rows[i]));
        match feed(p, rows[i]) {
            Ok(next) => {
                lemma_lines_as_rows_from(lines, rows, i + 1, next);
            },
            Err(_) => {},
        }
    }
}

/// Reading a text and decoding its rows do not differ: where every line
/// splits into a row, the text denotes the document that the rows denote,
/// and is in error where they are, with the same error at the same line.
pub proof fn lemma_text_agrees_with_rows(text: Seq<char>, rows: Seq<Seq<Option<Seq<char>>>>)
    requires
        lines_of(text).len() == rows.len(),
        forall|j: int|
            0 <= j < rows.len() ==> row_of(#[trigger] lines_of(text)[j]) == Ok::<
                Seq<Option<Seq<char>>>,
                nat,
            >(rows[j]),
    ensures
        tree_of(text) == match document_of(rows) {
            Ok(root) => Ok::<ElementView, Error>(root),
            Err(e) => Err(at_line(e)),
        },
{
    lemma_lines_as_rows_from(lines_of(text), rows, 0, fresh());
}

/// Whether the result `r` is what `want` says: an element of that value, or
/// that error.
pub open spec fn yields(r: Result<Element, Error>, want: Result<ElementView, Error>) -> bool {
    match want {
        Ok(root) => r is Ok && r->Ok_0@ == root,
        Err(e) => r == Err::<Element, Error>(e),
    }
}

/// Reads a document from its text.
///
/// Returns the root element that `tree_of` gives, or its error: every line is
/// split into cells, and its row is fed to the document.
pub fn parse_text(txt: &str) -> (r: Result<Element, Error>)
    ensures
        yields(r, tree_of(txt@)),
{
    let ghost all = lines_of(txt@);
    let size: usize = txt.as_bytes().len();
    proof {
        assert(encode_utf8(txt@).len() == size);
        lemma_chars_fit(txt@);
        lemma_first_line(txt@);
    }
    let mut lines = Lines::new(txt);
    let mut decoder = Decoder::new();
    let mut result: Option<Element> = None;
    let mut line_no: usize = 0;
    let ghost mut idx: int = 0;
    let mut current = lines.next();
    assert(all.skip(1) =~= pending(lines@));
    while current.is_some()
        invariant
            all == lines_of(txt@),
            0 <= idx <= all.len(),
            current is None ==> idx == all.len(),
            current is Some ==> idx < all.len() && line_no == idx && all[idx] == current->0@
                && all.skip(idx + 1) =~= pending(lines@),
            line_no + backlog(lines@) <= txt@.len() <= usize::MAX,
            tree_of(txt@) == read_lines(
                all,
                idx,
                Stepped { stack: decoder@, root: option_view(result) },
            ),
        decreases all.len() - idx,
    {
        let line = current.unwrap();
        let row = match parse_row(line) {
            Ok(row) => row,
            Err(at) => {
                return Err(Error::WsvError(line_no, at));
            },
        };
        match feed_row(&mut decoder, &mut result, row) {
            Ok(()) => {},
            Err(e) => {
                return Err(Error::SmlError(line_no, e));
            },
        }
        proof {
            if lines@ is Some {
                lemma_first_line(lines@->0);
            }
        }
        let ghost rest = pending(lines@);
        current = lines.next();
        proof {
            idx = idx + 1;
            if current is Some {
                assert(rest.len() > 0 && idx < all.len());
                assert(all[idx] == all.skip(idx)[0]);
                assert(all.skip(idx + 1) =~= rest.skip(1));
            } else {
                assert(all.skip(idx).len() == 0);
            }
        }
        if current.is_some() {
            line_no = line_no + 1;
        }
    }
    match result {
        Some(root) => Ok(root),
        None => Err(Error::SmlError(0, sml::Error::MissingEnd)),
    }
}

/// Reads a document from a buffer: the text behind its byte-order mark, as
/// `parse_text` reads it. A buffer that holds no text gives the text
/// layer's error.
pub fn parse(bytes: &[u8]) -> (r: Result<Element, Error>)
    ensures
        match text_of(bytes@) {
            Ok(text) => yields(r, tree_of(text)),
            Err(fault) => r matches Err(Error::ReliableTextError(e)) && e.fault() == fault,
        },
{
    match decode(bytes) {
        Ok(txt) => parse_text(txt.as_str()),
        Err(e) => Err(Error::ReliableTextError(e)),
    }
}

} // verus!
