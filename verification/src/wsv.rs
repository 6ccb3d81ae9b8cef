//! The row tokenizer: one line of text in, one row of cells out.
//!
//! The grammar is a character-level state machine: `move_of` is its table of
//! transitions, `advance` and `finish` say what they do to the cells, and
//! `row_of` runs them over a whole line. `parse_row` is proved to compute
//! exactly `row_of`.

use vstd::prelude::*;
use vstd::utf8::encode_utf8;
use crate::reliabletext::lemma_chars_fit;

verus! {

/// Where the tokenizer stands between two characters.
#[derive(Clone, Copy, PartialEq, Eq, Debug, Structural)]
pub enum Mode {
    /// Between cells.
    Ready,
    /// A bare `-` has been read.
    Null,
    /// Inside an unquoted value.
    Unquoted,
    /// Inside a quoted value.
    Quoted,
    /// Just behind a `"` that may close a quoted value.
    QuotedEnd,
    /// Behind the `/` that follows such a `"`.
    QuotedNewline,
}

/// The tokenizer's state: its mode, the text of the cell under way, and the
/// cells finished so far.
pub struct Scan {
    pub mode: Mode,
    pub cell: Seq<char>,
    pub cells: Seq<Option<Seq<char>>>,
}

/// What one character does in a mode, whatever has been read before.
#[derive(Clone, Copy, PartialEq, Eq, Debug)]
pub enum Move {
    /// Go to the given mode; the character adds nothing.
    Go(Mode),
    /// Go to the given mode, with the given character added to the cell
    /// under way.
    Keep(Mode, char),
    /// The `-` before this character was no null: an unquoted cell starts
    /// with the `-` and the given character.
    KeepDash(char),
    /// The `-` before this character was a null cell, which ends here.
    EmitNull,
    /// The cell under way ends here.
    EmitCell,
    /// A comment starts here: the rest of the line is not read.
    Comment,
    /// The character is not allowed here.
    Invalid,
}

/// What one character does to the state.
pub enum Advance {
    /// Go on in the given state.
    Continue(Scan),
    /// A comment starts here: the rest of the line is not read.
    Comment,
    /// The character is not allowed here.
    Invalid,
}

/// The characters with the Unicode property `White_Space`.
pub open spec fn is_space(c: char) -> bool {
    let u = c as u32;
    ||| 0x09 <= u <= 0x0d
    ||| u == 0x20
    ||| u == 0x85
    ||| u == 0xa0
    ||| u == 0x1680
    ||| 0x2000 <= u <= 0x200a
    ||| u == 0x2028
    ||| u == 0x2029
    ||| u == 0x202f
    ||| u == 0x205f
    ||| u == 0x3000
}

/// The state before the first character of a line.
pub open spec fn start() -> Scan {
    Scan { mode: Mode::Ready, cell: Seq::empty(), cells: Seq::empty() }
}

/// The state `s` in another mode.
pub open spec fn turn(s: Scan, mode: Mode) -> Scan {
    Scan { mode, cell: s.cell, cells: s.cells }
}

/// The state `s` in another mode, with `c` added to the cell under way.
pub open spec fn buffer(s: Scan, mode: Mode, c: char) -> Scan {
    Scan { mode, cell: s.cell.push(c), cells: s.cells }
}

/// The state `s` back in `Ready`, with `cell` added to the finished cells.
pub open spec fn emit(s: Scan, cell: Option<Seq<char>>) -> Scan {
    Scan { mode: Mode::Ready, cell: Seq::empty(), cells: s.cells.push(cell) }
}

/// The grammar: what the character `c` does in the mode `mode`.
pub open spec fn move_of(mode: Mode, c: char) -> Move {
    match mode {
        Mode::Ready => if c == '"' {
            Move::Go(Mode::Quoted)
        } else if c == '-' {
            Move::Go(Mode::Null)
        } else if c == '#' {
            Move::Comment
        } else if is_space(c) {
            Move::Go(Mode::Ready)
        } else {
            Move::Keep(Mode::Unquoted, c)
        },
        Mode::Null => if c == '"' {
            Move::Invalid
        } else if c == '#' {
            Move::Comment
        } else if is_space(c) {
            Move::EmitNull
        } else {
            Move::KeepDash(c)
        },
        Mode::Unquoted => if c == '"' {
            Move::Invalid
        } else if c == '#' {
            Move::Comment
        } else if is_space(c) {
            Move::EmitCell
        } else {
            Move::Keep(Mode::Unquoted, c)
        },
        Mode::Quoted => if c == '"' {
            Move::Go(Mode::QuotedEnd)
        } else {
            Move::Keep(Mode::Quoted, c)
        },
        Mode::QuotedEnd => if c == '"' {
            Move::Keep(Mode::Quoted, '"')
        } else if c == '/' {
            Move::Go(Mode::QuotedNewline)
        } else if c == '#' {
            Move::Comment
        } else if is_space(c) {
            Move::EmitCell
        } else {
            Move::Invalid
        },
        Mode::QuotedNewline => if c == '"' {
            Move::Keep(Mode::Quoted, '\n')
        } else {
            Move::Invalid
        },
    }
}

/// What the move `m` does to the state `s`.
pub open spec fn apply(s: Scan, m: Move) -> Advance {
    match m {
        Move::Go(mode) => Advance::Continue(turn(s, mode)),
        Move::Keep(mode, c) => Advance::Continue(buffer(s, mode, c)),
        Move::KeepDash(c) => Advance::Continue(
            buffer(buffer(s, Mode::Unquoted, '-'), Mode::Unquoted, c),
        ),
        Move::EmitNull => Advance::Continue(emit(s, None)),
        Move::EmitCell => Advance::Continue(emit(s, Some(s.cell))),
        Move::Comment => Advance::Comment,
        Move::Invalid => Advance::Invalid,
    }
}

/// The transition that the character `c` makes from the state `s`.
pub open spec fn advance(s: Scan, c: char) -> Advance {
    apply(s, move_of(s.mode, c))
}

/// The row that results when reading stops in the state `s`, at the end of a
/// line of `len` characters or at a comment: the cell under way is finished,
/// and an open quotation is an error at offset `len`.
pub open spec fn finish(s: Scan, len: nat) -> Result<Seq<Option<Seq<char>>>, nat> {
    match s.mode {
        Mode::Ready => Ok(s.cells),
        Mode::Null => Ok(s.cells.push(None)),
        Mode::Unquoted | Mode::QuotedEnd => Ok(s.cells.push(Some(s.cell))),
        Mode::Quoted | Mode::QuotedNewline => Err(len),
    }
}

/// The row that `line` gives when read from offset `i` on in the state `s`,
/// or the offset of the first character that is not allowed.
pub open spec fn scan_from(line: Seq<char>, i: int, s: Scan) -> Result<Seq<Option<Seq<char>>>, nat>
    decreases line.len() - i,
{
    if i < 0 || i >= line.len() {
        finish(s, line.len())
    } else {
        match advance(s, line[i]) {
            Advance::Continue(next) => scan_from(line, i + 1, next),
            Advance::Comment => finish(s, line.len()),
            Advance::Invalid => Err(i as nat),
        }
    }
}

/// The row that `line` denotes, or the offset, counted in characters from 0,
/// of the first character that is not allowed.
pub open spec fn row_of(line: Seq<char>) -> Result<Seq<Option<Seq<char>>>, nat> {
    scan_from(line, 0, start())
}

/// A cell as a mathematical value.
pub open spec fn cell_view(c: Option<String>) -> Option<Seq<char>> {
    match c {
        Some(s) => Some(s@),
        None => None,
    }
}

/// A row as a mathematical value.
pub open spec fn row_view(r: Seq<Option<String>>) -> Seq<Option<Seq<char>>> {
    Seq::new(r.len(), |i: int| cell_view(r[i]))
}

/// Scanning a line whose characters up to `k` are white space, and which
/// ends at `k` or has `#` there, gives no cell from any offset up to `k`.
proof fn lemma_blank_from(line: Seq<char>, k: int, i: int)
    requires
        0 <= i <= k <= line.len(),
        forall|j: int| 0 <= j < k ==> is_space(#[trigger] line[j]),
        k == line.len() || line[k] == '#',
    ensures
        scan_from(line, i, start()) == Ok::<Seq<Option<Seq<char>>>, nat>(Seq::empty()),
    decreases k - i,
{
    if i < k {
        assert(is_space(line[i]));
        assert(advance(start(), line[i]) == Advance::Continue(start()));
        lemma_blank_from(line, k, i + 1);
    }
}

/// A line that holds nothing but white space, or nothing but white space
/// before a comment, has no cells. `k` is where the white space ends: the
/// line's length, or the offset of the `#`.
pub proof fn lemma_blank_line_has_no_cells(line: Seq<char>, k: int)
    requires
        0 <= k <= line.len(),
        forall|j: int| 0 <= j < k ==> is_space(#[trigger] line[j]),
        k == line.len() || line[k] == '#',
    ensures
        row_of(line) == Ok::<Seq<Option<Seq<char>>>, nat>(Seq::empty()),
{
    lemma_blank_from(line, k, 0);
}

/// An error found from offset `i` on lies at or behind `i`, and not behind
/// the end of the line.
proof fn lemma_error_in_line_from(line: Seq<char>, i: int, s: Scan)
    requires
        0 <= i <= line.len(),
    ensures
        scan_from(line, i, s) matches Err(at) ==> i <= at <= line.len(),
    decreases line.len() - i,
{
    if i < line.len() {
        match advance(s, line[i]) {
            Advance::Continue(next) => {
                lemma_error_in_line_from(line, i + 1, next);
            },
            _ => {},
        }
    }
}

/// The offset of an error is that of a character of the line, or the line's
/// length.
pub proof fn lemma_error_in_line(line: Seq<char>)
    ensures
        row_of(line) matches Err(at) ==> at <= line.len(),
{
    lemma_error_in_line_from(line, 0, start());
}

/// Behind `head`, read from offset `i` in the state `s` to a row, a comment
/// changes nothing.
proof fn lemma_comment_from(head: Seq<char>, rest: Seq<char>, i: int, s: Scan)
    requires
        0 <= i <= head.len(),
        scan_from(head, i, s) is Ok,
    ensures
        scan_from(head.push('#') + rest, i, s) == scan_from(head, i, s),
    decreases head.len() - i,
{
    let full = head.push('#') + rest;
    if i < head.len() {
        assert(full[i] == head[i]);
        match advance(s, head[i]) {
            Advance::Continue(next) => {
                lemma_comment_from(head, rest, i + 1, next);
            },
            _ => {},
        }
    } else {
        assert(full[i] == '#');
    }
}

/// A comment behind a line that has a row leaves the row as it is, whatever
/// the comment holds: everything from the `#` on is discarded.
pub proof fn lemma_comment_is_discarded(head: Seq<char>, rest: Seq<char>)
    requires
        row_of(head) is Ok,
    ensures
        row_of(head.push('#') + rest) == row_of(head),
{
    lemma_comment_from(head, rest, 0, start());
}

/// Whether `c` is white space, as `char::is_whitespace` tells it. The contract
/// lists the code points that Unicode gives the property `White_Space`, which
/// is what that method is documented to test.
#[verifier::external_body]
fn is_whitespace(c: char) -> (r: bool)
    ensures
        r == is_space(c),
{
    c.is_whitespace()
}

/// Appends `c` to `s` with `String::push`, which adds the character at the end.
#[verifier::external_body]
pub(crate) fn push_char(s: &mut String, c: char)
    ensures
        final(s)@ == old(s)@.push(c),
{
    s.push(c)
}

/// What the character `c` does in the mode `mode`: the grammar, one
/// transition at a time.
pub fn transition(mode: Mode, c: char) -> (m: Move)
    ensures
        m == move_of(mode, c),
{
    match mode {
        Mode::Ready => {
            if c == '"' {
                Move::Go(Mode::Quoted)
            } else if c == '-' {
                Move::Go(Mode::Null)
            } else if c == '#' {
                Move::Comment
            } else if is_whitespace(c) {
                Move::Go(Mode::Ready)
            } else {
                Move::Keep(Mode::Unquoted, c)
            }
        },
        Mode::Null => {
            if c == '"' {
                Move::Invalid
            } else if c == '#' {
                Move::Comment
            } else if is_whitespace(c) {
                Move::EmitNull
            } else {
                Move::KeepDash(c)
            }
        },
        Mode::Unquoted => {
            if c == '"' {
                Move::Invalid
            } else if c == '#' {
                Move::Comment
            } else if is_whitespace(c) {
                Move::EmitCell
            } else {
                Move::Keep(Mode::Unquoted, c)
            }
        },
        Mode::Quoted => {
            if c == '"' {
                Move::Go(Mode::QuotedEnd)
            } else {
                Move::Keep(Mode::Quoted, c)
            }
        },
        Mode::QuotedEnd => {
            if c == '"' {
                Move::Keep(Mode::Quoted, '"')
            } else if c == '/' {
                Move::Go(Mode::QuotedNewline)
            } else if c == '#' {
                Move::Comment
            } else if is_whitespace(c) {
                Move::EmitCell
            } else {
                Move::Invalid
            }
        },
        Mode::QuotedNewline => {
            if c == '"' {
                Move::Keep(Mode::Quoted, '\n')
            } else {
                Move::Invalid
            }
        },
    }
}

/// Ends a row where reading stopped: finishes the cell under way, and reports
/// a quotation that was left open at offset `len`.
fn close_row(mode: Mode, row: Vec<Option<String>>, cell: String, len: usize) -> (r: Result<
    Vec<Option<String>>,
    usize,
>)
    ensures
        match r {
            Ok(cells) => finish(Scan { mode, cell: cell@, cells: row_view(row@) }, len as nat)
                == Ok::<Seq<Option<Seq<char>>>, nat>(row_view(cells@)),
            Err(at) => finish(Scan { mode, cell: cell@, cells: row_view(row@) }, len as nat)
                == Err::<Seq<Option<Seq<char>>>, nat>(at as nat),
        },
{
    let mut row = row;
    let ghost before = row@;
    match mode {
        Mode::Ready => {},
        Mode::Quoted | Mode::QuotedNewline => {
            return Err(len);
        },
        Mode::Null => {
            row.push(None);
        },
        Mode::Unquoted | Mode::QuotedEnd => {
            row.push(Some(cell));
        },
    }
    proof {
        if row@.len() > before.len() {
            assert(row_view(row@) =~= row_view(before).push(cell_view(row@.last())));
        }
    }
    Ok(row)
}

/// Splits one line into its cells.
///
/// Returns the row that the line denotes, or the offset of the first
/// character that the grammar does not allow, counted in characters from 0
/// (the line's length where a quotation is left open).
pub fn parse_row(line: &str) -> (r: Result<Vec<Option<String>>, usize>)
    ensures
        match r {
            Ok(row) => row_of(line@) == Ok::<Seq<Option<Seq<char>>>, nat>(row_view(row@)),
            Err(at) => row_of(line@) == Err::<Seq<Option<Seq<char>>>, nat>(at as nat),
        },
{
    let size: usize = line.as_bytes().len();
    proof {
        assert(encode_utf8(line@).len() == size);
        lemma_chars_fit(line@);
    }
    let mut row: Vec<Option<String>> = Vec::new();
    let mut cell: String = String::new();
    let mut mode: Mode = Mode::Ready;
    let mut i: usize = 0;
    assert(row_view(row@) =~= Seq::empty());
    for ch in it: line.chars()
        invariant
            line@.len() <= usize::MAX,
            it.seq() == line@,
            i == it.index(),
            mode == Mode::Ready || mode == Mode::Null ==> cell@ =~= Seq::empty(),
            row_of(line@) == scan_from(
                line@,
                i as int,
                Scan { mode, cell: cell@, cells: row_view(row@) },
            ),
    {
        let ghost s = Scan { mode, cell: cell@, cells: row_view(row@) };
        let ghost old_row = row@;
        assert(ch == line@[i as int]);
        match transition(mode, ch) {
            Move::Go(next) => {
                mode = next;
            },
            Move::Keep(next, c) => {
                mode = next;
                push_char(&mut cell, c);
            },
            Move::KeepDash(c) => {
                mode = Mode::Unquoted;
                push_char(&mut cell, '-');
                push_char(&mut cell, c);
            },
            Move::EmitNull => {
                mode = Mode::Ready;
                row.push(None);
            },
            Move::EmitCell => {
                mode = Mode::Ready;
                row.push(Some(cell));
                cell = String::new();
            },
            Move::Comment => {
                return close_row(mode, row, cell, i);
            },
            Move::Invalid => {
                return Err(i);
            },
        }
        proof {
            if row@.len() > old_row.len() {
                assert(row_view(row@) =~= row_view(old_row).push(cell_view(row@.last())));
            }
            let next = Scan { mode, cell: cell@, cells: row_view(row@) };
            assert(advance(s, ch) == Advance::Continue(next));
        }
        i = i + 1;
    }
    close_row(mode, row, cell, i)
}

} // verus!
