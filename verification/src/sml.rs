//! The structural layer: rows in, a tree of elements and attributes out.
//!
//! `step` says what one row does to the stack of open elements.
//! `Decoder::add_row` is proved to compute it, and `parse_rows` to run it over
//! a whole document (`document_of`).

use vstd::prelude::*;
use vstd::string::*;
use crate::wsv::{cell_view, row_view};

verus! {

/// A child of an element.
#[derive(Eq, PartialEq, Debug)]
pub enum Node {
    /// A nested element.
    Elt(Element),
    /// An attribute: its name and its values.
    Attr(String, Vec<Option<String>>),
}

/// An element: its title and its children, in the order of the rows.
#[derive(Eq, PartialEq, Debug)]
pub struct Element {
    pub title: String,
    pub children: Vec<Node>,
}

/// Why rows do not form a document.
#[derive(Clone, Copy, PartialEq, Eq, Debug, Structural)]
pub enum Error {
    /// The rows end before the root element is closed.
    MissingEnd,
    /// A closing row without an open element.
    ExtraEnd,
    /// A closing row or an attribute outside any element.
    BadRoot,
    /// An element's title is null.
    NullTitle,
    /// An attribute's name is null.
    NullAttribute,
    /// The document holds no element.
    EmptySml,
    /// A row with cells behind the end of the root element.
    TooManyRoots,
}

/// A node as a mathematical value.
pub enum NodeView {
    Elt(ElementView),
    Attr(Seq<char>, Seq<Option<Seq<char>>>),
}

/// An element as a mathematical value.
pub struct ElementView {
    pub title: Seq<char>,
    pub children: Seq<NodeView>,
}

/// The value of an element.
pub open spec fn element_view(e: Element) -> ElementView
    decreases e,
{
    ElementView {
        title: e.title@,
        children: Seq::new(
            e.children@.len(),
            |i: int|
                if 0 <= i < e.children@.len() {
                    node_view(e.children@[i])
                } else {
                    arbitrary()
                },
        ),
    }
}

/// The value of a node.
pub open spec fn node_view(n: Node) -> NodeView
    decreases n,
{
    match n {
        Node::Elt(e) => NodeView::Elt(element_view(e)),
        Node::Attr(name, values) => NodeView::Attr(name@, row_view(values@)),
    }
}

impl View for Element {
    type V = ElementView;

    open spec fn view(&self) -> ElementView {
        element_view(*self)
    }
}

impl View for Node {
    type V = NodeView;

    open spec fn view(&self) -> NodeView {
        node_view(*self)
    }
}

/// The values of the elements of a stack, the outermost first.
pub open spec fn stack_view(s: Seq<Element>) -> Seq<ElementView> {
    Seq::new(s.len(), |i: int| s[i]@)
}

/// The value of what a step hands out.
pub open spec fn option_view(e: Option<Element>) -> Option<ElementView> {
    match e {
        Some(e) => Some(e@),
        None => None,
    }
}

/// Whether `s` is the word "end", in upper or lower case letters.
pub open spec fn is_end(s: Seq<char>) -> bool {
    &&& s.len() == 3
    &&& (s[0] == 'e' || s[0] == 'E')
    &&& (s[1] == 'n' || s[1] == 'N')
    &&& (s[2] == 'd' || s[2] == 'D')
}

/// An element with the given title and no children.
pub open spec fn opened(title: Seq<char>) -> ElementView {
    ElementView { title, children: Seq::empty() }
}

/// The element `e` with `child` added behind its children.
pub open spec fn adopt(e: ElementView, child: NodeView) -> ElementView {
    ElementView { title: e.title, children: e.children.push(child) }
}

/// The stack `stack` with `child` added to its innermost element.
pub open spec fn attach(stack: Seq<ElementView>, child: NodeView) -> Seq<ElementView>
    recommends
        stack.len() > 0,
{
    stack.drop_last().push(adopt(stack.last(), child))
}

/// What a step leaves: the stack of open elements, the outermost first, and
/// the root element if the step closed it.
pub struct Stepped {
    pub stack: Seq<ElementView>,
    pub root: Option<ElementView>,
}

/// What the row `row` does to the stack `stack` of open elements.
///
/// A row of one cell opens an element, or closes the innermost one if the
/// cell is the word "end"; a row of more cells is an attribute of the
/// innermost element; a row without cells does nothing.
pub open spec fn step(stack: Seq<ElementView>, row: Seq<Option<Seq<char>>>) -> Result<
    Stepped,
    Error,
> {
    if row.len() == 0 {
        Ok(Stepped { stack, root: None })
    } else if row.len() == 1 {
        match row[0] {
            None => Err(Error::NullTitle),
            Some(word) => if !is_end(word) {
                Ok(Stepped { stack: stack.push(opened(word)), root: None })
            } else if stack.len() == 0 {
                Err(Error::BadRoot)
            } else if stack.len() == 1 {
                Ok(Stepped { stack: Seq::empty(), root: Some(stack[0]) })
            } else {
                Ok(
                    Stepped {
                        stack: attach(stack.drop_last(), NodeView::Elt(stack.last())),
                        root: None,
                    },
                )
            },
        }
    } else {
        match row[0] {
            None => Err(Error::NullAttribute),
            Some(name) => if stack.len() == 0 {
                Err(Error::BadRoot)
            } else {
                Ok(
                    Stepped {
                        stack: attach(stack, NodeView::Attr(name, row.subrange(1, row.len() as int))),
                        root: None,
                    },
                )
            },
        }
    }
}

/// The depth of the stack follows the nesting: a row that opens an element
/// makes it one deeper, a row that closes one makes it one less deep and
/// hands out the root exactly when that leaves nothing open, and every other
/// row leaves the depth as it is.
pub proof fn lemma_depth_is_nesting(stack: Seq<ElementView>, row: Seq<Option<Seq<char>>>)
    requires
        step(stack, row) is Ok,
    ensures
        ({
            let next = step(stack, row)->Ok_0;
            if row.len() == 1 && is_end(row[0]->0) {
                next.stack.len() == stack.len() - 1 && (next.root is Some <==> stack.len() == 1)
            } else if row.len() == 1 {
                next.stack.len() == stack.len() + 1 && next.root is None
            } else {
                next.stack.len() == stack.len() && next.root is None
            }
        }),
{
}

/// The state before the first row: nothing open, nothing closed.
pub open spec fn fresh() -> Stepped {
    Stepped { stack: Seq::empty(), root: None }
}

/// What the row `row` does to a document that has come as far as `p`: a step
/// as long as the root element is not closed; after that, a row with cells is
/// an error and a row without cells does nothing.
pub open spec fn feed(p: Stepped, row: Seq<Option<Seq<char>>>) -> Result<Stepped, Error> {
    if p.root is Some {
        if row.len() > 0 {
            Err(Error::TooManyRoots)
        } else {
            Ok(p)
        }
    } else {
        step(p.stack, row)
    }
}

/// The document that the rows from index `i` on complete, when the rows
/// before them have come as far as `p`; or the index of the row that is in
/// error, with the error. Rows that end with the root element open are in
/// error at index 0, with `MissingEnd`.
pub open spec fn read_rows(rows: Seq<Seq<Option<Seq<char>>>>, i: int, p: Stepped) -> Result<
    ElementView,
    (nat, Error),
>
    decreases rows.len() - i,
{
    if i < 0 || i >= rows.len() {
        match p.root {
            Some(root) => Ok(root),
            None => Err((0nat, Error::MissingEnd)),
        }
    } else {
        match feed(p, rows[i]) {
            Ok(next) => read_rows(rows, i + 1, next),
            Err(e) => Err((i as nat, e)),
        }
    }
}

/// The document that `rows` denote, or the first error with its row's index.
pub open spec fn document_of(rows: Seq<Seq<Option<Seq<char>>>>) -> Result<ElementView, (nat, Error)> {
    read_rows(rows, 0, fresh())
}

/// The stack of a decoder that was made with `Decoder::new` and then given
/// the first `n` of `rows`, one at a time: each row does its step, and a row
/// in error leaves the stack as it was.
pub open spec fn stack_after(rows: Seq<Seq<Option<Seq<char>>>>, n: int) -> Seq<ElementView>
    decreases n,
{
    if n <= 0 {
        Seq::empty()
    } else {
        let before = stack_after(rows, n - 1);
        match step(before, rows[n - 1]) {
            Ok(next) => next.stack,
            Err(_) => before,
        }
    }
}

/// What such a decoder answers when it is then given the row `rows[n]`.
pub open spec fn answer(rows: Seq<Seq<Option<Seq<char>>>>, n: int) -> Result<
    Option<ElementView>,
    Error,
> {
    match step(stack_after(rows, n), rows[n]) {
        Ok(next) => Ok(next.root),
        Err(e) => Err(e),
    }
}

/// Once the root element is closed, the rows that follow cannot change it.
proof fn lemma_root_stays(rows: Seq<Seq<Option<Seq<char>>>>, i: int, p: Stepped)
    requires
        0 <= i <= rows.len(),
        p.root is Some,
        read_rows(rows, i, p) is Ok,
    ensures
        read_rows(rows, i, p) == Ok::<ElementView, (nat, Error)>(p.root->0),
    decreases rows.len() - i,
{
    if i < rows.len() {
        lemma_root_stays(rows, i + 1, p);
    }
}

/// The row at which a decoder that has answered `None` to the rows before
/// `i` hands out the root of the document.
proof fn lemma_incremental_from(rows: Seq<Seq<Option<Seq<char>>>>, i: int) -> (k: int)
    requires
        0 <= i <= rows.len(),
        forall|j: int| 0 <= j < i ==> answer(rows, j) == Ok::<Option<ElementView>, Error>(None),
        read_rows(rows, i, Stepped { stack: stack_after(rows, i), root: None }) is Ok,
    ensures
        i <= k < rows.len(),
        forall|j: int| 0 <= j < k ==> answer(rows, j) == Ok::<Option<ElementView>, Error>(None),
        read_rows(rows, i, Stepped { stack: stack_after(rows, i), root: None }) == Ok::<
            ElementView,
            (nat, Error),
        >(answer(rows, k)->Ok_0->0),
        answer(rows, k) matches Ok(Some(_)),
    decreases rows.len() - i,
{
    let p = Stepped { stack: stack_after(rows, i), root: None };
    let next = step(p.stack, rows[i])->Ok_0;
    assert(stack_after(rows, i + 1) == next.stack);
    if next.root is Some {
        lemma_root_stays(rows, i + 1, next);
        i
    } else {
        lemma_incremental_from(rows, i + 1)
    }
}

/// Feeding the rows of a valid document one at a time to a new decoder gives
/// the element that decoding them at once gives: the decoder answers `None`
/// to every row before the row `k`, and at that row hands out the root.
pub proof fn lemma_incremental_agrees(rows: Seq<Seq<Option<Seq<char>>>>) -> (k: int)
    requires
        document_of(rows) is Ok,
    ensures
        0 <= k < rows.len(),
        forall|j: int| 0 <= j < k ==> answer(rows, j) == Ok::<Option<ElementView>, Error>(None),
        answer(rows, k) == Ok::<Option<ElementView>, Error>(Some(document_of(rows)->Ok_0)),
{
    lemma_incremental_from(rows, 0)
}

/// Rows as a mathematical value.
pub open spec fn rows_view(rows: Seq<Vec<Option<String>>>) -> Seq<Seq<Option<Seq<char>>>> {
    Seq::new(rows.len(), |i: int| row_view(rows[i]@))
}

/// Whether `word` is "end" in upper or lower case letters.
pub fn is_end_word(word: &str) -> (r: bool)
    ensures
        r == is_end(word@),
{
    if word.unicode_len() != 3 {
        return false;
    }
    let e = word.get_char(0);
    let n = word.get_char(1);
    let d = word.get_char(2);
    (e == 'e' || e == 'E') && (n == 'n' || n == 'N') && (d == 'd' || d == 'D')
}

/// Adds `child` behind the children of the innermost element of `stack`.
fn attach_child(stack: &mut Vec<Element>, child: Node)
    requires
        old(stack)@.len() > 0,
    ensures
        stack_view(final(stack)@) == attach(stack_view(old(stack)@), child@),
{
    let ghost before = stack@;
    let mut top = stack.pop().unwrap();
    let ghost rest = stack@;
    let ghost was = top;
    top.children.push(child);
    assert(top@.children =~= was@.children.push(child@));
    stack.push(top);
    assert(stack_view(stack@) =~= attach(stack_view(before), child@));
}

/// The incremental decoder: it holds the elements that are open, the
/// outermost first, and takes the rows of a document one at a time.
pub struct Decoder {
    stack: Vec<Element>,
}

impl View for Decoder {
    type V = Seq<ElementView>;

    closed spec fn view(&self) -> Seq<ElementView> {
        stack_view(self.stack@)
    }
}

impl Decoder {
    /// A decoder with no element open.
    pub fn new() -> (d: Decoder)
        ensures
            d@ == Seq::<ElementView>::empty(),
    {
        let d = Decoder { stack: Vec::new() };
        assert(d@ =~= Seq::empty());
        d
    }

    /// Takes the next row of the document.
    ///
    /// Does what `step` says: on success the stack is the one that the step
    /// leaves, and the result is the root element if this row closed it. On
    /// an error the decoder is as it was.
    pub fn add_row(&mut self, row: Vec<Option<String>>) -> (r: Result<Option<Element>, Error>)
        ensures
            match step(old(self)@, row_view(row@)) {
                Ok(next) => r is Ok && final(self)@ == next.stack && option_view(r->Ok_0)
                    == next.root,
                Err(e) => r == Err::<Option<Element>, Error>(e) && final(self)@ == old(self)@,
            },
    {
        let mut row = row;
        let ghost cells = row_view(row@);
        let ghost before = self.stack@;
        if row.len() == 0 {
            return Ok(None);
        }
        let first = row.remove(0);
        assert(cell_view(first) == cells[0]);
        assert(row_view(row@) =~= cells.subrange(1, cells.len() as int));
        if row.len() == 0 {
            match first {
                None => Err(Error::NullTitle),
                Some(title) => {
                    if !is_end_word(title.as_str()) {
                        self.stack.push(Element { title, children: Vec::new() });
                        assert(self.stack@.last()@ =~= opened(title@)) by {
                            assert(self.stack@.last()@.children =~= Seq::empty());
                        }
                        assert(stack_view(self.stack@) =~= stack_view(before).push(opened(title@)));
                        Ok(None)
                    } else {
                        match self.stack.pop() {
                            None => Err(Error::BadRoot),
                            Some(elt) => {
                                if self.stack.len() == 0 {
                                    assert(stack_view(self.stack@) =~= Seq::empty());
                                    Ok(Some(elt))
                                } else {
                                    assert(stack_view(self.stack@) =~= stack_view(
                                        before,
                                    ).drop_last());
                                    attach_child(&mut self.stack, Node::Elt(elt));
                                    Ok(None)
                                }
                            },
                        }
                    }
                },
            }
        } else {
            match first {
                None => Err(Error::NullAttribute),
                Some(name) => {
                    if self.stack.len() == 0 {
                        Err(Error::BadRoot)
                    } else {
                        attach_child(&mut self.stack, Node::Attr(name, row));
                        Ok(None)
                    }
                },
            }
        }
    }
}

/// Gives the next row to a document that is decoded as a whole: `root` holds
/// the root element once it is closed, and `decoder` the elements open until
/// then. Does what `feed` says, and changes nothing where the row is in error.
pub fn feed_row(decoder: &mut Decoder, root: &mut Option<Element>, row: Vec<Option<String>>) -> (r:
    Result<(), Error>)
    ensures
        match feed(
            Stepped { stack: old(decoder)@, root: option_view(*old(root)) },
            row_view(row@),
        ) {
            Ok(next) => r is Ok && final(decoder)@ == next.stack && option_view(*final(root))
                == next.root,
            Err(e) => r == Err::<(), Error>(e) && final(decoder)@ == old(decoder)@ && *final(root)
                == *old(root),
        },
{
    if root.is_none() {
        match decoder.add_row(row) {
            Ok(done) => {
                *root = done;
                Ok(())
            },
            Err(e) => Err(e),
        }
    } else if row.len() > 0 {
        Err(Error::TooManyRoots)
    } else {
        Ok(())
    }
}

/// Decodes a whole document from its rows, in the order of the lines.
///
/// Returns the root element that `document_of` gives, or its error with the
/// index of the row at which it was found.
pub fn parse_rows(rows: Vec<Vec<Option<String>>>) -> (r: Result<Element, (usize, Error)>)
    ensures
        match document_of(rows_view(rows@)) {
            Ok(root) => r is Ok && r->Ok_0@ == root,
            Err((at, e)) => r == Err::<Element, (usize, Error)>((at as usize, e)),
        },
{
    let ghost all = rows_view(rows@);
    let mut decoder = Decoder::new();
    let mut result: Option<Element> = None;
    let mut line_no: usize = 0;
    let count: usize = rows.len();
    for row in it: rows
        invariant
            it.seq() == rows@,
            count == rows@.len(),
            line_no == it.index(),
            all == rows_view(rows@),
            document_of(all) == read_rows(
                all,
                line_no as int,
                Stepped { stack: decoder@, root: option_view(result) },
            ),
    {
        assert(all[line_no as int] == row_view(row@));
        match feed_row(&mut decoder, &mut result, row) {
            Ok(()) => {},
            Err(e) => {
                return Err((line_no, e));
            },
        }
        line_no = line_no + 1;
    }
    match result {
        Some(root) => Ok(root),
        None => Err((0, Error::MissingEnd)),
    }
}

} // verus!
