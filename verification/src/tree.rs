//! The syntax tree that the engine reads.
//!
//! A node has a construct name, its children in order, a range in the
//! source, and the source itself, of which its text is a slice.

use vstd::prelude::*;
use vstd::string::*;
use vstd::utf8::*;

verus! {

/// A position in the source: a row and a column, both counted from zero.
#[derive(Debug, Clone, Copy, PartialEq, Eq, Structural)]
pub struct Point {
    pub row: usize,
    pub column: usize,
}

/// The range of a node: its bytes in the source, and where they start and end.
#[derive(Debug, Clone, Copy, PartialEq, Eq, Structural)]
pub struct Range {
    pub start_byte: usize,
    pub end_byte: usize,
    pub start_point: Point,
    pub end_point: Point,
}

/// A node of a syntax tree.
#[derive(Debug)]
pub struct Tree<'source> {
    pub name: String,
    pub children: Vec<Tree<'source>>,
    pub range: Range,
    pub source: &'source str,
}

/// The mathematical model of a node.
pub ghost struct SyntaxNode {
    pub name: Seq<char>,
    pub children: Seq<SyntaxNode>,
    pub range: Range,
    pub text: Seq<char>,
}

/// Whether the bytes of `range` are a slice of `source` that starts and ends
/// between two characters.
pub open spec fn fits(range: Range, source: Seq<char>) -> bool {
    let bytes = encode_utf8(source);
    &&& range.start_byte <= range.end_byte <= bytes.len()
    &&& is_char_boundary(bytes, range.start_byte as int)
    &&& is_char_boundary(bytes, range.end_byte as int)
}

/// The slice of `source` that `range` covers.
pub open spec fn slice(range: Range, source: Seq<char>) -> Seq<char> {
    decode_utf8(encode_utf8(source).subrange(range.start_byte as int, range.end_byte as int))
}

/// The model of `tree`.
pub open spec fn node_of(tree: Tree) -> SyntaxNode
    decreases tree,
{
    SyntaxNode {
        name: tree.name@,
        children: Seq::new(
            tree.children@.len(),
            |i: int|
                if 0 <= i < tree.children@.len() {
                    node_of(tree.children@[i])
                } else {
                    arbitrary()
                },
        ),
        range: tree.range,
        text: slice(tree.range, tree.source@),
    }
}

/// Whether the range of `tree` and of each node below it fits its source.
pub open spec fn well_formed(tree: Tree) -> bool
    decreases tree,
{
    &&& fits(tree.range, tree.source@)
    &&& forall|i: int|
        0 <= i < tree.children@.len() ==> well_formed(#[trigger] tree.children@[i])
}

impl<'source> View for Tree<'source> {
    type V = SyntaxNode;

    open spec fn view(&self) -> SyntaxNode {
        node_of(*self)
    }
}

impl Range {
    /// Whether the bytes of this range are a slice of `source` that starts
    /// and ends between two characters.
    pub fn fits(&self, source: &str) -> (r: bool)
        ensures
            r == fits(*self, source@),
    {
        self.start_byte <= self.end_byte && self.end_byte <= source.as_bytes().len()
            && source.is_char_boundary(self.start_byte) && source.is_char_boundary(self.end_byte)
    }
}

impl<'source> Tree<'source> {
    /// Whether the range of this node and of each node below it fits its
    /// source.
    pub open spec fn wf(&self) -> bool {
        well_formed(*self)
    }

    /// Whether the range of this node and of each node below it fits its
    /// source.
    pub fn is_well_formed(&self) -> (r: bool)
        ensures
            r == self.wf(),
        decreases self,
    {
        if !self.range.fits(self.source) {
            return false;
        }
        let mut i: usize = 0;
        while i < self.children.len()
            invariant
                i <= self.children@.len(),
                forall|j: int| 0 <= j < i ==> well_formed(#[trigger] self.children@[j]),
            decreases self.children@.len() - i,
        {
            proof {
                vstd::std_specs::vec::axiom_vec_index_decreases(self.children, i as int);
            }
            if !self.children[i].is_well_formed() {
                return false;
            }
            i = i + 1;
        }
        true
    }

    /// The construct name of this node.
    pub fn name(&self) -> (name: &str)
        ensures
            name@ == self@.name,
    {
        self.name.as_str()
    }

    /// The children of this node, in order.
    pub fn children(&self) -> (children: &Vec<Tree<'source>>)
        ensures
            children == self.children,
            children@.len() == self@.children.len(),
            forall|i: int|
                0 <= i < children@.len() ==> (#[trigger] children@[i])@ == self@.children[i],
    {
        &self.children
    }

    /// The range of this node.
    pub fn range(&self) -> (range: &Range)
        ensures
            *range == self@.range,
    {
        &self.range
    }

    /// The text of this node: the slice of the source that its range covers.
    pub fn text(&self) -> (text: &str)
        requires
            fits(self.range, self.source@),
        ensures
            text@ == self@.text,
    {
        let ghost bytes = self.source.spec_bytes();
        let ghost start = self.range.start_byte as int;
        let ghost end = self.range.end_byte as int;
        proof {
            encode_utf8_valid_utf8(self.source@);
        }
        let (_, tail) = self.source.split_at(self.range.start_byte);
        proof {
            let rest = bytes.subrange(start, bytes.len() as int);
            valid_utf8_split(bytes, start);
            assert(tail.spec_bytes() == rest);
            if end < bytes.len() {
                is_char_boundary_iff_not_is_continuation_byte(bytes, end);
                is_char_boundary_iff_not_is_continuation_byte(rest, end - start);
            } else {
                is_char_boundary_start_end_of_seq(rest);
            }
        }
        let (text, _) = tail.split_at(self.range.end_byte - self.range.start_byte);
        proof {
            assert(text.spec_bytes() =~= bytes.subrange(start, end));
            encode_utf8_decode_utf8(text@);
        }
        text
    }
}

} // verus!
