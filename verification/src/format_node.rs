//! The document: the layout representation between a syntax tree and text.

use vstd::prelude::*;

verus! {

/// How a `Wrap` breaks and what it tells the group above it.
#[derive(Debug, Clone, Copy, PartialEq, Eq, Structural)]
pub struct WrapArguments {
    /// A break inside this wrap is not reported to the group above.
    pub child_wrap_prevents_wrap: bool,
    /// When the wrap breaks, its content is indented by one unit.
    pub wrap_with_indent: bool,
    /// When the wrap does not break, a space stands before its content.
    pub or_space: bool,
}

/// A document.
#[derive(Debug, PartialEq, Eq)]
pub enum FormatNode {
    /// Literal text, never broken.
    Content(String),
    /// The concatenation of its children. A group decides whether the wraps
    /// it governs break.
    Group(Vec<FormatNode>),
    /// Its child, each line of it indented by one unit.
    Indent(Box<FormatNode>),
    /// A point that breaks when the governing group says so.
    Wrap(Box<FormatNode>, WrapArguments),
    /// One space.
    Space,
    /// A line break that always happens.
    Newline,
}

/// The mathematical model of a document.
pub ghost enum Doc {
    Content(Seq<char>),
    Group(Seq<Doc>),
    Indent(Box<Doc>),
    Wrap(Box<Doc>, WrapArguments),
    Space,
    Newline,
}

/// The model of `node`.
pub open spec fn doc_of(node: FormatNode) -> Doc
    decreases node,
{
    match node {
        FormatNode::Content(s) => Doc::Content(s@),
        FormatNode::Group(v) => Doc::Group(
            Seq::new(
                v@.len(),
                |i: int|
                    if 0 <= i < v@.len() {
                        doc_of(v@[i])
                    } else {
                        Doc::Space
                    },
            ),
        ),
        FormatNode::Indent(b) => Doc::Indent(Box::new(doc_of(*b))),
        FormatNode::Wrap(b, a) => Doc::Wrap(Box::new(doc_of(*b)), a),
        FormatNode::Space => Doc::Space,
        FormatNode::Newline => Doc::Newline,
    }
}

impl View for FormatNode {
    type V = Doc;

    open spec fn view(&self) -> Doc {
        doc_of(*self)
    }
}

/// The models of a sequence of documents.
pub open spec fn docs_of(v: Seq<FormatNode>) -> Seq<Doc> {
    Seq::new(v.len(), |i: int| v[i]@)
}

/// The model of a group is the group of its children's models.
pub proof fn lemma_group_view(v: Vec<FormatNode>)
    ensures
        FormatNode::Group(v)@ == Doc::Group(docs_of(v@)),
{
    assert(FormatNode::Group(v)@->Group_0 =~= docs_of(v@));
}

/// The models of a sequence with one more document at its end.
pub proof fn lemma_docs_of_push(v: Seq<FormatNode>, node: FormatNode)
    ensures
        docs_of(v.push(node)) == docs_of(v).push(node@),
{
    assert(docs_of(v.push(node)) =~= docs_of(v).push(node@));
}

/// The text of the `Content` leaves of `d`, in order.
pub open spec fn contents(d: Doc) -> Seq<char>
    decreases d,
{
    match d {
        Doc::Content(s) => s,
        Doc::Group(cs) => contents_all(cs),
        Doc::Indent(c) => contents(*c),
        Doc::Wrap(c, _) => contents(*c),
        Doc::Space => Seq::empty(),
        Doc::Newline => Seq::empty(),
    }
}

/// The text of the `Content` leaves of each of `cs`, in order.
pub open spec fn contents_all(cs: Seq<Doc>) -> Seq<char>
    decreases cs,
{
    if cs.len() == 0 {
        Seq::empty()
    } else {
        contents_all(cs.drop_last()) + contents(cs.last())
    }
}

/// The texts of the `Content` leaves of `d`, one by one and in order.
pub open spec fn content_texts(d: Doc) -> Seq<Seq<char>>
    decreases d,
{
    match d {
        Doc::Content(s) => seq![s],
        Doc::Group(cs) => content_texts_all(cs),
        Doc::Indent(c) => content_texts(*c),
        Doc::Wrap(c, _) => content_texts(*c),
        Doc::Space => Seq::empty(),
        Doc::Newline => Seq::empty(),
    }
}

/// The texts of the `Content` leaves of each of `cs`, one by one and in
/// order.
pub open spec fn content_texts_all(cs: Seq<Doc>) -> Seq<Seq<char>>
    decreases cs,
{
    if cs.len() == 0 {
        Seq::empty()
    } else {
        content_texts_all(cs.drop_last()) + content_texts(cs.last())
    }
}

/// Whether a `Wrap` stands anywhere in `d`.
pub open spec fn has_wrap(d: Doc) -> bool
    decreases d,
{
    match d {
        Doc::Content(_) => false,
        Doc::Group(cs) => exists|i: int| 0 <= i < cs.len() && has_wrap(#[trigger] cs[i]),
        Doc::Indent(c) => has_wrap(*c),
        Doc::Wrap(_, _) => true,
        Doc::Space => false,
        Doc::Newline => false,
    }
}

/// Whether one of `cs` is itself a `Wrap`.
pub open spec fn has_direct_wrap(cs: Seq<Doc>) -> bool {
    exists|i: int| 0 <= i < cs.len() && #[trigger] cs[i] is Wrap
}

/// Whether `part` stands in `whole`: it is `whole`, or it stands in what a
/// group, an indent or a wrap of `whole` holds.
pub open spec fn stands_in(part: Doc, whole: Doc) -> bool
    decreases whole,
{
    part == whole || match whole {
        Doc::Group(cs) => exists|i: int| 0 <= i < cs.len() && stands_in(part, #[trigger] cs[i]),
        Doc::Indent(c) => stands_in(part, *c),
        Doc::Wrap(c, _) => stands_in(part, *c),
        _ => false,
    }
}

/// Whether `part` stands in one of `docs`.
pub open spec fn stands_in_some(part: Doc, docs: Seq<Doc>) -> bool {
    exists|i: int| 0 <= i < docs.len() && stands_in(part, #[trigger] docs[i])
}

/// What stands in a child of a group stands in the group.
pub proof fn lemma_stands_in_group(part: Doc, cs: Seq<Doc>, i: int)
    requires
        0 <= i < cs.len(),
        stands_in(part, cs[i]),
    ensures
        stands_in(part, Doc::Group(cs)),
{
    let whole = Doc::Group(cs);
    assert(whole->Group_0 == cs);
    assert(stands_in(part, whole->Group_0[i]));
    assert(exists|k: int| 0 <= k < cs.len() && stands_in(part, #[trigger] cs[k]));
}

/// What stands in a document stands in the indent and in the wrap that hold
/// it.
pub proof fn lemma_stands_in_holder(part: Doc, inner: Doc, arguments: WrapArguments)
    requires
        stands_in(part, inner),
    ensures
        stands_in(part, Doc::Indent(Box::new(inner))),
        stands_in(part, Doc::Wrap(Box::new(inner), arguments)),
{
}

/// What stands in a part of a document stands in the document.
pub proof fn lemma_stands_in_trans(a: Doc, b: Doc, c: Doc)
    requires
        stands_in(a, b),
        stands_in(b, c),
    ensures
        stands_in(a, c),
    decreases c,
{
    if b != c {
        match c {
            Doc::Group(cs) => {
                let i = choose|i: int| 0 <= i < cs.len() && stands_in(b, #[trigger] cs[i]);
                lemma_stands_in_trans(a, b, cs[i]);
            },
            Doc::Indent(inner) => {
                lemma_stands_in_trans(a, b, *inner);
            },
            Doc::Wrap(inner, _) => {
                lemma_stands_in_trans(a, b, *inner);
            },
            _ => {},
        }
    }
}

} // verus!
