//! Outlines of trees and documents, for a reader who wants to see their
//! shape: one entry for each node, indented by its depth.

use crate::format_node::{docs_of, lemma_group_view, Doc, FormatNode, WrapArguments};
use crate::text::views;
use crate::tree::{SyntaxNode, Tree};
use vstd::prelude::*;
use vstd::string::*;

verus! {

/// The outlines of `nodes` under `prefix`, one after the other.
pub open spec fn tree_outlines(nodes: Seq<SyntaxNode>, prefix: Seq<char>) -> Seq<Seq<char>>
    decreases nodes,
{
    if nodes.len() == 0 {
        Seq::empty()
    } else {
        tree_outlines(nodes.drop_last(), prefix) + tree_outline(nodes.last(), prefix)
    }
}

/// The outline of `node`: its name after `prefix`, and then the outlines of
/// its children, each two spaces deeper.
pub open spec fn tree_outline(node: SyntaxNode, prefix: Seq<char>) -> Seq<Seq<char>>
    decreases node,
{
    seq![prefix + node.name] + tree_outlines(node.children, prefix + "  "@)
}

/// The name of the variant of `d`.
pub open spec fn variant_name(d: Doc) -> Seq<char> {
    match d {
        Doc::Content(_) => "Content"@,
        Doc::Group(_) => "Group"@,
        Doc::Indent(_) => "Indent"@,
        Doc::Wrap(_, _) => "Wrap"@,
        Doc::Space => "Space"@,
        Doc::Newline => "Newline"@,
    }
}

/// `true` or `false`, as written.
pub open spec fn bool_text(b: bool) -> Seq<char> {
    if b {
        "true"@
    } else {
        "false"@
    }
}

/// The arguments of a wrap, written as a struct with its fields.
pub open spec fn arguments_text(a: WrapArguments) -> Seq<char> {
    "WrapArguments { child_wrap_prevents_wrap: "@ + bool_text(a.child_wrap_prevents_wrap)
        + ", wrap_with_indent: "@ + bool_text(a.wrap_with_indent) + ", or_space: "@ + bool_text(
        a.or_space,
    ) + " }"@
}

/// The outlines of `docs` under `prefix`, one after the other.
pub open spec fn doc_outlines(docs: Seq<Doc>, prefix: Seq<char>) -> Seq<Seq<char>>
    decreases docs,
{
    if docs.len() == 0 {
        Seq::empty()
    } else {
        doc_outlines(docs.drop_last(), prefix) + doc_outline(docs.last(), prefix)
    }
}

/// The outline of `d`: the name of its variant after `prefix`, and then,
/// four spaces deeper, the arguments of a wrap, the text of a content, and
/// the outlines of what it holds.
pub open spec fn doc_outline(d: Doc, prefix: Seq<char>) -> Seq<Seq<char>>
    decreases d,
{
    let deeper = prefix + "    "@;
    seq![prefix + variant_name(d)] + match d {
        Doc::Content(text) => seq![deeper + text],
        Doc::Group(children) => doc_outlines(children, deeper),
        Doc::Indent(child) => doc_outline(*child, deeper),
        Doc::Wrap(child, arguments) => seq![deeper + arguments_text(arguments)] + doc_outline(
            *child,
            deeper,
        ),
        Doc::Space => Seq::empty(),
        Doc::Newline => Seq::empty(),
    }
}

/// `first` and then `second`, as one string.
fn concat(first: &str, second: &str) -> (out: String)
    ensures
        out@ == first@ + second@,
{
    let mut out = first.to_owned();
    out.append(second);
    out
}

/// Moves the entries of `more` to the end of `out`.
fn extend(out: &mut Vec<String>, more: Vec<String>)
    ensures
        views(final(out)@) == views(old(out)@) + views(
            more@,
        ),
{
    let mut more = more;
    let ghost before = views(out@);
    let ghost added = views(more@);
    out.append(&mut more);
    proof {
        assert(views(out@) =~= before + added);
    }
}

/// The outline of `node` under `prefix`.
pub fn outline_tree(node: &Tree, prefix: &str) -> (out: Vec<String>)
    ensures
        views(out@) == tree_outline(node@, prefix@),
    decreases node,
{
    let mut out: Vec<String> = Vec::new();
    out.push(concat(prefix, node.name()));
    let deeper = concat(prefix, "  ");
    let children = node.children();
    let ghost head = seq![prefix@ + node@.name];
    let mut i: usize = 0;
    proof {
        assert(views(out@) =~= head);
        assert(node@.children.take(0) =~= Seq::<SyntaxNode>::empty());
        assert(head + tree_outlines(node@.children.take(0), deeper@) =~= head);
    }
    while i < children.len()
        invariant
            i <= children@.len(),
            children == node.children,
            children@.len() == node@.children.len(),
            forall|j: int|
                0 <= j < children@.len() ==> (#[trigger] children@[j])@ == node@.children[j],
            deeper@ == prefix@ + "  "@,
            head == seq![prefix@ + node@.name],
            views(out@) == head + tree_outlines(
                node@.children.take(i as int),
                deeper@,
            ),
        decreases children@.len() - i,
    {
        proof {
            vstd::std_specs::vec::axiom_vec_index_decreases(*children, i as int);
        }
        let more = outline_tree(&children[i], deeper.as_str());
        proof {
            let taken = node@.children.take(i + 1);
            assert(taken.drop_last() =~= node@.children.take(i as int));
            assert(taken.last() == children@[i as int]@);
        }
        extend(&mut out, more);
        proof {
            assert(views(out@) =~= head + tree_outlines(
                node@.children.take(i + 1),
                deeper@,
            ));
        }
        i = i + 1;
    }
    proof {
        assert(node@.children.take(i as int) =~= node@.children);
    }
    out
}

/// `true` or `false`, as written.
fn bool_name(b: bool) -> (out: &'static str)
    ensures
        out@ == bool_text(b),
{
    if b {
        "true"
    } else {
        "false"
    }
}

/// The arguments of a wrap, written as a struct with its fields.
pub fn describe_arguments(arguments: &WrapArguments) -> (out: String)
    ensures
        out@ == arguments_text(*arguments),
{
    let mut out = "WrapArguments { child_wrap_prevents_wrap: ".to_owned();
    out.append(bool_name(arguments.child_wrap_prevents_wrap));
    out.append(", wrap_with_indent: ");
    out.append(bool_name(arguments.wrap_with_indent));
    out.append(", or_space: ");
    out.append(bool_name(arguments.or_space));
    out.append(" }");
    out
}

/// The outline of `node` under `prefix`.
pub fn outline_document(node: &FormatNode, prefix: &str) -> (out: Vec<String>)
    ensures
        views(out@) == doc_outline(node@, prefix@),
    decreases node,
{
    let deeper = concat(prefix, "    ");
    let mut out: Vec<String> = Vec::new();
    let ghost head = seq![prefix@ + variant_name(node@)];
    match node {
        FormatNode::Content(content) => {
            out.push(concat(prefix, "Content"));
            out.push(concat(deeper.as_str(), content.as_str()));
            proof {
                assert(views(out@) =~= head + seq![deeper@ + content@]);
            }
        },
        FormatNode::Group(children) => {
            out.push(concat(prefix, "Group"));
            let mut i: usize = 0;
            let ghost docs = docs_of(children@);
            proof {
                lemma_group_view(*children);
                assert(views(out@) =~= head);
                assert(docs.take(0) =~= Seq::<Doc>::empty());
                assert(head + doc_outlines(docs.take(0), deeper@) =~= head);
            }
            while i < children.len()
                invariant
                    i <= children@.len(),
                    node == FormatNode::Group(*children),
                    docs == docs_of(children@),
                    deeper@ == prefix@ + "    "@,
                    head == seq![prefix@ + variant_name(node@)],
                    views(out@) == head + doc_outlines(docs.take(i as int), deeper@),
                decreases children@.len() - i,
            {
                proof {
                    vstd::std_specs::vec::axiom_vec_index_decreases(*children, i as int);
                    assert(node->Group_0 == *children);
                }
                let more = outline_document(&children[i], deeper.as_str());
                proof {
                    let taken = docs.take(i + 1);
                    assert(taken.drop_last() =~= docs.take(i as int));
                    assert(taken.last() == children@[i as int]@);
                }
                extend(&mut out, more);
                proof {
                    assert(views(out@) =~= head + doc_outlines(
                        docs.take(i + 1),
                        deeper@,
                    ));
                }
                i = i + 1;
            }
            proof {
                assert(docs.take(i as int) =~= docs);
            }
        },
        FormatNode::Indent(child) => {
            out.push(concat(prefix, "Indent"));
            let more = outline_document(child, deeper.as_str());
            proof {
                assert(views(out@) =~= head);
            }
            extend(&mut out, more);
        },
        FormatNode::Wrap(child, arguments) => {
            out.push(concat(prefix, "Wrap"));
            let described = describe_arguments(arguments);
            out.push(concat(deeper.as_str(), described.as_str()));
            let more = outline_document(child, deeper.as_str());
            proof {
                assert(views(out@) =~= head + seq![
                    deeper@ + arguments_text(*arguments),
                ]);
            }
            extend(&mut out, more);
        },
        FormatNode::Space => {
            out.push(concat(prefix, "Space"));
            proof {
                assert(views(out@) =~= head + Seq::<Seq<char>>::empty());
            }
        },
        FormatNode::Newline => {
            out.push(concat(prefix, "Newline"));
            proof {
                assert(views(out@) =~= head + Seq::<Seq<char>>::empty());
            }
        },
    }
    out
}

} // verus!
