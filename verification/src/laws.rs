//! What holds of every tree, every document and every setting.

use crate::format_node::{contents, contents_all, content_texts, content_texts_all, Doc};
use crate::print::format_spec;
use crate::render::{lemma_render_visible, render, PrettyPrintParameters, WrapParameters};
use crate::rules::{pre_visit_spec, FormatArguments, Rules};
use crate::text::{
    all_whitespace, ends_in_one_line_feed, is_whitespace, join, lemma_trim_line_feeds,
    lemma_visible_add, lemma_visible_join, lemma_visible_lines, lemma_visible_whitespace, lines,
    trim_line_feeds, visible,
};
use crate::transform::{
    child_at, closed, emit_all, emit_spec, emitted, fold_to_spec, fold_top_spec, leaf_text,
    open_wrap_spec, opens_scope, realigned, separator, step, transform_spec, trim_start, walked,
    Frame, Walk,
};
use crate::tree::SyntaxNode;
use vstd::prelude::*;

verus! {

/// The text of the leaves of `node`, in order: the tokens of the source.
pub open spec fn leaves(node: SyntaxNode) -> Seq<char>
    decreases node,
{
    if node.children.len() == 0 {
        node.text
    } else {
        leaves_all(node.children)
    }
}

/// The texts that the leaves of `node` have in its document, one for each
/// leaf and in order: the text of the leaf, but for a block comment, whose
/// lines are realigned.
pub open spec fn leaf_texts(node: SyntaxNode) -> Seq<Seq<char>>
    decreases node,
{
    if node.children.len() == 0 {
        seq![leaf_text(node)]
    } else {
        leaf_texts_all(node.children)
    }
}

/// The texts that the leaves of each of `nodes` have in its document.
pub open spec fn leaf_texts_all(nodes: Seq<SyntaxNode>) -> Seq<Seq<char>>
    decreases nodes,
{
    if nodes.len() == 0 {
        Seq::empty()
    } else {
        leaf_texts_all(nodes.drop_last()) + leaf_texts(nodes.last())
    }
}

/// The text of the leaves of each of `nodes`, in order.
pub open spec fn leaves_all(nodes: Seq<SyntaxNode>) -> Seq<char>
    decreases nodes,
{
    if nodes.len() == 0 {
        Seq::empty()
    } else {
        leaves_all(nodes.drop_last()) + leaves(nodes.last())
    }
}

/// The texts of the `Content` leaves of the open containers, one by one,
/// the bottom container first.
pub open spec fn stack_texts(stack: Seq<Frame>) -> Seq<Seq<char>>
    decreases stack.len(),
{
    if stack.len() == 0 {
        Seq::empty()
    } else {
        stack_texts(stack.drop_last()) + content_texts_all(stack.last().children)
    }
}

/// One more document at the end adds its texts at the end.
pub proof fn lemma_texts_push(cs: Seq<Doc>, doc: Doc)
    ensures
        content_texts_all(cs.push(doc)) == content_texts_all(cs) + content_texts(doc),
{
    assert(cs.push(doc).drop_last() =~= cs);
}

/// The texts of a stack of one container are those of the container.
pub proof fn lemma_single_texts(stack: Seq<Frame>)
    requires
        stack.len() == 1,
    ensures
        stack_texts(stack) == content_texts_all(stack.first().children),
{
    assert(stack.drop_last() =~= Seq::<Frame>::empty());
    assert(stack_texts(stack.drop_last()) =~= Seq::<Seq<char>>::empty());
    assert(stack_texts(stack) =~= content_texts_all(stack.first().children));
}

/// Emitting a document adds its texts at the end of the stack's.
pub proof fn lemma_emit_texts(stack: Seq<Frame>, doc: Doc)
    requires
        stack.len() >= 1,
    ensures
        stack_texts(emit_spec(stack, doc)) == stack_texts(stack) + content_texts(doc),
{
    let after = emit_spec(stack, doc);
    lemma_texts_push(stack.last().children, doc);
    assert(after.drop_last() =~= stack.drop_last());
    assert(stack_texts(after) =~= stack_texts(stack) + content_texts(doc));
}

/// The texts of two runs of documents are those of the first and then
/// those of the second.
pub proof fn lemma_texts_add(a: Seq<Doc>, b: Seq<Doc>)
    ensures
        content_texts_all(a + b) == content_texts_all(a) + content_texts_all(b),
    decreases b.len(),
{
    if b.len() == 0 {
        assert(a + b =~= a);
        assert(content_texts_all(a) + content_texts_all(b) =~= content_texts_all(a));
    } else {
        lemma_texts_add(a, b.drop_last());
        assert((a + b).drop_last() =~= a + b.drop_last());
        assert((a + b).last() == b.last());
        assert(content_texts_all(a + b) =~= content_texts_all(a) + content_texts_all(b));
    }
}

/// Emitting documents adds their texts at the end of the stack's.
pub proof fn lemma_emit_all_texts(stack: Seq<Frame>, docs: Seq<Doc>)
    requires
        stack.len() >= 1,
    ensures
        emit_all(stack, docs).len() == stack.len(),
        stack_texts(emit_all(stack, docs)) == stack_texts(stack) + content_texts_all(docs),
{
    let after = emit_all(stack, docs);
    lemma_texts_add(stack.last().children, docs);
    assert(after.drop_last() =~= stack.drop_last());
    assert(stack_texts(after) =~= stack_texts(stack) + content_texts_all(docs));
}

/// An empty container on top adds nothing to the stack's texts.
pub proof fn lemma_push_empty_texts(stack: Seq<Frame>, frame: Frame)
    requires
        frame.children.len() == 0,
    ensures
        stack_texts(stack.push(frame)) == stack_texts(stack),
{
    assert(stack.push(frame).drop_last() =~= stack);
    assert(stack_texts(stack) + content_texts_all(frame.children) =~= stack_texts(stack));
}

/// Closing the top container keeps the stack's texts.
pub proof fn lemma_fold_top_texts(stack: Seq<Frame>)
    requires
        stack.len() >= 2,
    ensures
        fold_top_spec(stack).len() == stack.len() - 1,
        stack_texts(fold_top_spec(stack)) == stack_texts(stack),
{
    let top = stack.last();
    lemma_emit_texts(stack.drop_last(), closed(top));
    assert(content_texts(Doc::Group(top.children)) == content_texts_all(top.children));
    assert(content_texts(closed(top)) == content_texts_all(top.children));
}

/// Closing containers keeps the stack's texts, and leaves the stack no
/// deeper than asked for wherever one container is allowed to stay.
pub proof fn lemma_fold_to_texts(stack: Seq<Frame>, depth: nat)
    requires
        stack.len() >= 1,
    ensures
        fold_to_spec(stack, depth).len() >= 1,
        depth >= 1 ==> fold_to_spec(stack, depth).len() <= depth || fold_to_spec(stack, depth)
            == stack,
        depth >= 1 && stack.len() >= depth ==> fold_to_spec(stack, depth).len() == depth,
        stack_texts(fold_to_spec(stack, depth)) == stack_texts(stack),
    decreases stack.len(),
{
    if stack.len() > depth && stack.len() >= 2 {
        lemma_fold_top_texts(stack);
        lemma_fold_to_texts(fold_top_spec(stack), depth);
    }
}

/// Opening a wrap group keeps the stack's texts.
pub proof fn lemma_open_wrap_texts(stack: Seq<Frame>, between: FormatArguments)
    requires
        stack.len() >= 1,
    ensures
        open_wrap_spec(stack, between).len() >= 2,
        stack_texts(open_wrap_spec(stack, between)) == stack_texts(stack),
{
    let below = if stack.len() >= 2 {
        fold_top_spec(stack)
    } else {
        stack
    };
    if stack.len() >= 2 {
        lemma_fold_top_texts(stack);
    }
    lemma_push_empty_texts(below, open_wrap_spec(stack, between).last());
    assert(open_wrap_spec(stack, between) =~= below.push(open_wrap_spec(stack, between).last()));
}

/// What is emitted for a child holds the texts of its document, and
/// nothing else.
pub proof fn lemma_emitted_texts(between: FormatArguments, doc: Doc)
    ensures
        content_texts_all(emitted(between, doc)) == content_texts(doc),
{
    let none = Seq::<Seq<char>>::empty();
    let sep = separator(between);
    assert(content_texts_all(sep) =~= none) by {
        let empty = Seq::<Doc>::empty();
        if between.double_newline {
            lemma_texts_push(empty, Doc::Newline);
            lemma_texts_push(empty.push(Doc::Newline), Doc::Newline);
            assert(sep =~= empty.push(Doc::Newline).push(Doc::Newline));
        } else if between.indent || between.newline {
            lemma_texts_push(empty, Doc::Newline);
            assert(sep =~= empty.push(Doc::Newline));
        } else if between.space {
            lemma_texts_push(empty, Doc::Space);
            assert(sep =~= empty.push(Doc::Space));
        }
    }
    if between.wrap {
        lemma_texts_push(Seq::empty(), doc);
        assert(emitted(between, doc) =~= Seq::<Doc>::empty().push(doc));
    } else if between.indent {
        lemma_texts_push(sep, Doc::Indent(Box::new(doc)));
    } else {
        lemma_texts_push(sep, doc);
    }
    assert(none + content_texts(doc) =~= content_texts(doc));
}

/// A step of the walk adds the texts of the child's document at the end
/// of the stack's, and nothing else.
pub proof fn lemma_step_texts(
    rules: Rules,
    parent: Seq<char>,
    previous: Option<SyntaxNode>,
    child: SyntaxNode,
    next: Option<SyntaxNode>,
    doc: Doc,
    walk: Walk,
)
    requires
        walk.stack.len() >= 1,
        step(rules, parent, previous, child, next, doc, walk) is Some,
    ensures
        step(rules, parent, previous, child, next, doc, walk)->0.stack.len() >= 1,
        stack_texts(step(rules, parent, previous, child, next, doc, walk)->0.stack)
            == stack_texts(walk.stack) + content_texts(doc),
{
    let between = match previous {
        Some(p) => pre_visit_spec(rules, parent, walk.between, child.name, p.name),
        None => walk.between,
    };
    let wrapped = if between.wrap {
        open_wrap_spec(walk.stack, between)
    } else {
        walk.stack
    };
    if between.wrap {
        lemma_open_wrap_texts(walk.stack, between);
    }
    let opens = opens_scope(rules, previous, child);
    let empty = Frame { children: Seq::empty(), wrapping: None };
    let scoped = if opens {
        wrapped.push(empty)
    } else {
        wrapped
    };
    if opens {
        lemma_push_empty_texts(wrapped, empty);
    }
    let filled = emit_all(scoped, emitted(between, doc));
    lemma_emit_all_texts(scoped, emitted(between, doc));
    lemma_emitted_texts(between, doc);
    let depths = if opens {
        walk.depths.push(wrapped.len())
    } else {
        walk.depths
    };
    if depths.len() > 0 {
        lemma_fold_to_texts(filled, depths.last());
    }
}

/// Leading white space is white space.
pub proof fn lemma_visible_trim_start(l: Seq<char>)
    ensures
        visible(trim_start(l)) == visible(l),
    decreases l.len(),
{
    if l.len() > 0 && is_whitespace(l[0]) {
        lemma_visible_trim_start(l.drop_first());
        assert(l =~= seq![l[0]] + l.drop_first());
        lemma_visible_add(seq![l[0]], l.drop_first());
        assert(all_whitespace(seq![l[0]]));
        lemma_visible_whitespace(seq![l[0]]);
        assert(Seq::<char>::empty() + visible(l.drop_first()) =~= visible(l.drop_first()));
    }
}

/// The text of a leaf shows what its source shows.
pub proof fn lemma_leaf_visible(node: SyntaxNode)
    ensures
        visible(leaf_text(node)) == visible(node.text),
{
    if node.name == "block_comment"@ {
        let ls = lines(node.text);
        let ms = realigned(ls);
        assert forall|i: int| 0 <= i < ls.len() implies visible(#[trigger] ms[i]) == visible(
            ls[i],
        ) by {
            lemma_visible_trim_start(ls[i]);
            if i > 0 {
                lemma_visible_add(seq![' '], trim_start(ls[i]));
                assert(all_whitespace(seq![' ']));
                lemma_visible_whitespace(seq![' ']);
                assert(Seq::<char>::empty() + visible(trim_start(ls[i])) =~= visible(
                    trim_start(ls[i]),
                ));
            }
        }
        assert(all_whitespace(seq!['\n']));
        lemma_visible_join(ms, ls, seq!['\n']);
        lemma_visible_lines(node.text);
    }
}

/// After its first `i` children, the walk over `node` holds the texts of
/// the leaves of those children, one for one and in order.
pub proof fn lemma_walked_texts(rules: Rules, node: SyntaxNode, i: nat)
    requires
        i <= node.children.len(),
        walked(rules, node, i) is Some,
    ensures
        walked(rules, node, i)->0.stack.len() >= 1,
        stack_texts(walked(rules, node, i)->0.stack) == leaf_texts_all(
            node.children.take(i as int),
        ),
    decreases node, i,
{
    if i == 0 {
        let stack = walked(rules, node, i)->0.stack;
        lemma_single_texts(stack);
        assert(node.children.take(0) =~= Seq::<SyntaxNode>::empty());
    } else {
        let before = walked(rules, node, (i - 1) as nat)->0;
        let child = node.children[i - 1];
        let doc = transform_spec(rules, child)->0;
        lemma_walked_texts(rules, node, (i - 1) as nat);
        lemma_transform_texts(rules, child);
        lemma_step_texts(
            rules,
            node.name,
            child_at(node, i - 2),
            child,
            child_at(node, i as int),
            doc,
            before,
        );
        let taken = node.children.take(i as int);
        assert(taken.drop_last() =~= node.children.take(i - 1));
        assert(taken.last() == child);
    }
}

/// Token preservation, node by node: the `Content` leaves of the document
/// of a tree are the leaves of the tree, one for one and in their order,
/// each with the text of its leaf. Whatever else the document holds is a
/// group, an indent, a wrap, a space or a line break.
pub proof fn lemma_transform_texts(rules: Rules, node: SyntaxNode)
    requires
        transform_spec(rules, node) is Some,
    ensures
        content_texts(transform_spec(rules, node)->0) == leaf_texts(node),
    decreases node, node.children.len() + 1,
{
    if node.children.len() > 0 {
        let n = node.children.len();
        lemma_walked_texts(rules, node, n);
        let stack = walked(rules, node, n)->0.stack;
        lemma_fold_to_texts(stack, 1);
        let folded = fold_to_spec(stack, 1);
        lemma_single_texts(folded);
        assert(node.children.take(n as int) =~= node.children);
    }
}

/// Joining two runs of texts with nothing between them.
pub proof fn lemma_join_add(a: Seq<Seq<char>>, b: Seq<Seq<char>>)
    ensures
        join(a + b, Seq::empty()) == join(a, Seq::empty()) + join(b, Seq::empty()),
    decreases b.len(),
{
    let none = Seq::<char>::empty();
    if b.len() == 0 {
        assert(a + b =~= a);
        assert(join(a, none) + join(b, none) =~= join(a, none));
    } else {
        lemma_join_add(a, b.drop_last());
        assert((a + b).drop_last() =~= a + b.drop_last());
        assert((a + b).last() == b.last());
        if a.len() == 0 {
            assert(a + b =~= b);
            assert(join(a, none) + join(b, none) =~= join(b, none));
        } else if b.len() == 1 {
            assert(a + b.drop_last() =~= a);
            assert(join(a + b, none) =~= join(a, none) + join(b, none));
        } else {
            assert(join(a + b, none) =~= join(a, none) + join(b, none));
        }
    }
}

/// The contents of a document are the texts of its `Content` leaves, one
/// after the other.
pub proof fn lemma_contents_are_texts(d: Doc)
    ensures
        contents(d) == join(content_texts(d), Seq::empty()),
    decreases d,
{
    match d {
        Doc::Group(cs) => {
            lemma_contents_all_are_texts(cs);
        },
        Doc::Indent(c) => {
            lemma_contents_are_texts(*c);
        },
        Doc::Wrap(c, _) => {
            lemma_contents_are_texts(*c);
        },
        _ => {},
    }
}

/// The contents of a run of documents are the texts of their `Content`
/// leaves, one after the other.
pub proof fn lemma_contents_all_are_texts(cs: Seq<Doc>)
    ensures
        contents_all(cs) == join(content_texts_all(cs), Seq::empty()),
    decreases cs,
{
    if cs.len() > 0 {
        lemma_contents_all_are_texts(cs.drop_last());
        lemma_contents_are_texts(cs.last());
        lemma_join_add(content_texts_all(cs.drop_last()), content_texts(cs.last()));
    }
}

/// The texts of the leaves of a tree, one after the other, show what the
/// leaves of the tree show.
pub proof fn lemma_leaf_texts_visible(node: SyntaxNode)
    ensures
        visible(join(leaf_texts(node), Seq::empty())) == visible(leaves(node)),
    decreases node,
{
    if node.children.len() == 0 {
        lemma_leaf_visible(node);
    } else {
        lemma_leaf_texts_all_visible(node.children);
    }
}

/// The texts of the leaves of trees, one after the other, show what the
/// leaves of the trees show.
pub proof fn lemma_leaf_texts_all_visible(nodes: Seq<SyntaxNode>)
    ensures
        visible(join(leaf_texts_all(nodes), Seq::empty())) == visible(leaves_all(nodes)),
    decreases nodes,
{
    let none = Seq::<char>::empty();
    if nodes.len() > 0 {
        lemma_leaf_texts_all_visible(nodes.drop_last());
        lemma_leaf_texts_visible(nodes.last());
        lemma_join_add(leaf_texts_all(nodes.drop_last()), leaf_texts(nodes.last()));
        lemma_visible_add(
            join(leaf_texts_all(nodes.drop_last()), none),
            join(leaf_texts(nodes.last()), none),
        );
        lemma_visible_add(leaves_all(nodes.drop_last()), leaves(nodes.last()));
    }
}

/// Token preservation, from tree to document: the `Content` leaves of the
/// document of a tree show what the leaves of the tree show, all of it, once
/// and in order.
pub proof fn lemma_transform_visible(rules: Rules, node: SyntaxNode)
    requires
        transform_spec(rules, node) is Some,
    ensures
        visible(contents(transform_spec(rules, node)->0)) == visible(leaves(node)),
{
    lemma_transform_texts(rules, node);
    lemma_contents_are_texts(transform_spec(rules, node)->0);
    lemma_leaf_texts_visible(node);
}

/// Token preservation: the formatted text of a tree shows what the leaves
/// of the tree show. Formatting adds, removes and moves white space only.
pub proof fn lemma_format_preserves_tokens(
    rules: Rules,
    node: SyntaxNode,
    arguments: PrettyPrintParameters,
)
    requires
        format_spec(rules, node, arguments) is Some,
    ensures
        visible(format_spec(rules, node, arguments)->0) == visible(leaves(node)),
{
    let document = transform_spec(rules, node)->0;
    let rendered = render(document, arguments, WrapParameters::flat()).text;
    let text = trim_line_feeds(rendered);
    lemma_transform_visible(rules, node);
    lemma_render_visible(document, arguments, WrapParameters::flat());
    lemma_trim_line_feeds(rendered);
    lemma_visible_add(text, seq!['\n']);
    assert(all_whitespace(seq!['\n']));
    lemma_visible_whitespace(seq!['\n']);
    assert(visible(text) + Seq::<char>::empty() =~= visible(text));
}

/// Determinism: the formatted text is a function of the rule table, the
/// tree and the settings. The same of each gives the same text, character
/// for character and so byte for byte.
pub proof fn lemma_format_deterministic(
    rules: Rules,
    first: SyntaxNode,
    second: SyntaxNode,
    arguments: PrettyPrintParameters,
    again: PrettyPrintParameters,
)
    requires
        first == second,
        arguments == again,
    ensures
        format_spec(rules, first, arguments) == format_spec(rules, second, again),
        format_spec(rules, first, arguments) matches Some(text) ==> vstd::utf8::encode_utf8(text)
            == vstd::utf8::encode_utf8(format_spec(rules, second, again)->0),
{
}

/// The formatted text of a tree ends in one line feed and not in two,
/// whatever its last leaf holds.
pub proof fn lemma_format_ends_in_one_line_feed(
    rules: Rules,
    node: SyntaxNode,
    arguments: PrettyPrintParameters,
)
    requires
        format_spec(rules, node, arguments) is Some,
    ensures
        ends_in_one_line_feed(format_spec(rules, node, arguments)->0),
{
    let document = transform_spec(rules, node)->0;
    lemma_trim_line_feeds(render(document, arguments, WrapParameters::flat()).text);
}

} // verus!
