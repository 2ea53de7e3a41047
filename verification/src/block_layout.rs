//! Indentation inside a block container.
//!
//! A block container whose children are an opening brace, plain children and
//! a closing brace has one shape of document and one shape of text: the
//! brace, then each child after a line break with every line of it one unit
//! deeper than the braces, then the closing brace on a line of its own.

use crate::format_node::{has_direct_wrap, Doc};
use crate::placement::{lemma_node_stands_in, node_in};
use crate::print::format_spec;
use crate::render::{
    depth, lemma_pass_all_add, lemma_pass_all_push, lemma_render_surrounds,
    lemma_surrounded_block, lemma_surrounded_head, pass_all, render, surrounded, unit_of,
    PrettyPrintParameters, Rendered, Surrounding, WrapParameters,
};
use crate::rules::{get_spec, post_visit_spec, pre_visit_spec, FormatArguments, Rules};
use crate::text::{
    after_line_feed, between_line_feeds, indent_text, join, lemma_indent_lines, lemma_join_last,
    lemma_lines_are_plain, lemma_prefix_each_spaces, lemma_trim_keeps, lines,
    no_carriage_return, one_line, prefix_each, rejoined_line, spaces, stands_as_lines,
    starts_a_line, trim_line_feeds,
};
use crate::transform::{
    child_at, closed, emit_all, emitted, finish, fold_to_spec, fold_top_spec,
    has_multiple_newlines, opens_scope, separator, start, step, transform_spec, walked, Frame,
    Walk,
};
use crate::tree::SyntaxNode;
use vstd::prelude::*;
use vstd::string::*;

verus! {

/// What stands between the child `i - 1` and the child `i` of `node`.
pub open spec fn between_at(rules: Rules, node: SyntaxNode, i: int) -> FormatArguments {
    let previous = node.children[i - 1];
    let child = node.children[i];
    pre_visit_spec(rules, node.name, pending_at(rules, node, i), child.name, previous.name)
}

/// What the step of the child `i - 1` of `node` leaves to stand before the
/// child `i`.
pub open spec fn pending_at(rules: Rules, node: SyntaxNode, i: int) -> FormatArguments {
    let previous = node.children[i - 1];
    let child = node.children[i];
    post_visit_spec(
        rules,
        node.name,
        FormatArguments::none(),
        previous.name,
        has_multiple_newlines(previous, child),
        child.name,
    )
}

/// Whether `node` is a block container, not the root, and `i` is a child of
/// it that is neither its first child nor a closing brace, and that no rule
/// that outranks the block rule speaks of.
pub open spec fn block_child(rules: Rules, node: SyntaxNode, i: int) -> bool {
    &&& 1 <= i < node.children.len()
    &&& rules.block_elements.contains(node.name)
    &&& node.name != "program"@
    &&& !rules.wrap_list.contains(node.name)
    &&& !rules.add_wrap_before.contains(node.children[i].name)
    &&& node.children[i].name != "}"@
}

/// A child of a block container is emitted as one line break or two and,
/// after them, its document inside an `Indent`.
pub proof fn lemma_block_child_is_indented(rules: Rules, node: SyntaxNode, i: int, doc: Doc)
    requires
        block_child(rules, node, i),
    ensures
        emitted(between_at(rules, node, i), doc) == separator(between_at(rules, node, i)).push(
            Doc::Indent(Box::new(doc)),
        ),
        separator(between_at(rules, node, i)) == if pending_at(rules, node, i).double_newline {
            seq![Doc::Newline, Doc::Newline]
        } else {
            seq![Doc::Newline]
        },
{
}

/// Whether `node` is a block container, not the root, whose children are an
/// opening brace, one plain child or more, and a closing brace. A child is
/// plain when it is no delimiter and no breakable point always stands before
/// it.
pub open spec fn plain_block(rules: Rules, node: SyntaxNode) -> bool {
    let n = node.children.len() as int;
    &&& n >= 3
    &&& rules.block_elements.contains(node.name)
    &&& node.name != "program"@
    &&& !rules.wrap_list.contains(node.name)
    &&& rules.stack_pushers.contains("{"@)
    &&& rules.stack_poppers.contains("}"@)
    &&& !rules.add_wrap_before.contains("}"@)
    &&& node.children[0].name == "{"@
    &&& node.children[n - 1].name == "}"@
    &&& forall|i: int|
        1 <= i < n - 1 ==> {
            let name = (#[trigger] node.children[i]).name;
            &&& !rules.add_wrap_before.contains(name)
            &&& !rules.stack_pushers.contains(name)
            &&& !rules.stack_poppers.contains(name)
        }
}

/// The document of the child `i` of `node`.
pub open spec fn doc_at(rules: Rules, node: SyntaxNode, i: int) -> Doc {
    transform_spec(rules, node.children[i])->0
}

/// What the children `1` to `i` of a plain block emit.
pub open spec fn body_docs(rules: Rules, node: SyntaxNode, i: int) -> Seq<Doc>
    decreases i,
{
    if i <= 0 {
        Seq::empty()
    } else {
        body_docs(rules, node, i - 1) + emitted(between_at(rules, node, i), doc_at(rules, node, i))
    }
}

/// The document of a plain block: the opening brace, the group of its body,
/// and the closing brace after a line break.
pub open spec fn block_doc(rules: Rules, node: SyntaxNode) -> Doc {
    let n = node.children.len() as int;
    Doc::Group(
        seq![doc_at(rules, node, 0), Doc::Group(body_docs(rules, node, n - 2))] + emitted(
            between_at(rules, node, n - 1),
            doc_at(rules, node, n - 1),
        ),
    )
}

/// The line break, or the two of them, that `between` asks for.
pub open spec fn gap_text(between: FormatArguments) -> Seq<char> {
    if between.double_newline {
        seq!['\n', '\n']
    } else {
        seq!['\n']
    }
}

/// The text of the children `1` to `i` of a plain block: each after a line
/// break or two, and each with one unit in front of every line of it.
pub open spec fn body_text(
    rules: Rules,
    node: SyntaxNode,
    arguments: PrettyPrintParameters,
    i: int,
) -> Seq<char>
    decreases i,
{
    if i <= 0 {
        Seq::empty()
    } else {
        body_text(rules, node, arguments, i - 1) + gap_text(between_at(rules, node, i))
            + indent_text(
            render(doc_at(rules, node, i), arguments, WrapParameters::flat()).text,
            unit_of(arguments),
        )
    }
}

/// The text of a plain block: the opening brace, its body, and after a line
/// break the closing brace, which no unit stands before.
pub open spec fn block_text(
    rules: Rules,
    node: SyntaxNode,
    arguments: PrettyPrintParameters,
) -> Seq<char> {
    let n = node.children.len() as int;
    render(doc_at(rules, node, 0), arguments, WrapParameters::flat()).text + body_text(
        rules,
        node,
        arguments,
        n - 2,
    ) + gap_text(between_at(rules, node, n - 1)) + render(
        doc_at(rules, node, n - 1),
        arguments,
        WrapParameters::flat(),
    ).text
}

/// Where a node has a document, so has each of its children, and the walk
/// over its children never failed.
pub proof fn lemma_children_have_documents(rules: Rules, node: SyntaxNode, i: nat, n: nat)
    requires
        i <= n <= node.children.len(),
        walked(rules, node, n) is Some,
    ensures
        walked(rules, node, i) is Some,
        forall|j: int| 0 <= j < n ==> transform_spec(rules, #[trigger] node.children[j]) is Some,
    decreases n,
{
    if n > 0 {
        assert(walked(rules, node, (n - 1) as nat) is Some);
        assert(transform_spec(rules, node.children[n - 1]) is Some);
        if i < n {
            lemma_children_have_documents(rules, node, i, (n - 1) as nat);
        } else {
            lemma_children_have_documents(rules, node, (n - 1) as nat, (n - 1) as nat);
        }
    }
}

/// The walk over a plain block after its opening brace and its first `i`
/// plain children.
pub open spec fn block_walk(rules: Rules, node: SyntaxNode, i: int) -> Walk {
    let n = node.children.len() as int;
    let open = doc_at(rules, node, 0);
    let body = body_docs(rules, node, i);
    if i < n - 2 {
        Walk {
            stack: seq![
                Frame { children: seq![open], wrapping: None },
                Frame { children: body, wrapping: None },
            ],
            depths: seq![1nat],
            between: pending_at(rules, node, i + 1),
        }
    } else {
        Walk {
            stack: seq![Frame { children: seq![open, Doc::Group(body)], wrapping: None }],
            depths: Seq::empty(),
            between: pending_at(rules, node, i + 1),
        }
    }
}

/// The walk over a plain block takes the shape of `block_walk`.
pub proof fn lemma_block_walk(rules: Rules, node: SyntaxNode, i: int)
    requires
        plain_block(rules, node),
        0 <= i <= node.children.len() - 2,
        walked(rules, node, node.children.len()) is Some,
    ensures
        i == 0 ==> walked(rules, node, 1) == Some(
            Walk {
                stack: seq![Frame { children: seq![doc_at(rules, node, 0)], wrapping: None }],
                depths: Seq::empty(),
                between: pending_at(rules, node, 1),
            },
        ),
        i >= 1 ==> walked(rules, node, (i + 1) as nat) == Some(block_walk(rules, node, i)),
    decreases i,
{
    let n = node.children.len() as int;
    lemma_children_have_documents(rules, node, (i + 1) as nat, n as nat);
    let child = node.children[i];
    let doc = doc_at(rules, node, i);
    let previous = child_at(node, i - 1);
    assert(transform_spec(rules, child) is Some);
    if i == 0 {
        let before = start();
        let docs = emitted(before.between, doc);
        assert(docs =~= seq![doc]);
        assert(Seq::<Doc>::empty() + docs =~= seq![doc]);
        assert(before.stack.drop_last().push(Frame { children: seq![doc], wrapping: None })
            =~= seq![Frame { children: seq![doc], wrapping: None }]);
        assert(!rules.stack_poppers.contains(node.children[1].name));
    } else {
        lemma_block_walk(rules, node, i - 1);
        let before = walked(rules, node, i as nat)->0;
        let between = between_at(rules, node, i);
        assert(before.between == pending_at(rules, node, i));
        assert(block_child(rules, node, i)) by {
            assert(!rules.stack_poppers.contains(node.children[i].name));
        }
        lemma_block_child_is_indented(rules, node, i, doc);
        let docs = emitted(between, doc);
        let open = Frame { children: seq![doc_at(rules, node, 0)], wrapping: None };
        let empty = Frame { children: Seq::<Doc>::empty(), wrapping: None };
        let scoped = if i == 1 {
            before.stack.push(empty)
        } else {
            before.stack
        };
        if i == 1 {
            assert(opens_scope(rules, previous, child));
            assert(body_docs(rules, node, 0) =~= Seq::<Doc>::empty());
            assert(scoped =~= seq![open, empty]);
        } else {
            assert(!rules.stack_pushers.contains(node.children[i - 1].name));
            assert(!opens_scope(rules, previous, child));
            assert(i - 1 < n - 2);
            assert(before == block_walk(rules, node, i - 1));
        }
        let body_before = body_docs(rules, node, i - 1);
        assert(scoped =~= seq![open, Frame { children: body_before, wrapping: None }]);
        let body = body_docs(rules, node, i);
        let filled = emit_all(scoped, docs);
        assert(filled =~= seq![open, Frame { children: body, wrapping: None }]);
        if i == n - 2 {
            assert(node.children[i + 1].name == "}"@);
            let folded = fold_top_spec(filled);
            assert(filled.drop_last() =~= seq![open]);
            assert(closed(filled.last()) == Doc::Group(body));
            assert(seq![open].drop_last().push(
                Frame { children: open.children.push(Doc::Group(body)), wrapping: None },
            ) =~= seq![Frame { children: open.children.push(Doc::Group(body)), wrapping: None }]);
            assert(open.children.push(Doc::Group(body)) =~= seq![
                doc_at(rules, node, 0),
                Doc::Group(body),
            ]);
            assert(folded =~= seq![
                Frame { children: seq![doc_at(rules, node, 0), Doc::Group(body)], wrapping: None },
            ]);
            assert(fold_to_spec(folded, 1) == folded);
            assert(fold_to_spec(filled, 1) == folded);
            let depths = if i == 1 {
                before.depths.push(1nat)
            } else {
                before.depths
            };
            assert(depths =~= seq![1nat]);
            assert(depths.drop_last() =~= Seq::<nat>::empty());
        } else {
            assert(!rules.stack_poppers.contains(node.children[i + 1].name));
            if i == 1 {
                assert(before.depths.push(1nat) =~= seq![1nat]);
            }
        }
    }
}

/// The document of a plain block is `block_doc`.
pub proof fn lemma_block_document(rules: Rules, node: SyntaxNode)
    requires
        plain_block(rules, node),
        transform_spec(rules, node) is Some,
    ensures
        transform_spec(rules, node) == Some(block_doc(rules, node)),
{
    let n = node.children.len() as int;
    let i = n - 1;
    lemma_block_walk(rules, node, n - 2);
    let before = walked(rules, node, (n - 1) as nat)->0;
    assert(before == block_walk(rules, node, n - 2));
    let child = node.children[i];
    let doc = doc_at(rules, node, i);
    let between = between_at(rules, node, i);
    assert(!rules.stack_pushers.contains(node.children[n - 2].name));
    assert(node.children[n - 2].name != "{"@);
    assert(!between.wrap);
    assert(!opens_scope(rules, child_at(node, i - 1), child));
    let docs = emitted(between, doc);
    let filled = emit_all(before.stack, docs);
    let body = body_docs(rules, node, n - 2);
    let all = seq![doc_at(rules, node, 0), Doc::Group(body)] + docs;
    assert(filled =~= seq![Frame { children: all, wrapping: None }]);
    assert(fold_to_spec(filled, 1) == filled);
    assert(walked(rules, node, n as nat) == Some(
        Walk { stack: filled, depths: before.depths, between: FormatArguments::none() },
    ));
    assert(finish(filled) == Doc::Group(all));
}

/// The rendering of a separator and, after it, one document: the line
/// breaks of the separator and the rendering of the document.
pub proof fn lemma_gap_then(
    between: FormatArguments,
    last: Doc,
    args: PrettyPrintParameters,
)
    requires
        !between.wrap,
        between.indent || between.newline || between.double_newline,
    ensures
        pass_all(separator(between).push(last), args, WrapParameters::flat()).text == gap_text(
            between,
        ) + render(last, args, WrapParameters::flat()).text,
        pass_all(separator(between).push(last), args, WrapParameters::flat()).is_wrapped
            == render(last, args, WrapParameters::flat()).is_wrapped,
        !has_direct_wrap(separator(between)),
{
    let flat = WrapParameters::flat();
    let none = Seq::<Doc>::empty();
    let sep = separator(between);
    lemma_pass_all_push(sep, last, args, flat);
    lemma_pass_all_push(none, Doc::Newline, args, flat);
    lemma_pass_all_push(none.push(Doc::Newline), Doc::Newline, args, flat);
    assert(pass_all(none, args, flat).text =~= Seq::<char>::empty());
    if between.double_newline {
        assert(sep =~= none.push(Doc::Newline).push(Doc::Newline));
        assert(pass_all(sep, args, flat).text =~= gap_text(between));
    } else {
        assert(sep =~= none.push(Doc::Newline));
        assert(pass_all(sep, args, flat).text =~= gap_text(between));
    }
}

/// The body of a plain block renders in one pass, as `body_text`, and
/// reports no break.
pub proof fn lemma_body_text(rules: Rules, node: SyntaxNode, args: PrettyPrintParameters, i: int)
    requires
        plain_block(rules, node),
        0 <= i <= node.children.len() - 2,
    ensures
        !has_direct_wrap(body_docs(rules, node, i)),
        pass_all(body_docs(rules, node, i), args, WrapParameters::flat()) == (Rendered {
            text: body_text(rules, node, args, i),
            is_wrapped: false,
        }),
    decreases i,
{
    let flat = WrapParameters::flat();
    if i <= 0 {
        assert(pass_all(body_docs(rules, node, i), args, flat).text =~= body_text(
            rules,
            node,
            args,
            i,
        ));
    } else {
        lemma_body_text(rules, node, args, i - 1);
        let between = between_at(rules, node, i);
        let doc = doc_at(rules, node, i);
        let inner = Doc::Indent(Box::new(doc));
        assert(block_child(rules, node, i)) by {
            assert(!rules.stack_poppers.contains(node.children[i].name));
        }
        lemma_block_child_is_indented(rules, node, i, doc);
        lemma_gap_then(between, inner, args);
        let before = body_docs(rules, node, i - 1);
        let added = emitted(between, doc);
        lemma_pass_all_add(before, added, args, flat);
        assert(render(inner, args, flat).text == indent_text(
            render(doc, args, flat).text,
            unit_of(args),
        ));
        assert(!render(inner, args, flat).is_wrapped);
        let all = pass_all(before + added, args, flat);
        assert(all.text =~= body_text(rules, node, args, i));
        assert(!all.is_wrapped);
        assert forall|j: int| 0 <= j < (before + added).len() implies !(#[trigger] (before
            + added)[j] is Wrap) by {
            if j < before.len() {
                assert(before[j] == (before + added)[j]);
            } else {
                let k = j - before.len();
                assert(added[k] == (before + added)[j]);
                if k < separator(between).len() {
                    assert(added[k] == separator(between)[k]);
                }
            }
        }
    }
}

/// Indentation inside a block container: the text of a plain block is
/// `block_text`, whatever the maximum width is and whatever a group above
/// decided. So the opening brace ends its line, each child starts on a line
/// of its own, the closing brace stands on a line of its own, and each line
/// of each child has exactly one unit in front of what the child's own
/// rendering has there, while the line of the closing brace has none.
pub proof fn lemma_block_lines_are_indented(
    rules: Rules,
    node: SyntaxNode,
    args: PrettyPrintParameters,
    parent_wrap: WrapParameters,
)
    requires
        plain_block(rules, node),
        transform_spec(rules, node) is Some,
    ensures
        render(transform_spec(rules, node)->0, args, parent_wrap).text == block_text(
            rules,
            node,
            args,
        ),
{
    let flat = WrapParameters::flat();
    let n = node.children.len() as int;
    lemma_block_document(rules, node);
    lemma_children_have_documents(rules, node, n as nat, n as nat);
    lemma_body_text(rules, node, args, n - 2);
    let open = doc_at(rules, node, 0);
    let close = doc_at(rules, node, n - 1);
    let body = Doc::Group(body_docs(rules, node, n - 2));
    let between = between_at(rules, node, n - 1);
    assert(!rules.stack_pushers.contains(node.children[n - 2].name));
    assert(transform_spec(rules, node.children[0]) is Some);
    assert(transform_spec(rules, node.children[n - 1]) is Some);
    assert(!(open is Wrap));
    assert(!(close is Wrap));
    let head = seq![open, body];
    let tail = emitted(between, close);
    assert(tail == separator(between).push(close));
    lemma_gap_then(between, close, args);
    lemma_pass_all_add(head, tail, args, flat);
    lemma_pass_all_push(Seq::<Doc>::empty(), open, args, flat);
    lemma_pass_all_push(Seq::<Doc>::empty().push(open), body, args, flat);
    assert(head =~= Seq::<Doc>::empty().push(open).push(body));
    assert(pass_all(Seq::<Doc>::empty(), args, flat).text + render(open, args, flat).text
        =~= render(open, args, flat).text);
    assert(render(body, args, flat).text == body_text(rules, node, args, n - 2));
    let all = head + tail;
    assert forall|j: int| 0 <= j < all.len() implies !(#[trigger] all[j] is Wrap) by {
        if j >= 2 {
            let k = j - 2;
            assert(all[j] == tail[k]);
            if k < separator(between).len() {
                assert(tail[k] == separator(between)[k]);
            }
        }
    }
    assert(pass_all(all, args, flat).text =~= block_text(rules, node, args));
}

/// Each line of an indented child is one unit and then the line of the
/// child: with a unit of `indent_size` spaces, `indent_size` not zero, the
/// text that `body_text` holds for a child has as many lines as the child's
/// own rendering, and each of them starts with exactly that unit.
pub proof fn lemma_indented_child_lines(child: Doc, args: PrettyPrintParameters)
    requires
        args.indent_size >= 1,
    ensures
        ({
            let own = render(child, args, WrapParameters::flat()).text;
            let inside = indent_text(own, unit_of(args));
            &&& lines(inside).len() == lines(own).len()
            &&& forall|i: int|
                0 <= i < lines(own).len() ==> #[trigger] lines(inside)[i] == unit_of(args)
                    + rejoined_line(lines(own), i)
        }),
{
    lemma_indent_lines(render(child, args, WrapParameters::flat()).text, args.indent_size as nat);
}

/// The text of the children `i + 1` to `m` of a plain block.
pub open spec fn body_tail(
    rules: Rules,
    node: SyntaxNode,
    arguments: PrettyPrintParameters,
    i: int,
    m: int,
) -> Seq<char>
    decreases m,
{
    if m <= i || m <= 0 {
        Seq::empty()
    } else {
        body_tail(rules, node, arguments, i, m - 1) + gap_text(between_at(rules, node, m))
            + indent_text(
            render(doc_at(rules, node, m), arguments, WrapParameters::flat()).text,
            unit_of(arguments),
        )
    }
}

/// The text of the body of a plain block is that of its first `i` children
/// and then that of the others, which is empty or starts with a line feed.
pub proof fn lemma_body_split(
    rules: Rules,
    node: SyntaxNode,
    arguments: PrettyPrintParameters,
    i: int,
    m: int,
)
    requires
        0 <= i <= m,
    ensures
        body_text(rules, node, arguments, m) == body_text(rules, node, arguments, i) + body_tail(
            rules,
            node,
            arguments,
            i,
            m,
        ),
        body_tail(rules, node, arguments, i, m).len() > 0 ==> body_tail(
            rules,
            node,
            arguments,
            i,
            m,
        )[0] == '\n',
    decreases m,
{
    let tail = body_tail(rules, node, arguments, i, m);
    if m == i {
        assert(body_text(rules, node, arguments, i) + tail =~= body_text(
            rules,
            node,
            arguments,
            m,
        ));
    } else {
        lemma_body_split(rules, node, arguments, i, m - 1);
        let gap = gap_text(between_at(rules, node, m));
        let last = indent_text(
            render(doc_at(rules, node, m), arguments, WrapParameters::flat()).text,
            unit_of(arguments),
        );
        let before = body_tail(rules, node, arguments, i, m - 1);
        assert(gap[0] == '\n');
        assert(tail =~= before + gap + last);
        if before.len() > 0 {
            assert(tail[0] == before[0]);
        } else {
            assert(tail[0] == gap[0]);
        }
        assert(body_text(rules, node, arguments, m) =~= body_text(rules, node, arguments, i)
            + tail);
    }
}

/// What stands in the text of a plain block before the line on which its
/// child `i` starts.
pub open spec fn before_child(
    rules: Rules,
    node: SyntaxNode,
    arguments: PrettyPrintParameters,
    i: int,
) -> Seq<char> {
    render(doc_at(rules, node, 0), arguments, WrapParameters::flat()).text + body_text(
        rules,
        node,
        arguments,
        i - 1,
    ) + gap_text(between_at(rules, node, i)).drop_last()
}

/// What stands in the text of a plain block after the line on which its
/// child `i` ends.
pub open spec fn after_child(
    rules: Rules,
    node: SyntaxNode,
    arguments: PrettyPrintParameters,
    i: int,
) -> Seq<char> {
    let n = node.children.len() as int;
    (body_tail(rules, node, arguments, i, n - 2) + gap_text(between_at(rules, node, n - 1))
        + render(doc_at(rules, node, n - 1), arguments, WrapParameters::flat()).text).drop_first()
}

/// A child of a block in its surroundings: whatever text stands before and
/// after the text of a plain block, each child of the block stands between
/// two line feeds, so it starts on a line of its own and ends its line, and
/// what stands there is the child's own rendering with one unit in front of
/// each of its lines. The closing brace stands directly after a line feed,
/// with no unit in front of it.
pub proof fn lemma_block_child_in_context(
    rules: Rules,
    node: SyntaxNode,
    arguments: PrettyPrintParameters,
    i: int,
    before: Seq<char>,
    after: Seq<char>,
)
    requires
        1 <= i <= node.children.len() - 2,
    ensures
        before + block_text(rules, node, arguments) + after == (before + before_child(
            rules,
            node,
            arguments,
            i,
        )) + seq!['\n'] + indent_text(
            render(doc_at(rules, node, i), arguments, WrapParameters::flat()).text,
            unit_of(arguments),
        ) + seq!['\n'] + (after_child(rules, node, arguments, i) + after),
        before + block_text(rules, node, arguments) + after == (before + before_child(
            rules,
            node,
            arguments,
            node.children.len() - 1,
        )) + seq!['\n'] + (render(
            doc_at(rules, node, node.children.len() - 1),
            arguments,
            WrapParameters::flat(),
        ).text + after),
{
    let n = node.children.len() as int;
    let flat = WrapParameters::flat();
    let open = render(doc_at(rules, node, 0), arguments, flat).text;
    let close = render(doc_at(rules, node, n - 1), arguments, flat).text;
    let child = indent_text(
        render(doc_at(rules, node, i), arguments, flat).text,
        unit_of(arguments),
    );
    let gap = gap_text(between_at(rules, node, i));
    let last_gap = gap_text(between_at(rules, node, n - 1));
    let tail = body_tail(rules, node, arguments, i, n - 2);
    let front = body_text(rules, node, arguments, i - 1);
    lemma_body_split(rules, node, arguments, i, n - 2);
    assert(body_text(rules, node, arguments, i) == front + gap + child);
    assert(gap.last() == '\n' && last_gap.last() == '\n' && last_gap[0] == '\n');
    lemma_between_line_feeds(before, open, front, gap, child, tail, last_gap, close, after);
}

/// Texts put together in two ways: a text between a gap that ends in a line
/// feed and a rest that starts with one stands between two line feeds.
proof fn lemma_between_line_feeds(
    before: Seq<char>,
    open: Seq<char>,
    front: Seq<char>,
    gap: Seq<char>,
    child: Seq<char>,
    tail: Seq<char>,
    last_gap: Seq<char>,
    close: Seq<char>,
    after: Seq<char>,
)
    requires
        gap.len() >= 1,
        gap.last() == '\n',
        last_gap.len() >= 1,
        last_gap[0] == '\n',
        last_gap.last() == '\n',
        tail.len() > 0 ==> tail[0] == '\n',
    ensures
        before + (open + ((front + gap + child) + tail) + last_gap + close) + after == (before + (
        open + front + gap.drop_last())) + seq!['\n'] + child + seq!['\n'] + ((tail + last_gap
            + close).drop_first() + after),
        before + (open + ((front + gap + child) + tail) + last_gap + close) + after == (before + (
        open + ((front + gap + child) + tail) + last_gap.drop_last())) + seq!['\n'] + (close
            + after),
{
    let rest = tail + last_gap + close;
    assert(rest[0] == '\n') by {
        if tail.len() > 0 {
            assert(rest[0] == tail[0]);
        } else {
            assert(rest[0] == last_gap[0]);
        }
    }
    assert(gap =~= gap.drop_last() + seq!['\n']);
    assert(last_gap =~= last_gap.drop_last() + seq!['\n']);
    assert(rest =~= seq!['\n'] + rest.drop_first());
    let whole = before + (open + ((front + gap + child) + tail) + last_gap + close) + after;
    assert(whole =~= before + open + front + gap + child + rest + after);
    assert(whole =~= (before + (open + front + gap.drop_last())) + seq!['\n'] + child + seq![
        '\n',
    ] + (rest.drop_first() + after));
    assert(whole =~= (before + (open + ((front + gap + child) + tail) + last_gap.drop_last()))
        + seq!['\n'] + (close + after));
}

/// A block anywhere in a file: the formatted text of a file is made of the
/// text of each plain block in it, which is `block_text` wherever the block
/// stands, by the steps that are returned and by nothing else: text put
/// before and after it, one unit put in front of each line, which moves the
/// braces and the children of the block alike, and at last the line feed at
/// the end. So the children of the block stay one unit deeper than its
/// braces.
pub proof fn lemma_block_in_file(
    rules: Rules,
    root: SyntaxNode,
    block: SyntaxNode,
    arguments: PrettyPrintParameters,
) -> (steps: Seq<Surrounding>)
    requires
        node_in(block, root),
        plain_block(rules, block),
        format_spec(rules, root, arguments) is Some,
    ensures
        format_spec(rules, root, arguments)->0 == trim_line_feeds(
            surrounded(steps, block_text(rules, block, arguments), unit_of(arguments)),
        ) + seq!['\n'],
{
    lemma_node_stands_in(rules, block, root);
    let part = transform_spec(rules, block)->0;
    let whole = transform_spec(rules, root)->0;
    let found = lemma_render_surrounds(part, whole, arguments, WrapParameters::flat());
    lemma_block_lines_are_indented(rules, block, arguments, found.1);
    found.0
}

/// The text of the child `i` of `node` on its own, before it is indented.
pub open spec fn own_text(
    rules: Rules,
    node: SyntaxNode,
    arguments: PrettyPrintParameters,
    i: int,
) -> Seq<char> {
    render(doc_at(rules, node, i), arguments, WrapParameters::flat()).text
}

/// `count` units of indentation.
pub open spec fn units(count: nat, arguments: PrettyPrintParameters) -> Seq<char> {
    spaces(count * (arguments.indent_size as nat))
}

/// Whether `text` is not empty and holds no carriage return.
pub open spec fn plain_text(text: Seq<char>) -> bool {
    text.len() >= 1 && no_carriage_return(text)
}

/// Whether `text` is one line, not empty and without carriage return.
pub open spec fn plain_line(text: Seq<char>) -> bool {
    text.len() >= 1 && one_line(text) && no_carriage_return(text)
}

/// The lines of a child through the steps that lead from the text of its
/// block to the text of a file.
proof fn lemma_child_through(
    steps: Seq<Surrounding>,
    rules: Rules,
    block: SyntaxNode,
    arguments: PrettyPrintParameters,
    i: int,
)
    requires
        1 <= i <= block.children.len() - 2,
        arguments.indent_size >= 1,
        plain_text(own_text(rules, block, arguments, i)),
        own_text(rules, block, arguments, block.children.len() - 1).len() >= 1,
    ensures
        stands_as_lines(
            trim_line_feeds(
                surrounded(steps, block_text(rules, block, arguments), unit_of(arguments)),
            ) + seq!['\n'],
            prefix_each(
                lines(own_text(rules, block, arguments, i)),
                units((depth(steps) + 1) as nat, arguments),
            ),
        ),
{
    let n = arguments.indent_size as nat;
    let m = depth(steps);
    let none = Seq::<char>::empty();
    let sep = seq!['\n'];
    let own = own_text(rules, block, arguments, i);
    let text = block_text(rules, block, arguments);
    let before = before_child(rules, block, arguments, i);
    let after = after_child(rules, block, arguments, i);
    let first = prefix_each(lines(own), spaces(n));
    lemma_block_child_in_context(rules, block, arguments, i, none, none);
    assert(text =~= between_line_feeds(before, first, after));
    lemma_lines_are_plain(own);
    lemma_prefix_each_spaces(lines(own), 0, n);
    assert(after.len() >= 1);
    let found = lemma_surrounded_block(steps, before, first, after, n);
    let deep = prefix_each(first, spaces(m * n));
    lemma_prefix_each_spaces(lines(own), n, m * n);
    lemma_prefix_each_spaces(first, 0, m * n);
    assert(((m + 1) as nat) * n == n + m * n) by (nonlinear_arith);
    let last = deep.len() - 1;
    assert(deep[last].len() >= 1) by {
        assert(deep[last] == spaces(m * n) + first[last]);
        assert(first[last] == spaces(n) + lines(own)[last]);
    }
    lemma_join_last(deep, sep);
    assert(one_line(deep[last]));
    let joined = join(deep, sep);
    let start = found.0 + sep + joined;
    let rest = sep + found.1;
    let whole = surrounded(steps, text, unit_of(arguments));
    assert(whole =~= start + rest);
    assert(start.last() == joined.last());
    let end = lemma_trim_keeps(start, rest);
    assert(end[0] == '\n');
    assert(start + end =~= between_line_feeds(found.0, deep, end.drop_first()));
}

/// The closing brace through the steps that lead from the text of its block
/// to the text of a file.
proof fn lemma_brace_through(
    steps: Seq<Surrounding>,
    rules: Rules,
    block: SyntaxNode,
    arguments: PrettyPrintParameters,
)
    requires
        block.children.len() >= 3,
        arguments.indent_size >= 1,
        plain_line(own_text(rules, block, arguments, block.children.len() - 1)),
    ensures
        starts_a_line(
            trim_line_feeds(
                surrounded(steps, block_text(rules, block, arguments), unit_of(arguments)),
            ) + seq!['\n'],
            units(depth(steps), arguments) + own_text(
                rules,
                block,
                arguments,
                block.children.len() - 1,
            ),
        ),
{
    let n = arguments.indent_size as nat;
    let m = depth(steps);
    let none = Seq::<char>::empty();
    let sep = seq!['\n'];
    let last = block.children.len() - 1;
    let close = own_text(rules, block, arguments, last);
    let text = block_text(rules, block, arguments);
    let before = before_child(rules, block, arguments, last);
    lemma_block_child_in_context(rules, block, arguments, 1, none, none);
    assert(text =~= after_line_feed(before, close, none));
    let found = lemma_surrounded_head(steps, before, close, none, n);
    let head = spaces(m * n) + close;
    let start = found.0 + sep + head;
    let whole = surrounded(steps, text, unit_of(arguments));
    assert(whole =~= start + found.1);
    assert(start.last() == close.last());
    let end = lemma_trim_keeps(start, found.1);
    assert(start + end =~= after_line_feed(found.0, head, end));
}

/// Indentation of a block anywhere in a file. The number that is returned
/// is how often the block is indented as a whole. In the formatted text of
/// the file, the lines of each child of a plain block are lines that follow
/// each other, each with one unit more in front of it than that number
/// says; and the closing brace of the block starts a line, with exactly as
/// many units in front of it as the number says. So each line of each child
/// is exactly one unit deeper than the line of the closing brace.
///
/// This is stated of a child whose rendering is not empty and holds no
/// carriage return, and of a closing brace whose text is one such line.
pub proof fn lemma_block_indentation_in_file(
    rules: Rules,
    root: SyntaxNode,
    block: SyntaxNode,
    arguments: PrettyPrintParameters,
) -> (deep: nat)
    requires
        node_in(block, root),
        plain_block(rules, block),
        format_spec(rules, root, arguments) is Some,
        arguments.indent_size >= 1,
    ensures
        forall|i: int|
            1 <= i <= block.children.len() - 2 && plain_text(
                #[trigger] own_text(rules, block, arguments, i),
            ) && own_text(rules, block, arguments, block.children.len() - 1).len() >= 1
                ==> stands_as_lines(
                format_spec(rules, root, arguments)->0,
                prefix_each(
                    lines(own_text(rules, block, arguments, i)),
                    units((deep + 1) as nat, arguments),
                ),
            ),
        plain_line(own_text(rules, block, arguments, block.children.len() - 1)) ==> starts_a_line(
            format_spec(rules, root, arguments)->0,
            units(deep, arguments) + own_text(
                rules,
                block,
                arguments,
                block.children.len() - 1,
            ),
        ),
{
    let steps = lemma_block_in_file(rules, root, block, arguments);
    let file = format_spec(rules, root, arguments)->0;
    assert forall|i: int|
        1 <= i <= block.children.len() - 2 && plain_text(
            #[trigger] own_text(rules, block, arguments, i),
        ) && own_text(rules, block, arguments, block.children.len() - 1).len()
            >= 1 implies stands_as_lines(
        file,
        prefix_each(
            lines(own_text(rules, block, arguments, i)),
            units((depth(steps) + 1) as nat, arguments),
        ),
    ) by {
        lemma_child_through(steps, rules, block, arguments, i);
    }
    if plain_line(own_text(rules, block, arguments, block.children.len() - 1)) {
        lemma_brace_through(steps, rules, block, arguments);
    }
    depth(steps)
}

/// Whether `node` is the root and each of its children is plain: no
/// delimiter, no closing brace, and nothing that a breakable point always
/// stands before.
pub open spec fn plain_root(rules: Rules, node: SyntaxNode) -> bool {
    &&& node.children.len() >= 1
    &&& node.name == "program"@
    &&& !rules.wrap_list.contains(node.name)
    &&& forall|i: int|
        0 <= i < node.children.len() ==> {
            let name = (#[trigger] node.children[i]).name;
            &&& name != "}"@
            &&& !rules.add_wrap_before.contains(name)
            &&& !rules.stack_pushers.contains(name)
            &&& !rules.stack_poppers.contains(name)
        }
}

/// What the children `0` to `i` of a plain root emit: the first its
/// document, each other one a line break or two and its document.
pub open spec fn root_docs(rules: Rules, node: SyntaxNode, i: int) -> Seq<Doc>
    decreases i,
{
    if i <= 0 {
        seq![doc_at(rules, node, 0)]
    } else {
        root_docs(rules, node, i - 1) + emitted(between_at(rules, node, i), doc_at(rules, node, i))
    }
}

/// The text of the children `0` to `i` of a plain root: each on a line of
/// its own, with a blank line before it where one is asked for, and none of
/// them indented.
pub open spec fn root_text(
    rules: Rules,
    node: SyntaxNode,
    arguments: PrettyPrintParameters,
    i: int,
) -> Seq<char>
    decreases i,
{
    if i <= 0 {
        render(doc_at(rules, node, 0), arguments, WrapParameters::flat()).text
    } else {
        root_text(rules, node, arguments, i - 1) + gap_text(between_at(rules, node, i)) + render(
            doc_at(rules, node, i),
            arguments,
            WrapParameters::flat(),
        ).text
    }
}

/// What a plain root leaves to stand before its child `i + 1`, or nothing
/// after its last child.
pub open spec fn root_pending(rules: Rules, node: SyntaxNode, i: int) -> FormatArguments {
    if i + 1 < node.children.len() {
        pending_at(rules, node, i + 1)
    } else {
        FormatArguments::none()
    }
}

/// A child of a plain root, but the first, is emitted as one line break or
/// two and, after them, its document as it is.
pub proof fn lemma_root_child_is_on_its_line(rules: Rules, node: SyntaxNode, i: int, doc: Doc)
    requires
        plain_root(rules, node),
        1 <= i < node.children.len(),
    ensures
        !between_at(rules, node, i).wrap,
        !between_at(rules, node, i).indent,
        between_at(rules, node, i).newline,
        emitted(between_at(rules, node, i), doc) == separator(between_at(rules, node, i)).push(
            doc,
        ),
{
    assert(node.children[i].name != "}"@);
}

/// The walk over a plain root keeps one container, which holds what its
/// children emitted.
pub proof fn lemma_root_walk(rules: Rules, node: SyntaxNode, i: int)
    requires
        plain_root(rules, node),
        0 <= i < node.children.len(),
        walked(rules, node, node.children.len()) is Some,
    ensures
        walked(rules, node, (i + 1) as nat) == Some(
            Walk {
                stack: seq![Frame { children: root_docs(rules, node, i), wrapping: None }],
                depths: Seq::empty(),
                between: root_pending(rules, node, i),
            },
        ),
    decreases i,
{
    let n = node.children.len() as int;
    lemma_children_have_documents(rules, node, (i + 1) as nat, n as nat);
    let child = node.children[i];
    let doc = doc_at(rules, node, i);
    assert(transform_spec(rules, child) is Some);
    assert(!rules.stack_poppers.contains(node.children[i].name));
    if i + 1 < n {
        assert(!rules.stack_poppers.contains(node.children[i + 1].name));
    }
    if i == 0 {
        let before = start();
        let docs = emitted(before.between, doc);
        assert(docs =~= seq![doc]);
        assert(emit_all(before.stack, docs) =~= seq![
            Frame { children: root_docs(rules, node, 0), wrapping: None },
        ]);
    } else {
        lemma_root_walk(rules, node, i - 1);
        lemma_root_child_is_on_its_line(rules, node, i, doc);
        assert(!rules.stack_pushers.contains(node.children[i - 1].name));
        let before = walked(rules, node, i as nat)->0;
        let docs = emitted(between_at(rules, node, i), doc);
        assert(emit_all(before.stack, docs) =~= seq![
            Frame { children: root_docs(rules, node, i), wrapping: None },
        ]);
    }
}

/// The children of a plain root render one after the other, in one pass:
/// none of what they emit is a wrap.
pub proof fn lemma_root_pass(rules: Rules, node: SyntaxNode, args: PrettyPrintParameters, i: int)
    requires
        plain_root(rules, node),
        0 <= i < node.children.len(),
        forall|j: int|
            0 <= j < node.children.len() ==> transform_spec(rules, #[trigger] node.children[j])
                is Some,
    ensures
        !has_direct_wrap(root_docs(rules, node, i)),
        pass_all(root_docs(rules, node, i), args, WrapParameters::flat()).text == root_text(
            rules,
            node,
            args,
            i,
        ),
    decreases i,
{
    let flat = WrapParameters::flat();
    let doc = doc_at(rules, node, i);
    assert(transform_spec(rules, node.children[i]) is Some);
    assert(!(doc is Wrap));
    if i == 0 {
        let docs = root_docs(rules, node, 0);
        lemma_pass_all_push(Seq::<Doc>::empty(), doc, args, flat);
        assert(docs =~= Seq::<Doc>::empty().push(doc));
        assert(pass_all(Seq::<Doc>::empty(), args, flat).text + render(doc, args, flat).text
            =~= render(doc, args, flat).text);
        assert forall|j: int| 0 <= j < docs.len() implies !(#[trigger] docs[j] is Wrap) by {}
    } else {
        lemma_root_pass(rules, node, args, i - 1);
        lemma_root_child_is_on_its_line(rules, node, i, doc);
        let between = between_at(rules, node, i);
        lemma_gap_then(between, doc, args);
        let before = root_docs(rules, node, i - 1);
        let added = emitted(between, doc);
        lemma_pass_all_add(before, added, args, flat);
        assert(pass_all(before + added, args, flat).text =~= root_text(rules, node, args, i));
        assert forall|j: int| 0 <= j < (before + added).len() implies !(#[trigger] (before
            + added)[j] is Wrap) by {
            if j < before.len() {
                assert(before[j] == (before + added)[j]);
            } else {
                let k = j - before.len();
                assert(added[k] == (before + added)[j]);
                if k < separator(between).len() {
                    assert(added[k] == separator(between)[k]);
                }
            }
        }
    }
}

/// Lines at the root: the document of a plain root is the group of what
/// its children emit, and its text is `root_text`, whatever the maximum
/// width is. So each child starts on a line of its own, with no unit before
/// it, and a blank line stands before it exactly where one is asked for.
pub proof fn lemma_root_lines(
    rules: Rules,
    node: SyntaxNode,
    args: PrettyPrintParameters,
    parent_wrap: WrapParameters,
)
    requires
        plain_root(rules, node),
        transform_spec(rules, node) is Some,
    ensures
        transform_spec(rules, node) == Some(
            Doc::Group(root_docs(rules, node, node.children.len() - 1)),
        ),
        render(transform_spec(rules, node)->0, args, parent_wrap).text == root_text(
            rules,
            node,
            args,
            node.children.len() - 1,
        ),
{
    let n = node.children.len() as int;
    lemma_root_walk(rules, node, n - 1);
    lemma_children_have_documents(rules, node, n as nat, n as nat);
    lemma_root_pass(rules, node, args, n - 1);
    let stack = walked(rules, node, n as nat)->0.stack;
    assert(fold_to_spec(stack, 1) == stack);
}

/// A file whose root is plain: its formatted text is `root_text`, without
/// the line feeds at its end and with one line feed in their place.
pub proof fn lemma_root_file(rules: Rules, node: SyntaxNode, args: PrettyPrintParameters)
    requires
        plain_root(rules, node),
        format_spec(rules, node, args) is Some,
    ensures
        format_spec(rules, node, args) == Some(
            trim_line_feeds(root_text(rules, node, args, node.children.len() - 1)) + seq!['\n'],
        ),
{
    lemma_root_lines(rules, node, args, WrapParameters::flat());
}

/// Imports at the root, under the table of Java: no blank line stands
/// between two imports that the source had none between, and exactly one
/// stands between an import and what follows it where that is no import.
pub proof fn lemma_lines_after_imports(node: SyntaxNode, i: int)
    requires
        plain_root(get_spec(), node),
        1 <= i < node.children.len(),
        node.children[i - 1].name == "import_declaration"@,
    ensures
        node.children[i].name == "import_declaration"@ && !has_multiple_newlines(
            node.children[i - 1],
            node.children[i],
        ) ==> gap_text(between_at(get_spec(), node, i)) == seq!['\n'],
        node.children[i].name != "import_declaration"@ ==> gap_text(
            between_at(get_spec(), node, i),
        ) == seq!['\n', '\n'],
{
    let import = "import_declaration"@;
    reveal_strlit("import_declaration");
    reveal_strlit("if_statement");
    reveal_strlit("try_statement");
    reveal_strlit("for_statement");
    reveal_strlit("do_statement");
    reveal_strlit("while_statement");
    reveal_strlit("package_declaration");
    reveal_strlit("class_declaration");
    reveal_strlit("enum_declaration");
    reveal_strlit("record_declaration");
    reveal_strlit("method_declaration");
    reveal_strlit("constructor_declaration");
    reveal_strlit("field_declaration");
    reveal_strlit("program");
    reveal_strlit("_body");
    assert(import.len() == 18 && import[0] == 'i');
    assert("if_statement"@.len() == 12);
    assert("try_statement"@.len() == 13);
    assert("for_statement"@.len() == 13);
    assert("do_statement"@.len() == 12);
    assert("while_statement"@.len() == 15);
    assert("package_declaration"@.len() == 19);
    assert("class_declaration"@.len() == 17);
    assert("enum_declaration"@.len() == 16);
    assert("record_declaration"@[0] == 'r');
    assert("method_declaration"@[0] == 'm');
    assert("constructor_declaration"@.len() == 23);
    assert("field_declaration"@.len() == 17);
    assert(!get_spec().newline_after.contains(import));
    assert(!get_spec().conditional_newline_after.contains(import));
    assert(!"_body"@.is_suffix_of("program"@)) by {
        assert("program"@.len() == 7 && "_body"@.len() == 5);
        assert("program"@.subrange(2, 7)[0] == 'o');
        assert("_body"@[0] == '_');
    }
    lemma_root_child_is_on_its_line(get_spec(), node, i, Doc::Space);
}

} // verus!
