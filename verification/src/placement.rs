//! Where the document of a node stands in the document of its tree.
//!
//! The document of a tree holds the document of each of its nodes as it is:
//! inside groups, indents and wraps, and changed by none of them.

use crate::format_node::{
    lemma_stands_in_group, lemma_stands_in_holder, lemma_stands_in_trans, stands_in,
    stands_in_some, Doc, WrapArguments,
};
use crate::laws::{
    lemma_fold_to_texts, lemma_fold_top_texts, lemma_open_wrap_texts, lemma_walked_texts,
};
use crate::rules::{pre_visit_spec, FormatArguments, Rules};
use crate::transform::{
    child_at, closed, emit_all, emitted, fold_to_spec, fold_top_spec, open_wrap_spec, opens_scope,
    step, transform_spec, walked, Frame, Walk,
};
use crate::tree::SyntaxNode;
use vstd::prelude::*;

verus! {

/// Whether `part` stands in one of the open containers.
pub open spec fn stands_in_stack(part: Doc, stack: Seq<Frame>) -> bool {
    exists|k: int| 0 <= k < stack.len() && stands_in_some(part, (#[trigger] stack[k]).children)
}

/// Whether `part` is a node of the tree `whole`.
pub open spec fn node_in(part: SyntaxNode, whole: SyntaxNode) -> bool
    decreases whole,
{
    part == whole || exists|i: int|
        0 <= i < whole.children.len() && node_in(part, #[trigger] whole.children[i])
}

/// What stands in one of some documents stands in one of them and more.
pub proof fn lemma_stands_in_more(part: Doc, docs: Seq<Doc>, more: Seq<Doc>)
    requires
        stands_in_some(part, docs) || stands_in_some(part, more),
    ensures
        stands_in_some(part, docs + more),
{
    let all = docs + more;
    if stands_in_some(part, docs) {
        let i = choose|i: int| 0 <= i < docs.len() && stands_in(part, #[trigger] docs[i]);
        assert(all[i] == docs[i]);
    } else {
        let i = choose|i: int| 0 <= i < more.len() && stands_in(part, #[trigger] more[i]);
        assert(all[docs.len() + i] == more[i]);
    }
}

/// Emitting documents keeps what stands in the stack and adds what stands
/// in the documents.
pub proof fn lemma_emit_all_holds(part: Doc, stack: Seq<Frame>, docs: Seq<Doc>)
    requires
        stack.len() >= 1,
        stands_in_stack(part, stack) || stands_in_some(part, docs),
    ensures
        stands_in_stack(part, emit_all(stack, docs)),
{
    let after = emit_all(stack, docs);
    let top = stack.len() - 1;
    if stands_in_stack(part, stack) {
        let k = choose|k: int|
            0 <= k < stack.len() && stands_in_some(part, (#[trigger] stack[k]).children);
        if k == top {
            lemma_stands_in_more(part, stack[k].children, docs);
            assert(stands_in_some(part, after[top].children));
        } else {
            assert(after[k] == stack[k]);
        }
    } else {
        lemma_stands_in_more(part, stack[top].children, docs);
        assert(stands_in_some(part, after[top].children));
    }
}

/// One more container on top keeps what stands in the stack.
pub proof fn lemma_push_holds(part: Doc, stack: Seq<Frame>, frame: Frame)
    requires
        stands_in_stack(part, stack),
    ensures
        stands_in_stack(part, stack.push(frame)),
{
    let k = choose|k: int|
        0 <= k < stack.len() && stands_in_some(part, (#[trigger] stack[k]).children);
    assert(stack.push(frame)[k] == stack[k]);
}

/// Closing the top container keeps what stands in the stack.
pub proof fn lemma_fold_top_holds(part: Doc, stack: Seq<Frame>)
    requires
        stack.len() >= 2,
        stands_in_stack(part, stack),
    ensures
        stands_in_stack(part, fold_top_spec(stack)),
{
    let below = stack.drop_last();
    let top = stack.last();
    let one = seq![closed(top)];
    let k = choose|k: int|
        0 <= k < stack.len() && stands_in_some(part, (#[trigger] stack[k]).children);
    if k == stack.len() - 1 {
        let i = choose|i: int|
            0 <= i < top.children.len() && stands_in(part, #[trigger] top.children[i]);
        lemma_stands_in_group(part, top.children, i);
        if let Some(arguments) = top.wrapping {
            lemma_stands_in_holder(part, Doc::Group(top.children), arguments);
        }
        assert(one[0] == closed(top));
        assert(stands_in_some(part, one));
    } else {
        assert(below[k] == stack[k]);
        assert(stands_in_stack(part, below));
    }
    lemma_emit_all_holds(part, below, one);
    assert(below.last().children + one =~= below.last().children.push(closed(top)));
    assert(emit_all(below, one) =~= fold_top_spec(stack));
}

/// Closing containers keeps what stands in the stack.
pub proof fn lemma_fold_to_holds(part: Doc, stack: Seq<Frame>, depth: nat)
    requires
        stack.len() >= 1,
        stands_in_stack(part, stack),
    ensures
        stands_in_stack(part, fold_to_spec(stack, depth)),
    decreases stack.len(),
{
    if stack.len() > depth && stack.len() >= 2 {
        lemma_fold_top_holds(part, stack);
        lemma_fold_top_texts(stack);
        lemma_fold_to_holds(part, fold_top_spec(stack), depth);
    }
}

/// Opening a wrap group keeps what stands in the stack.
pub proof fn lemma_open_wrap_holds(part: Doc, stack: Seq<Frame>, between: FormatArguments)
    requires
        stack.len() >= 1,
        stands_in_stack(part, stack),
    ensures
        stands_in_stack(part, open_wrap_spec(stack, between)),
{
    let below = if stack.len() >= 2 {
        fold_top_spec(stack)
    } else {
        stack
    };
    if stack.len() >= 2 {
        lemma_fold_top_holds(part, stack);
    }
    lemma_push_holds(part, below, open_wrap_spec(stack, between).last());
    assert(open_wrap_spec(stack, between) =~= below.push(open_wrap_spec(stack, between).last()));
}

/// A step of the walk keeps what stands in the stack, and after it the
/// document of the child stands there too.
pub proof fn lemma_step_holds(
    part: Doc,
    rules: Rules,
    parent: Seq<char>,
    previous: Option<SyntaxNode>,
    child: SyntaxNode,
    next: Option<SyntaxNode>,
    doc: Doc,
    walk: Walk,
)
    requires
        walk.stack.len() >= 1,
        step(rules, parent, previous, child, next, doc, walk) is Some,
        stands_in_stack(part, walk.stack) || part == doc,
    ensures
        stands_in_stack(part, step(rules, parent, previous, child, next, doc, walk)->0.stack),
{
    let between = match previous {
        Some(p) => pre_visit_spec(rules, parent, walk.between, child.name, p.name),
        None => walk.between,
    };
    let wrapped = if between.wrap {
        open_wrap_spec(walk.stack, between)
    } else {
        walk.stack
    };
    let kept = stands_in_stack(part, walk.stack);
    if between.wrap {
        lemma_open_wrap_texts(walk.stack, between);
        if kept {
            lemma_open_wrap_holds(part, walk.stack, between);
        }
    }
    let opens = opens_scope(rules, previous, child);
    let empty = Frame { children: Seq::empty(), wrapping: None };
    let scoped = if opens {
        wrapped.push(empty)
    } else {
        wrapped
    };
    if opens && kept {
        lemma_push_holds(part, wrapped, empty);
    }
    let docs = emitted(between, doc);
    if part == doc {
        let last = docs.len() - 1;
        lemma_stands_in_holder(part, doc, WrapArguments {
            child_wrap_prevents_wrap: false,
            wrap_with_indent: false,
            or_space: false,
        });
        assert(stands_in(part, docs[last]));
        assert(stands_in_some(part, docs));
    }
    lemma_emit_all_holds(part, scoped, docs);
    let filled = emit_all(scoped, docs);
    let depths = if opens {
        walk.depths.push(wrapped.len())
    } else {
        walk.depths
    };
    if depths.len() > 0 {
        lemma_fold_to_holds(part, filled, depths.last());
    }
}

/// After its first `i` children, the walk over `node` holds the document of
/// each of them.
pub proof fn lemma_walked_holds(rules: Rules, node: SyntaxNode, i: nat, j: int)
    requires
        0 <= j < i <= node.children.len(),
        walked(rules, node, i) is Some,
    ensures
        transform_spec(rules, node.children[j]) is Some,
        stands_in_stack(
            transform_spec(rules, node.children[j])->0,
            walked(rules, node, i)->0.stack,
        ),
    decreases i,
{
    let before = walked(rules, node, (i - 1) as nat)->0;
    let child = node.children[i - 1];
    let doc = transform_spec(rules, child)->0;
    lemma_walked_texts(rules, node, (i - 1) as nat);
    if j < i - 1 {
        lemma_walked_holds(rules, node, (i - 1) as nat, j);
    }
    lemma_step_holds(
        transform_spec(rules, node.children[j])->0,
        rules,
        node.name,
        child_at(node, i - 2),
        child,
        child_at(node, i as int),
        doc,
        before,
    );
}

/// The document of a node holds the document of each of its children.
pub proof fn lemma_child_stands_in(rules: Rules, node: SyntaxNode, j: int)
    requires
        0 <= j < node.children.len(),
        transform_spec(rules, node) is Some,
    ensures
        transform_spec(rules, node.children[j]) is Some,
        stands_in(transform_spec(rules, node.children[j])->0, transform_spec(rules, node)->0),
{
    let n = node.children.len();
    let part = transform_spec(rules, node.children[j])->0;
    lemma_walked_holds(rules, node, n, j);
    lemma_walked_texts(rules, node, n);
    let stack = walked(rules, node, n)->0.stack;
    lemma_fold_to_holds(part, stack, 1);
    lemma_fold_to_texts(stack, 1);
    let folded = fold_to_spec(stack, 1);
    let k = choose|k: int|
        0 <= k < folded.len() && stands_in_some(part, (#[trigger] folded[k]).children);
    assert(k == 0);
    let bottom = folded.first().children;
    let i = choose|i: int| 0 <= i < bottom.len() && stands_in(part, #[trigger] bottom[i]);
    lemma_stands_in_group(part, bottom, i);
}

/// The document of a tree holds the document of each of its nodes, as it
/// is.
pub proof fn lemma_node_stands_in(rules: Rules, part: SyntaxNode, whole: SyntaxNode)
    requires
        node_in(part, whole),
        transform_spec(rules, whole) is Some,
    ensures
        transform_spec(rules, part) is Some,
        stands_in(transform_spec(rules, part)->0, transform_spec(rules, whole)->0),
    decreases whole,
{
    if part != whole {
        let i = choose|i: int|
            0 <= i < whole.children.len() && node_in(part, #[trigger] whole.children[i]);
        lemma_child_stands_in(rules, whole, i);
        lemma_node_stands_in(rules, part, whole.children[i]);
        lemma_stands_in_trans(
            transform_spec(rules, part)->0,
            transform_spec(rules, whole.children[i])->0,
            transform_spec(rules, whole)->0,
        );
    }
}

} // verus!
