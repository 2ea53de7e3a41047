//! The transform engine: from a syntax tree to a document.
//!
//! A leaf becomes its text. The children of an inner node are walked from
//! left to right over a stack of open containers; the bottom one collects
//! what becomes the node's group. A wrap group that opens closes the
//! current container into the one below it, unless it is the bottom one,
//! and puts a tagged container on the stack. A delimiter scope that opens
//! puts an untagged container on it and records how deep the stack was; the
//! closer folds the stack back to that depth.

use crate::format_node::{
    docs_of, lemma_docs_of_push, lemma_group_view, Doc, FormatNode, WrapArguments,
};
use crate::rules::{
    contains, get, get_spec, post_visit, post_visit_spec, pre_visit, pre_visit_spec,
    FormatArguments, FormatConfig, Rules,
};
use crate::text::{
    is_white_space, is_whitespace, join, lines, push_char, split_lines, str_eq, views,
};
use crate::tree::{well_formed, SyntaxNode, Tree};
use vstd::prelude::*;
use vstd::string::*;

verus! {

/// Why a tree has no document.
#[derive(Debug, Clone, Copy, PartialEq, Eq, Structural)]
pub enum TransformError {
    /// A closing delimiter stands where no delimiter scope is open and no
    /// opening delimiter stands directly before it.
    UnmatchedCloser,
}

impl TransformError {
    /// What went wrong, in words.
    pub fn message(&self) -> (text: String)
        ensures
            text@ == "a closing delimiter that nothing matches"@,
    {
        match self {
            TransformError::UnmatchedCloser => {
                "a closing delimiter that nothing matches".to_owned()
            },
        }
    }
}

/// An open container: the documents collected so far, and the arguments of
/// the wrap that it becomes when it closes, if it becomes one.
pub struct FormatContainer {
    pub children: Vec<FormatNode>,
    pub wrapping: Option<WrapArguments>,
}

/// The model of an open container.
pub ghost struct Frame {
    pub children: Seq<Doc>,
    pub wrapping: Option<WrapArguments>,
}

impl View for FormatContainer {
    type V = Frame;

    open spec fn view(&self) -> Frame {
        Frame { children: docs_of(self.children@), wrapping: self.wrapping }
    }
}

/// The models of a stack of containers, the bottom one first.
pub open spec fn frames(stack: Seq<FormatContainer>) -> Seq<Frame> {
    Seq::new(stack.len(), |i: int| stack[i]@)
}

/// The state of a walk over the children of one node.
pub ghost struct Walk {
    /// The open containers, the bottom one first.
    pub stack: Seq<Frame>,
    /// For each open delimiter scope, how deep the stack was when it opened.
    pub depths: Seq<nat>,
    /// What the step before left to stand before the next child.
    pub between: FormatArguments,
}

/// The document that a container becomes when it closes.
pub open spec fn closed(frame: Frame) -> Doc {
    match frame.wrapping {
        Some(arguments) => Doc::Wrap(Box::new(Doc::Group(frame.children)), arguments),
        None => Doc::Group(frame.children),
    }
}

/// `stack` with `doc` at the end of its top container.
pub open spec fn emit_spec(stack: Seq<Frame>, doc: Doc) -> Seq<Frame> {
    let top = stack.last();
    stack.drop_last().push(Frame { children: top.children.push(doc), wrapping: top.wrapping })
}

/// `stack` with each of `docs` at the end of its top container, in order.
pub open spec fn emit_all(stack: Seq<Frame>, docs: Seq<Doc>) -> Seq<Frame> {
    let top = stack.last();
    stack.drop_last().push(Frame { children: top.children + docs, wrapping: top.wrapping })
}

/// `stack` with its top container closed into the one below it.
pub open spec fn fold_top_spec(stack: Seq<Frame>) -> Seq<Frame> {
    emit_spec(stack.drop_last(), closed(stack.last()))
}

/// `stack` with its containers closed, the top one first, until it is no
/// deeper than `depth`. The bottom container is never closed.
pub open spec fn fold_to_spec(stack: Seq<Frame>, depth: nat) -> Seq<Frame>
    decreases stack.len(),
{
    if stack.len() > depth && stack.len() >= 2 {
        fold_to_spec(fold_top_spec(stack), depth)
    } else {
        stack
    }
}

/// The arguments of the wrap group that opens under `between`.
pub open spec fn wrap_arguments(between: FormatArguments) -> WrapArguments {
    WrapArguments {
        child_wrap_prevents_wrap: between.child_wrap_prevents_wrap,
        wrap_with_indent: between.indent,
        or_space: between.space,
    }
}

/// `stack` after a wrap group opened under `between`: the current container
/// is closed into the one below it, unless it is the bottom one, and a new
/// container tagged with the wrap's arguments stands on top.
pub open spec fn open_wrap_spec(stack: Seq<Frame>, between: FormatArguments) -> Seq<Frame> {
    let below = if stack.len() >= 2 {
        fold_top_spec(stack)
    } else {
        stack
    };
    below.push(Frame { children: Seq::empty(), wrapping: Some(wrap_arguments(between)) })
}

/// The separator that `between` asks for, where no wrap group opens.
pub open spec fn separator(between: FormatArguments) -> Seq<Doc> {
    if between.double_newline {
        seq![Doc::Newline, Doc::Newline]
    } else if between.indent || between.newline {
        seq![Doc::Newline]
    } else if between.space {
        seq![Doc::Space]
    } else {
        Seq::empty()
    }
}

/// What is emitted for a child whose document is `doc`: under a wrap the
/// document alone, else the separator and the document, indented if
/// `between` says so.
pub open spec fn emitted(between: FormatArguments, doc: Doc) -> Seq<Doc> {
    if between.wrap {
        seq![doc]
    } else if between.indent {
        separator(between).push(Doc::Indent(Box::new(doc)))
    } else {
        separator(between).push(doc)
    }
}

/// Whether a delimiter scope opens before `child`: an opening delimiter
/// stands directly before it and it is no closing delimiter.
pub open spec fn opens_scope(
    rules: Rules,
    previous: Option<SyntaxNode>,
    child: SyntaxNode,
) -> bool {
    previous matches Some(p) && rules.stack_pushers.contains(p.name)
        && !rules.stack_poppers.contains(child.name)
}

/// Whether a delimiter scope closes after `child`: a closing delimiter
/// follows it and it is no opening delimiter itself. An opening delimiter
/// with a closing one directly after it is an empty pair, which opens no
/// scope and closes none.
pub open spec fn closes_scope(rules: Rules, child: SyntaxNode, next: SyntaxNode) -> bool {
    rules.stack_poppers.contains(next.name) && !rules.stack_pushers.contains(child.name)
}

/// Whether the source has more than one line break between `child` and
/// `next`.
pub open spec fn has_multiple_newlines(child: SyntaxNode, next: SyntaxNode) -> bool {
    next.range.start_point.row - child.range.end_point.row > 1
}

/// The walk before the first child.
pub open spec fn start() -> Walk {
    Walk {
        stack: seq![Frame { children: Seq::empty(), wrapping: None }],
        depths: Seq::empty(),
        between: FormatArguments::none(),
    }
}

/// One step of the walk over the children of a node named `parent`: from
/// the state `walk` before `child`, whose document is `doc`, to the state
/// after it, or `None` where the next sibling is a closing delimiter that
/// nothing matches.
pub open spec fn step(
    rules: Rules,
    parent: Seq<char>,
    previous: Option<SyntaxNode>,
    child: SyntaxNode,
    next: Option<SyntaxNode>,
    doc: Doc,
    walk: Walk,
) -> Option<Walk> {
    let between = match previous {
        Some(p) => pre_visit_spec(rules, parent, walk.between, child.name, p.name),
        None => walk.between,
    };
    let wrapped = if between.wrap {
        open_wrap_spec(walk.stack, between)
    } else {
        walk.stack
    };
    let opens = opens_scope(rules, previous, child);
    let scoped = if opens {
        wrapped.push(Frame { children: Seq::empty(), wrapping: None })
    } else {
        wrapped
    };
    let depths = if opens {
        walk.depths.push(wrapped.len())
    } else {
        walk.depths
    };
    let filled = emit_all(scoped, emitted(between, doc));
    match next {
        None => Some(Walk { stack: filled, depths, between: FormatArguments::none() }),
        Some(n) => {
            let closes = closes_scope(rules, child, n);
            if closes && depths.len() == 0 {
                None
            } else {
                Some(
                    Walk {
                        stack: if closes {
                            fold_to_spec(filled, depths.last())
                        } else {
                            filled
                        },
                        depths: if closes {
                            depths.drop_last()
                        } else {
                            depths
                        },
                        between: post_visit_spec(
                            rules,
                            parent,
                            FormatArguments::none(),
                            child.name,
                            has_multiple_newlines(child, n),
                            n.name,
                        ),
                    },
                )
            }
        },
    }
}

/// The group of a node whose walk ended with `stack`: every container is
/// closed into the one below it, the top one first, and the bottom one is
/// the group.
pub open spec fn finish(stack: Seq<Frame>) -> Doc {
    Doc::Group(fold_to_spec(stack, 1).first().children)
}

/// The `i`-th child of `node`, if it has one.
pub open spec fn child_at(node: SyntaxNode, i: int) -> Option<SyntaxNode> {
    if 0 <= i < node.children.len() {
        Some(node.children[i])
    } else {
        None
    }
}

/// White space, as `char::is_whitespace` has it, taken from the front of `l`.
pub open spec fn trim_start(l: Seq<char>) -> Seq<char>
    decreases l.len(),
{
    if l.len() > 0 && is_whitespace(l[0]) {
        trim_start(l.drop_first())
    } else {
        l
    }
}

/// The lines of a block comment, each without its leading white space, and
/// each but the first with one space in front.
pub open spec fn realigned(ls: Seq<Seq<char>>) -> Seq<Seq<char>> {
    Seq::new(
        ls.len(),
        |i: int|
            if i == 0 {
                trim_start(ls[i])
            } else {
                seq![' '] + trim_start(ls[i])
            },
    )
}

/// The text of a leaf: that of its source, but for a block comment, whose
/// lines are realigned.
pub open spec fn leaf_text(node: SyntaxNode) -> Seq<char> {
    if node.name == "block_comment"@ {
        join(realigned(lines(node.text)), seq!['\n'])
    } else {
        node.text
    }
}

/// The walk over the children of `node` after its first `i` children, or
/// `None` where the tree has no document.
pub open spec fn walked(rules: Rules, node: SyntaxNode, i: nat) -> Option<Walk>
    decreases node, i,
{
    if i == 0 || i > node.children.len() {
        Some(start())
    } else {
        match (walked(rules, node, (i - 1) as nat), transform_spec(rules, node.children[i - 1])) {
            (Some(walk), Some(doc)) => step(
                rules,
                node.name,
                child_at(node, i - 2),
                node.children[i - 1],
                child_at(node, i as int),
                doc,
                walk,
            ),
            _ => None,
        }
    }
}

/// The document of `node` under `rules`, or `None` where some node of the
/// tree has a closing delimiter among its children that nothing matches.
pub open spec fn transform_spec(rules: Rules, node: SyntaxNode) -> Option<Doc>
    decreases node, node.children.len() + 1,
{
    if node.children.len() == 0 {
        Some(Doc::Content(leaf_text(node)))
    } else {
        match walked(rules, node, node.children.len()) {
            Some(walk) => Some(finish(walk.stack)),
            None => None,
        }
    }
}

/// The number of delimiter scopes that are open after the first `i`
/// children of `node`: one more for each scope that opened, one less for
/// each that closed while one was open.
pub open spec fn open_scopes(rules: Rules, node: SyntaxNode, i: nat) -> nat
    decreases i, 0nat,
{
    if i == 0 || i > node.children.len() {
        0
    } else {
        let before = scopes_before_close(rules, node, (i - 1) as nat);
        if closes_after(rules, node, (i - 1) as nat) && before > 0 {
            (before - 1) as nat
        } else {
            before
        }
    }
}

/// The number of delimiter scopes that are open when the child `i` of
/// `node` has been emitted, before any scope closes after it.
pub open spec fn scopes_before_close(rules: Rules, node: SyntaxNode, i: nat) -> nat
    decreases i, 1nat,
{
    if i >= node.children.len() {
        0
    } else if opens_scope(rules, child_at(node, i - 1), node.children[i as int]) {
        open_scopes(rules, node, i) + 1
    } else {
        open_scopes(rules, node, i)
    }
}

/// Whether a delimiter scope closes after the child `i` of `node`.
pub open spec fn closes_after(rules: Rules, node: SyntaxNode, i: nat) -> bool {
    i + 1 < node.children.len() && closes_scope(
        rules,
        node.children[i as int],
        node.children[i as int + 1],
    )
}

/// Whether a closing delimiter stands after the child `i` of `node` where no
/// delimiter scope is open and no opening delimiter stands directly before
/// it.
pub open spec fn unmatched_after(rules: Rules, node: SyntaxNode, i: nat) -> bool {
    closes_after(rules, node, i) && scopes_before_close(rules, node, i) == 0
}

/// Whether a closing delimiter that nothing matches stands among the
/// children of some node of the tree.
pub open spec fn has_unmatched_closer(rules: Rules, node: SyntaxNode) -> bool
    decreases node,
{
    ||| exists|i: nat| i < node.children.len() && unmatched_after(rules, node, i)
    ||| exists|i: int|
        0 <= i < node.children.len() && has_unmatched_closer(rules, #[trigger] node.children[i])
}

/// The walk records one depth for each open delimiter scope; and it fails
/// at a child exactly when it failed before, or the child has no document,
/// or a closing delimiter that nothing matches follows the child.
pub proof fn lemma_walk_fails(rules: Rules, node: SyntaxNode, i: nat)
    requires
        i <= node.children.len(),
    ensures
        walked(rules, node, i) matches Some(walk) ==> walk.depths.len() == open_scopes(
            rules,
            node,
            i,
        ),
        walked(rules, node, i) is None <==> exists|j: nat|
            j < i && (unmatched_after(rules, node, j) || transform_spec(
                rules,
                #[trigger] node.children[j as int],
            ) is None),
    decreases i,
{
    if i > 0 {
        let k = (i - 1) as nat;
        lemma_walk_fails(rules, node, k);
        let failed_before = exists|j: nat|
            j < k && (unmatched_after(rules, node, j) || transform_spec(
                rules,
                #[trigger] node.children[j as int],
            ) is None);
        let fails_now = unmatched_after(rules, node, k) || transform_spec(
            rules,
            node.children[k as int],
        ) is None;
        let failed = exists|j: nat|
            j < i && (unmatched_after(rules, node, j) || transform_spec(
                rules,
                #[trigger] node.children[j as int],
            ) is None);
        if failed_before {
            let j = choose|j: nat|
                j < k && (unmatched_after(rules, node, j) || transform_spec(
                    rules,
                    #[trigger] node.children[j as int],
                ) is None);
            assert(j < i);
            assert(failed);
        } else if fails_now {
            assert(k < i);
            assert(failed);
            assert(walked(rules, node, i) is None);
        } else {
            assert(walked(rules, node, i) is Some);
            assert(!failed) by {
                if failed {
                    let j = choose|j: nat|
                        j < i && (unmatched_after(rules, node, j) || transform_spec(
                            rules,
                            #[trigger] node.children[j as int],
                        ) is None);
                    if j < k {
                        assert(failed_before);
                    }
                }
            }
        }
    }
}

/// A tree has no document exactly when a closing delimiter that nothing
/// matches stands among the children of one of its nodes.
pub proof fn lemma_no_document(rules: Rules, node: SyntaxNode)
    ensures
        transform_spec(rules, node) is None <==> has_unmatched_closer(rules, node),
    decreases node,
{
    let n = node.children.len();
    lemma_walk_fails(rules, node, n);
    assert forall|i: int| 0 <= i < n implies (transform_spec(rules, #[trigger] node.children[i])
        is None <==> has_unmatched_closer(rules, node.children[i])) by {
        lemma_no_document(rules, node.children[i]);
    }
    if n > 0 {
        let failed = exists|j: nat|
            j < n && (unmatched_after(rules, node, j) || transform_spec(
                rules,
                #[trigger] node.children[j as int],
            ) is None);
        if failed {
            let j = choose|j: nat|
                j < n && (unmatched_after(rules, node, j) || transform_spec(
                    rules,
                    #[trigger] node.children[j as int],
                ) is None);
            if !unmatched_after(rules, node, j) {
                assert(has_unmatched_closer(rules, node.children[j as int]));
            }
            assert(has_unmatched_closer(rules, node));
        }
        if has_unmatched_closer(rules, node) {
            if exists|i: nat| i < n && unmatched_after(rules, node, i) {
                let j = choose|i: nat| i < n && unmatched_after(rules, node, i);
                assert(j < n && (unmatched_after(rules, node, j) || transform_spec(
                    rules,
                    node.children[j as int],
                ) is None));
                assert(failed);
            } else {
                let j = choose|i: int|
                    0 <= i < n && has_unmatched_closer(rules, #[trigger] node.children[i]);
                let k = j as nat;
                assert(transform_spec(rules, node.children[k as int]) is None);
                assert(k < n && (unmatched_after(rules, node, k) || transform_spec(
                    rules,
                    node.children[k as int],
                ) is None));
                assert(failed);
            }
        }
    } else {
        assert(!has_unmatched_closer(rules, node));
    }
}

/// The depths of the open delimiter scopes as natural numbers.
pub open spec fn depths_of(depths: Seq<usize>) -> Seq<nat> {
    Seq::new(depths.len(), |i: int| depths[i] as nat)
}

/// Once the walk has failed it stays failed.
pub proof fn lemma_walked_none_stays(rules: Rules, node: SyntaxNode, i: nat, j: nat)
    requires
        walked(rules, node, i) is None,
        i <= j <= node.children.len(),
    ensures
        walked(rules, node, j) is None,
    decreases j,
{
    if i < j {
        lemma_walked_none_stays(rules, node, i, (j - 1) as nat);
    }
}

/// Appends `line` without its leading white space to `out`.
fn push_trimmed(out: &mut String, line: &str)
    ensures
        final(out)@ == old(out)@ + trim_start(line@),
{
    let mut leading = true;
    proof {
        assert(line@.skip(0) =~= line@);
    }
    for c in it: line.chars()
        invariant
            it.seq() == line@,
            leading ==> out@ == old(out)@ && trim_start(line@) == trim_start(
                line@.skip(it.index() as int),
            ),
            !leading ==> out@ + line@.skip(it.index() as int) == old(out)@ + trim_start(line@),
    {
        let ghost i = it.index() as int;
        let ghost rest = line@.skip(i);
        proof {
            assert(rest[0] == c);
            assert(rest.drop_first() =~= line@.skip(i + 1));
        }
        if leading && is_white_space(c) {
        } else {
            let ghost before = out@;
            push_char(out, c);
            proof {
                assert(out@ + line@.skip(i + 1) =~= before + rest);
            }
            leading = false;
        }
    }
    proof {
        let rest = line@.skip(line@.len() as int);
        assert(rest =~= Seq::<char>::empty());
        assert(out@ + rest =~= out@);
        assert(old(out)@ + rest =~= old(out)@);
    }
}

/// The text of a block comment with its lines realigned.
fn realign(text: &str) -> (out: String)
    ensures
        out@ == join(realigned(lines(text@)), seq!['\n']),
{
    let ls = split_lines(text);
    let mut out = String::new();
    let ghost parts = realigned(lines(text@));
    let ghost sep = seq!['\n'];
    let mut i: usize = 0;
    while i < ls.len()
        invariant
            i <= ls@.len(),
            views(ls@) == lines(text@),
            parts == realigned(lines(text@)),
            sep == seq!['\n'],
            out@ == join(parts.take(i as int), sep),
        decreases ls@.len() - i,
    {
        let ghost before = out@;
        if i > 0 {
            push_char(&mut out, '\n');
            push_char(&mut out, ' ');
        }
        push_trimmed(&mut out, ls[i].as_str());
        proof {
            let done = parts.take(i + 1);
            assert(views(ls@)[i as int] == ls@[i as int]@);
            assert(done.drop_last() =~= parts.take(i as int));
            if i > 0 {
                assert(out@ =~= before + sep + (seq![' '] + trim_start(ls@[i as int]@)));
            } else {
                assert(out@ =~= trim_start(ls@[i as int]@));
            }
        }
        i = i + 1;
    }
    proof {
        assert(parts.take(i as int) =~= parts);
    }
    out
}

/// The text of the leaf `node`.
fn leaf(node: &Tree) -> (text: String)
    requires
        node.wf(),
    ensures
        text@ == leaf_text(node@),
{
    let text = node.text();
    if str_eq(node.name(), "block_comment") {
        realign(text)
    } else {
        text.to_owned()
    }
}

/// The document that `container` becomes when it closes.
fn close(container: FormatContainer) -> (node: FormatNode)
    ensures
        node@ == closed(container@),
{
    proof {
        lemma_group_view(container.children);
    }
    match container.wrapping {
        Some(wrapping) => FormatNode::Wrap(
            Box::new(FormatNode::Group(container.children)),
            wrapping,
        ),
        None => FormatNode::Group(container.children),
    }
}

/// Puts `node` at the end of the top container.
fn emit(stack: &mut Vec<FormatContainer>, node: FormatNode)
    requires
        old(stack)@.len() >= 1,
    ensures
        frames(final(stack)@) == emit_spec(frames(old(stack)@), node@),
        final(stack)@.len() == old(stack)@.len(),
{
    let mut top = stack.pop().unwrap();
    proof {
        lemma_docs_of_push(top.children@, node);
    }
    top.children.push(node);
    stack.push(top);
    proof {
        assert(frames(stack@) =~= emit_spec(frames(old(stack)@), node@));
    }
}

/// Closes the top container into the one below it.
fn fold_top(stack: &mut Vec<FormatContainer>)
    requires
        old(stack)@.len() >= 2,
    ensures
        frames(final(stack)@) == fold_top_spec(frames(old(stack)@)),
        final(stack)@.len() == old(stack)@.len() - 1,
{
    let last = stack.pop().unwrap();
    proof {
        assert(frames(stack@) =~= frames(old(stack)@).drop_last());
    }
    emit(stack, close(last));
}

/// Closes containers, the top one first, until the stack is no deeper than
/// `depth`.
fn fold_to(stack: &mut Vec<FormatContainer>, depth: usize)
    requires
        depth >= 1,
        old(stack)@.len() >= 1,
    ensures
        frames(final(stack)@) == fold_to_spec(frames(old(stack)@), depth as nat),
        final(stack)@.len() >= 1,
        final(stack)@.len() <= old(stack)@.len(),
        old(stack)@.len() >= depth ==> final(stack)@.len() == depth,
{
    while stack.len() > depth
        invariant
            depth >= 1,
            stack@.len() >= 1,
            stack@.len() <= old(stack)@.len(),
            old(stack)@.len() >= depth ==> stack@.len() >= depth,
            fold_to_spec(frames(stack@), depth as nat) == fold_to_spec(
                frames(old(stack)@),
                depth as nat,
            ),
        decreases stack@.len(),
    {
        fold_top(stack);
    }
}

/// Opens a wrap group under `between`.
fn open_wrap(stack: &mut Vec<FormatContainer>, between: FormatArguments)
    requires
        old(stack)@.len() >= 1,
    ensures
        frames(final(stack)@) == open_wrap_spec(frames(old(stack)@), between),
        if old(stack)@.len() >= 2 {
            final(stack)@.len() == old(stack)@.len()
        } else {
            final(stack)@.len() == 2
        },
{
    if stack.len() >= 2 {
        fold_top(stack);
    }
    let ghost below = frames(stack@);
    stack.push(
        FormatContainer {
            children: Vec::new(),
            wrapping: Some(
                WrapArguments {
                    child_wrap_prevents_wrap: between.child_wrap_prevents_wrap,
                    wrap_with_indent: between.indent,
                    or_space: between.space,
                },
            ),
        },
    );
    proof {
        assert(docs_of(stack@.last().children@) =~= Seq::<Doc>::empty());
        assert(frames(stack@) =~= below.push(
            Frame { children: Seq::empty(), wrapping: Some(wrap_arguments(between)) },
        ));
    }
}

/// Emits the separator that `between` asks for and then `processed`, the
/// document of a child.
fn emit_child(stack: &mut Vec<FormatContainer>, between: FormatArguments, processed: FormatNode)
    requires
        old(stack)@.len() >= 1,
    ensures
        frames(final(stack)@) == emit_all(frames(old(stack)@), emitted(between, processed@)),
        final(stack)@.len() == old(stack)@.len(),
{
    let ghost docs = emitted(between, processed@);
    let ghost base = frames(stack@);
    if between.wrap {
        emit(stack, processed);
    } else {
        if between.double_newline {
            emit(stack, FormatNode::Newline);
            emit(stack, FormatNode::Newline);
        } else if between.indent || between.newline {
            emit(stack, FormatNode::Newline);
        } else if between.space {
            emit(stack, FormatNode::Space);
        }
        if between.indent {
            emit(stack, FormatNode::Indent(Box::new(processed)));
        } else {
            emit(stack, processed);
        }
    }
    proof {
        assert(frames(stack@).len() == base.len());
        assert(frames(stack@).last().children =~= base.last().children + docs);
        assert(frames(stack@) =~= emit_all(base, docs));
    }
}

/// The document of `node`: that of a leaf, or the walk over the children of
/// an inner node, each of which is transformed in its turn.
fn transform_node(config: &FormatConfig, node: &Tree) -> (out: Result<FormatNode, TransformError>)
    requires
        node.wf(),
    ensures
        match out {
            Ok(document) => transform_spec(config@, node@) == Some(document@),
            Err(error) => transform_spec(config@, node@) is None && error
                == TransformError::UnmatchedCloser,
        },
    decreases node,
{
    let children = node.children();
    if children.len() == 0 {
        return Ok(FormatNode::Content(leaf(node)));
    }
    let parent_name = node.name();
    let mut stack: Vec<FormatContainer> = Vec::new();
    stack.push(FormatContainer { children: Vec::new(), wrapping: None });
    let mut depths: Vec<usize> = Vec::new();
    let mut between = FormatArguments::default();
    let ghost rules = config@;
    let ghost model = node@;
    proof {
        assert(docs_of(stack@[0].children@) =~= Seq::<Doc>::empty());
        assert(frames(stack@) =~= start().stack);
        assert(depths_of(depths@) =~= start().depths);
    }
    let mut index: usize = 0;
    while index < children.len()
        invariant
            index <= children@.len(),
            children == node.children,
            children@.len() == model.children.len(),
            forall|i: int|
                0 <= i < children@.len() ==> (#[trigger] children@[i])@ == model.children[i],
            node.wf(),
            rules == config@,
            model == node@,
            parent_name@ == model.name,
            stack@.len() >= 1,
            forall|i: int| 0 <= i < depths@.len() ==> 1 <= #[trigger] depths@[i] < stack@.len(),
            forall|i: int, j: int| 0 <= i < j < depths@.len() ==> depths@[i] < depths@[j],
            walked(rules, model, index as nat) == Some(
                Walk { stack: frames(stack@), depths: depths_of(depths@), between },
            ),
        decreases children@.len() - index,
    {
        let child = &children[index];
        let child_name = child.name();
        let ghost before = Walk { stack: frames(stack@), depths: depths_of(depths@), between };
        let ghost previous = child_at(model, index as int - 1);
        let ghost following = child_at(model, index as int + 1);
        proof {
            vstd::std_specs::vec::axiom_vec_index_decreases(*children, index as int);
            assert(well_formed(node.children@[index as int]));
            assert(child@ == model.children[index as int]);
        }
        if index > 0 {
            pre_visit(config, parent_name, &mut between, child_name, children[index - 1].name());
        }
        if between.wrap {
            open_wrap(&mut stack, between);
        }
        if index > 0 && contains(&config.stack_pushers, children[index - 1].name()) && !contains(
            &config.stack_poppers,
            child_name,
        ) {
            let ghost wrapped = frames(stack@);
            let ghost recorded = depths_of(depths@);
            depths.push(stack.len());
            stack.push(FormatContainer { children: Vec::new(), wrapping: None });
            proof {
                assert(docs_of(stack@.last().children@) =~= Seq::<Doc>::empty());
                assert(frames(stack@) =~= wrapped.push(
                    Frame { children: Seq::empty(), wrapping: None },
                ));
                assert(depths_of(depths@) =~= recorded.push(wrapped.len()));
            }
        }
        let processed = match transform_node(config, child) {
            Ok(document) => document,
            Err(error) => {
                proof {
                    assert(walked(rules, model, (index + 1) as nat) is None);
                    lemma_walked_none_stays(
                        rules,
                        model,
                        (index + 1) as nat,
                        model.children.len(),
                    );
                }
                return Err(error);
            },
        };
        let ghost doc = processed@;
        emit_child(&mut stack, between, processed);
        between = FormatArguments::default();
        if index + 1 < children.len() {
            let next = &children[index + 1];
            let next_name = next.name();
            if contains(&config.stack_poppers, next_name) && !contains(
                &config.stack_pushers,
                child_name,
            ) {
                if depths.len() == 0 {
                    proof {
                        assert(step(rules, model.name, previous, child@, following, doc, before)
                            is None);
                        assert(walked(rules, model, (index + 1) as nat) is None);
                        lemma_walked_none_stays(
                            rules,
                            model,
                            (index + 1) as nat,
                            model.children.len(),
                        );
                    }
                    return Err(TransformError::UnmatchedCloser);
                }
                let ghost recorded = depths_of(depths@);
                let expected_depth = depths.pop().unwrap();
                proof {
                    assert(depths_of(depths@) =~= recorded.drop_last());
                    assert(recorded.last() == expected_depth as nat);
                }
                fold_to(&mut stack, expected_depth);
            }
            let next_row = next.range().start_point.row;
            let child_row = child.range().end_point.row;
            let multiple = next_row > child_row && next_row - child_row > 1;
            post_visit(config, parent_name, &mut between, child_name, multiple, next_name);
        }
        proof {
            assert(step(rules, model.name, previous, child@, following, doc, before) == Some(
                Walk { stack: frames(stack@), depths: depths_of(depths@), between },
            ));
        }
        index = index + 1;
    }
    fold_to(&mut stack, 1);
    let bottom = stack.pop().unwrap();
    proof {
        lemma_group_view(bottom.children);
    }
    Ok(FormatNode::Group(bottom.children))
}

/// The document of `node` under the layout rule table `config`.
///
/// It fails exactly where some node of the tree has among its children a
/// closing delimiter, outside every open delimiter scope, that no opening
/// delimiter stands directly before.
pub fn transform_with(config: &FormatConfig, node: &Tree) -> (out: Result<
    FormatNode,
    TransformError,
>)
    requires
        node.wf(),
    ensures
        out is Err <==> has_unmatched_closer(config@, node@),
        match out {
            Ok(document) => transform_spec(config@, node@) == Some(document@),
            Err(error) => transform_spec(config@, node@) is None && error
                == TransformError::UnmatchedCloser,
        },
{
    proof {
        lemma_no_document(config@, node@);
    }
    transform_node(config, node)
}

/// The document of `node` under the layout rule table of Java.
pub fn transform(node: &Tree) -> (out: Result<FormatNode, TransformError>)
    requires
        node.wf(),
    ensures
        out is Err <==> has_unmatched_closer(get_spec(), node@),
        match out {
            Ok(document) => transform_spec(get_spec(), node@) == Some(document@),
            Err(error) => transform_spec(get_spec(), node@) is None && error
                == TransformError::UnmatchedCloser,
        },
{
    let config = get();
    transform_with(&config, node)
}

} // verus!
