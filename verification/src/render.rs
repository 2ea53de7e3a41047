//! The render engine: from a document and format settings to text.
//!
//! A group is first rendered flat. Only a group with a `Wrap` among its own
//! children may be rendered a second time, broken, and only when the flat
//! text has a line wider than the maximum or something inside it already
//! broke.

use crate::format_node::{
    contents, contents_all, docs_of, has_direct_wrap, has_wrap, lemma_group_view, stands_in, Doc,
    FormatNode,
};
use crate::text::{
    after_line_feed, all_whitespace, between_line_feeds, exceeds, exceeds_width, indent,
    indent_text, indent_unit, lemma_indent_block, lemma_indent_head, lemma_prefix_each_spaces,
    lemma_visible_add, lemma_visible_indent, lemma_visible_whitespace, no_carriage_return,
    one_line, plain_lines, prefix_each, spaces, visible,
};
use vstd::prelude::*;
use vstd::string::*;

verus! {

/// The format settings of one call.
#[derive(Debug, Clone, Copy)]
pub struct PrettyPrintParameters {
    /// The number of spaces of one unit of indentation.
    pub indent_size: usize,
    /// The widest line that is not a reason to break.
    pub max_line_length: usize,
}

/// What a group decided for the wraps that it governs.
#[derive(Debug, Clone, Copy)]
pub struct WrapParameters {
    /// Break because the flat text has a line that is too wide.
    pub wrap_because_length: bool,
    /// Break because something inside already broke.
    pub wrap_because_child: bool,
}

impl WrapParameters {
    /// The decision of a flat pass: nothing breaks.
    pub open spec fn flat() -> WrapParameters {
        WrapParameters { wrap_because_length: false, wrap_because_child: false }
    }

    /// Whether the governed wraps break.
    pub open spec fn wraps(self) -> bool {
        self.wrap_because_length || self.wrap_because_child
    }
}

impl Default for WrapParameters {
    fn default() -> (r: WrapParameters)
        ensures
            r == WrapParameters::flat(),
    {
        WrapParameters { wrap_because_length: false, wrap_because_child: false }
    }
}

/// Rendered text, and whether a break inside it is reported upward.
#[derive(Debug)]
pub struct PrettyPrintResult {
    pub result: String,
    pub is_wrapped: bool,
}

/// The model of a `PrettyPrintResult`.
pub ghost struct Rendered {
    pub text: Seq<char>,
    pub is_wrapped: bool,
}

impl View for PrettyPrintResult {
    type V = Rendered;

    open spec fn view(&self) -> Rendered {
        Rendered { text: self.result@, is_wrapped: self.is_wrapped }
    }
}

impl From<String> for PrettyPrintResult {
    fn from(value: String) -> (r: PrettyPrintResult) {
        PrettyPrintResult { result: value, is_wrapped: false }
    }
}

impl vstd::std_specs::convert::FromSpecImpl<String> for PrettyPrintResult {
    open spec fn obeys_from_spec() -> bool {
        true
    }

    open spec fn from_spec(value: String) -> PrettyPrintResult {
        PrettyPrintResult { result: value, is_wrapped: false }
    }
}

/// The unit of indentation under `args`.
pub open spec fn unit_of(args: PrettyPrintParameters) -> Seq<char> {
    spaces(args.indent_size as nat)
}

/// One pass over `d`: its children are rendered under `wrap` when `d` is a
/// group, and `d` itself breaks as `parent_wrap` says when it is a wrap.
pub open spec fn pass(
    d: Doc,
    args: PrettyPrintParameters,
    wrap: WrapParameters,
    parent_wrap: WrapParameters,
) -> Rendered
    decreases d, 0nat,
{
    match d {
        Doc::Content(t) => Rendered { text: t, is_wrapped: false },
        Doc::Group(cs) => pass_all(cs, args, wrap),
        Doc::Indent(c) => Rendered {
            text: indent_text(render(*c, args, parent_wrap).text, unit_of(args)),
            is_wrapped: false,
        },
        Doc::Wrap(c, a) => {
            let inner = render(*c, args, parent_wrap);
            Rendered {
                text: if parent_wrap.wraps() {
                    seq!['\n'] + (if a.wrap_with_indent {
                        indent_text(inner.text, unit_of(args))
                    } else {
                        inner.text
                    })
                } else if a.or_space {
                    seq![' '] + inner.text
                } else {
                    inner.text
                },
                is_wrapped: inner.is_wrapped && !a.child_wrap_prevents_wrap,
            }
        },
        Doc::Space => Rendered { text: seq![' '], is_wrapped: false },
        Doc::Newline => Rendered { text: seq!['\n'], is_wrapped: false },
    }
}

/// The children `cs` of a group, each rendered under the group's decision
/// `wrap`: the texts in order, and whether any of them reports a break.
pub open spec fn pass_all(
    cs: Seq<Doc>,
    args: PrettyPrintParameters,
    wrap: WrapParameters,
) -> Rendered
    decreases cs, 2nat,
{
    if cs.len() == 0 {
        Rendered { text: Seq::empty(), is_wrapped: false }
    } else {
        let front = pass_all(cs.drop_last(), args, wrap);
        let last = render(cs.last(), args, wrap);
        Rendered {
            text: front.text + last.text,
            is_wrapped: front.is_wrapped || last.is_wrapped,
        }
    }
}

/// Whether the group `d` must be rendered again, given its flat rendering.
pub open spec fn rewraps(d: Doc, args: PrettyPrintParameters, flat: Rendered) -> bool {
    &&& d matches Doc::Group(cs)
    &&& has_direct_wrap(cs)
    &&& (flat.is_wrapped || exceeds(flat.text, args.max_line_length as nat))
}

/// The rendering of `d` under the decision `parent_wrap` of the group that
/// governs it.
pub open spec fn render(
    d: Doc,
    args: PrettyPrintParameters,
    parent_wrap: WrapParameters,
) -> Rendered
    decreases d, 1nat,
{
    let flat = pass(d, args, WrapParameters::flat(), parent_wrap);
    if rewraps(d, args, flat) {
        let decision = WrapParameters {
            wrap_because_length: exceeds(flat.text, args.max_line_length as nat),
            wrap_because_child: flat.is_wrapped,
        };
        Rendered { text: pass(d, args, decision, parent_wrap).text, is_wrapped: true }
    } else {
        flat
    }
}

/// Whether one of `elements` is itself a `Wrap`.
fn any_wrap(elements: &Vec<FormatNode>) -> (r: bool)
    ensures
        r == has_direct_wrap(docs_of(elements@)),
{
    let mut i: usize = 0;
    while i < elements.len()
        invariant
            i <= elements@.len(),
            forall|j: int| 0 <= j < i ==> !(#[trigger] docs_of(elements@)[j] is Wrap),
        decreases elements@.len() - i,
    {
        assert(docs_of(elements@)[i as int] == elements@[i as int]@);
        match &elements[i] {
            FormatNode::Wrap(_, _) => {
                return true;
            },
            _ => {},
        }
        i = i + 1;
    }
    false
}

/// Renders `formatted` under the decision `parent_wrap` of the group that
/// governs it.
pub fn prettyprint(
    formatted: &FormatNode,
    arguments: &PrettyPrintParameters,
    parent_wrap: WrapParameters,
) -> (out: PrettyPrintResult)
    ensures
        out@ == render(formatted@, *arguments, parent_wrap),
    decreases formatted, 1nat,
{
    let transformed = print(formatted, arguments, WrapParameters::default(), parent_wrap);
    let can_wrap = match formatted {
        FormatNode::Group(elements) => {
            proof {
                lemma_group_view(*elements);
            }
            any_wrap(elements)
        },
        _ => false,
    };
    if can_wrap {
        let wrap_because_length = exceeds_width(
            transformed.result.as_str(),
            arguments.max_line_length,
        );
        let wrap_because_child = transformed.is_wrapped;
        if wrap_because_child || wrap_because_length {
            let params = WrapParameters { wrap_because_length, wrap_because_child };
            let new = print(formatted, arguments, params, parent_wrap);
            return PrettyPrintResult { result: new.result, is_wrapped: true };
        }
    }
    transformed
}

/// One pass over `formatted`.
fn print(
    formatted: &FormatNode,
    arguments: &PrettyPrintParameters,
    wrap: WrapParameters,
    parent_wrap: WrapParameters,
) -> (out: PrettyPrintResult)
    ensures
        out@ == pass(formatted@, *arguments, wrap, parent_wrap),
    decreases formatted, 0nat,
{
    match formatted {
        FormatNode::Content(content) => PrettyPrintResult {
            result: content.clone(),
            is_wrapped: false,
        },
        FormatNode::Group(elements) => {
            let mut result = String::new();
            let mut is_wrapped = false;
            let ghost cs = docs_of(elements@);
            proof {
                lemma_group_view(*elements);
            }
            let mut i: usize = 0;
            while i < elements.len()
                invariant
                    i <= elements@.len(),
                    formatted == FormatNode::Group(*elements),
                    cs == docs_of(elements@),
                    (Rendered { text: result@, is_wrapped }) == pass_all(
                        cs.take(i as int),
                        *arguments,
                        wrap,
                    ),
                decreases elements@.len() - i,
            {
                proof {
                    vstd::std_specs::vec::axiom_vec_index_decreases(*elements, i as int);
                    assert(formatted->Group_0 == *elements);
                }
                let item = prettyprint(&elements[i], arguments, wrap);
                proof {
                    assert(cs.take(i + 1).drop_last() =~= cs.take(i as int));
                    assert(cs.take(i + 1).last() == elements@[i as int]@);
                }
                result.append(item.result.as_str());
                is_wrapped = is_wrapped || item.is_wrapped;
                i = i + 1;
            }
            proof {
                assert(cs.take(i as int) =~= cs);
            }
            PrettyPrintResult { result, is_wrapped }
        },
        FormatNode::Wrap(element, arguments_of_wrap) => {
            let content = prettyprint(element, arguments, parent_wrap);
            let mut result = String::new();
            if parent_wrap.wrap_because_length || parent_wrap.wrap_because_child {
                result.append("\n");
                if arguments_of_wrap.wrap_with_indent {
                    let unit = indent_unit(arguments.indent_size);
                    let indented = indent(content.result.as_str(), unit.as_str());
                    result.append(indented.as_str());
                } else {
                    result.append(content.result.as_str());
                }
            } else {
                if arguments_of_wrap.or_space {
                    result.append(" ");
                }
                result.append(content.result.as_str());
            }
            proof {
                reveal_strlit("\n");
                reveal_strlit(" ");
                assert("\n"@ =~= seq!['\n']);
                assert(" "@ =~= seq![' ']);
                assert(Seq::<char>::empty() + content.result@ =~= content.result@);
            }
            PrettyPrintResult {
                result,
                is_wrapped: content.is_wrapped && !arguments_of_wrap.child_wrap_prevents_wrap,
            }
        },
        FormatNode::Indent(element) => {
            let content = prettyprint(element, arguments, parent_wrap);
            let unit = indent_unit(arguments.indent_size);
            PrettyPrintResult {
                result: indent(content.result.as_str(), unit.as_str()),
                is_wrapped: false,
            }
        },
        FormatNode::Newline => {
            proof {
                reveal_strlit("\n");
                assert("\n"@ =~= seq!['\n']);
            }
            PrettyPrintResult { result: "\n".to_owned(), is_wrapped: false }
        },
        FormatNode::Space => {
            proof {
                reveal_strlit(" ");
                assert(" "@ =~= seq![' ']);
            }
            PrettyPrintResult { result: " ".to_owned(), is_wrapped: false }
        },
    }
}

/// One pass changes white space only: what its text shows is what the
/// `Content` leaves show, in order.
pub proof fn lemma_pass_visible(
    d: Doc,
    args: PrettyPrintParameters,
    wrap: WrapParameters,
    parent_wrap: WrapParameters,
)
    ensures
        visible(pass(d, args, wrap, parent_wrap).text) == visible(contents(d)),
    decreases d, 0nat,
{
    let unit = unit_of(args);
    let none = Seq::<char>::empty();
    assert(all_whitespace(unit));
    assert(all_whitespace(seq!['\n']));
    assert(all_whitespace(seq![' ']));
    lemma_visible_whitespace(seq!['\n']);
    lemma_visible_whitespace(seq![' ']);
    match d {
        Doc::Content(_) => {},
        Doc::Group(cs) => {
            lemma_pass_all_visible(cs, args, wrap);
        },
        Doc::Indent(c) => {
            lemma_render_visible(*c, args, parent_wrap);
            lemma_visible_indent(render(*c, args, parent_wrap).text, unit);
        },
        Doc::Wrap(c, a) => {
            let inner = render(*c, args, parent_wrap).text;
            lemma_render_visible(*c, args, parent_wrap);
            lemma_visible_indent(inner, unit);
            lemma_visible_add(seq!['\n'], indent_text(inner, unit));
            lemma_visible_add(seq!['\n'], inner);
            lemma_visible_add(seq![' '], inner);
            assert(none + visible(inner) =~= visible(inner));
            assert(none + visible(indent_text(inner, unit)) =~= visible(indent_text(inner, unit)));
        },
        Doc::Space => {},
        Doc::Newline => {},
    }
}

/// The children of a group, rendered, show what their `Content` leaves show.
pub proof fn lemma_pass_all_visible(cs: Seq<Doc>, args: PrettyPrintParameters, wrap: WrapParameters)
    ensures
        visible(pass_all(cs, args, wrap).text) == visible(contents_all(cs)),
    decreases cs, 2nat,
{
    if cs.len() > 0 {
        lemma_pass_all_visible(cs.drop_last(), args, wrap);
        lemma_render_visible(cs.last(), args, wrap);
        lemma_visible_add(
            pass_all(cs.drop_last(), args, wrap).text,
            render(cs.last(), args, wrap).text,
        );
        lemma_visible_add(contents_all(cs.drop_last()), contents(cs.last()));
    }
}

/// Rendering changes white space only: whatever the settings and the
/// decision above, the text shows the `Content` leaves of the document, all
/// of them, once each and in their order.
pub proof fn lemma_render_visible(
    d: Doc,
    args: PrettyPrintParameters,
    parent_wrap: WrapParameters,
)
    ensures
        visible(render(d, args, parent_wrap).text) == visible(contents(d)),
    decreases d, 1nat,
{
    let flat = pass(d, args, WrapParameters::flat(), parent_wrap);
    lemma_pass_visible(d, args, WrapParameters::flat(), parent_wrap);
    if rewraps(d, args, flat) {
        let decision = WrapParameters {
            wrap_because_length: exceeds(flat.text, args.max_line_length as nat),
            wrap_because_child: flat.is_wrapped,
        };
        lemma_pass_visible(d, args, decision, parent_wrap);
    }
}

/// A pass over a document without any `Wrap` gives the same result whatever
/// the maximum width and the two decisions are.
pub proof fn lemma_pass_gating(
    d: Doc,
    a: PrettyPrintParameters,
    b: PrettyPrintParameters,
    wrap_a: WrapParameters,
    wrap_b: WrapParameters,
    parent_a: WrapParameters,
    parent_b: WrapParameters,
)
    requires
        !has_wrap(d),
        a.indent_size == b.indent_size,
    ensures
        pass(d, a, wrap_a, parent_a) == pass(d, b, wrap_b, parent_b),
    decreases d, 0nat,
{
    match d {
        Doc::Group(cs) => {
            lemma_pass_all_gating(cs, a, b, wrap_a, wrap_b);
        },
        Doc::Indent(c) => {
            lemma_wrap_gating(*c, a, b, parent_a, parent_b);
        },
        _ => {},
    }
}

/// The children of a group, none of which holds a `Wrap`, render the same
/// whatever the maximum width and the group's decision are.
pub proof fn lemma_pass_all_gating(
    cs: Seq<Doc>,
    a: PrettyPrintParameters,
    b: PrettyPrintParameters,
    wrap_a: WrapParameters,
    wrap_b: WrapParameters,
)
    requires
        forall|i: int| 0 <= i < cs.len() ==> !has_wrap(#[trigger] cs[i]),
        a.indent_size == b.indent_size,
    ensures
        pass_all(cs, a, wrap_a) == pass_all(cs, b, wrap_b),
    decreases cs, 2nat,
{
    if cs.len() > 0 {
        assert forall|i: int| 0 <= i < cs.drop_last().len() implies !has_wrap(
            #[trigger] cs.drop_last()[i],
        ) by {
            assert(cs.drop_last()[i] == cs[i]);
        }
        lemma_pass_all_gating(cs.drop_last(), a, b, wrap_a, wrap_b);
        assert(!has_wrap(cs[cs.len() - 1]));
        lemma_wrap_gating(cs.last(), a, b, wrap_a, wrap_b);
    }
}

/// Wrap gating: a document without any `Wrap` renders the same for every
/// maximum width, and under every decision of a group above it.
pub proof fn lemma_wrap_gating(
    d: Doc,
    a: PrettyPrintParameters,
    b: PrettyPrintParameters,
    parent_a: WrapParameters,
    parent_b: WrapParameters,
)
    requires
        !has_wrap(d),
        a.indent_size == b.indent_size,
    ensures
        render(d, a, parent_a) == render(d, b, parent_b),
    decreases d, 1nat,
{
    lemma_pass_gating(d, a, b, WrapParameters::flat(), WrapParameters::flat(), parent_a, parent_b);
    if let Doc::Group(cs) = d {
        assert forall|i: int| 0 <= i < cs.len() implies !(#[trigger] cs[i] is Wrap) by {
            assert(!has_wrap(cs[i]));
        }
    }
}

/// A group with no `Wrap` among its own children is rendered in one pass:
/// its text is the flat concatenation of its children, never a second one.
pub proof fn lemma_group_without_wrap_is_final(
    cs: Seq<Doc>,
    args: PrettyPrintParameters,
    parent_wrap: WrapParameters,
)
    requires
        !has_direct_wrap(cs),
    ensures
        render(Doc::Group(cs), args, parent_wrap) == pass_all(cs, args, WrapParameters::flat()),
{
}

/// One more child at the end of a group adds its rendering at the end.
pub proof fn lemma_pass_all_push(
    cs: Seq<Doc>,
    d: Doc,
    args: PrettyPrintParameters,
    wrap: WrapParameters,
)
    ensures
        pass_all(cs.push(d), args, wrap).text == pass_all(cs, args, wrap).text + render(
            d,
            args,
            wrap,
        ).text,
        pass_all(cs.push(d), args, wrap).is_wrapped == (pass_all(cs, args, wrap).is_wrapped
            || render(d, args, wrap).is_wrapped),
{
    assert(cs.push(d).drop_last() =~= cs);
}

/// The children of a group render one after the other: the rendering of two
/// runs of children is the rendering of the first and then of the second.
pub proof fn lemma_pass_all_add(
    a: Seq<Doc>,
    b: Seq<Doc>,
    args: PrettyPrintParameters,
    wrap: WrapParameters,
)
    ensures
        pass_all(a + b, args, wrap).text == pass_all(a, args, wrap).text + pass_all(
            b,
            args,
            wrap,
        ).text,
        pass_all(a + b, args, wrap).is_wrapped == (pass_all(a, args, wrap).is_wrapped || pass_all(
            b,
            args,
            wrap,
        ).is_wrapped),
    decreases b.len(),
{
    if b.len() == 0 {
        assert(a + b =~= a);
        assert(pass_all(a, args, wrap).text + pass_all(b, args, wrap).text =~= pass_all(
            a,
            args,
            wrap,
        ).text);
    } else {
        lemma_pass_all_add(a, b.drop_last(), args, wrap);
        assert((a + b).drop_last() =~= a + b.drop_last());
        assert((a + b).last() == b.last());
        assert(pass_all(a + b, args, wrap).text =~= pass_all(a, args, wrap).text + pass_all(
            b,
            args,
            wrap,
        ).text);
    }
}

/// The decision under which the group `d` renders its children in the pass
/// that gives its text: that of the second pass where there is one, else
/// the flat one.
pub open spec fn decision_of(
    d: Doc,
    args: PrettyPrintParameters,
    parent_wrap: WrapParameters,
) -> WrapParameters {
    let flat = pass(d, args, WrapParameters::flat(), parent_wrap);
    if rewraps(d, args, flat) {
        WrapParameters {
            wrap_because_length: exceeds(flat.text, args.max_line_length as nat),
            wrap_because_child: flat.is_wrapped,
        }
    } else {
        WrapParameters::flat()
    }
}

/// A child in the text of its group: the text of a group is the text of
/// the children before the child `i`, the text of that child, and the text
/// of the children after it, all under the group's decision. Nothing of the
/// group stands inside the text of a child.
pub proof fn lemma_group_text_around(
    cs: Seq<Doc>,
    i: int,
    args: PrettyPrintParameters,
    parent_wrap: WrapParameters,
)
    requires
        0 <= i < cs.len(),
    ensures
        ({
            let decision = decision_of(Doc::Group(cs), args, parent_wrap);
            render(Doc::Group(cs), args, parent_wrap).text == pass_all(
                cs.take(i),
                args,
                decision,
            ).text + render(cs[i], args, decision).text + pass_all(
                cs.skip(i + 1),
                args,
                decision,
            ).text
        }),
{
    let decision = decision_of(Doc::Group(cs), args, parent_wrap);
    let front = cs.take(i);
    let back = cs.skip(i + 1);
    assert(cs =~= front.push(cs[i]) + back);
    lemma_pass_all_add(front.push(cs[i]), back, args, decision);
    lemma_pass_all_push(front, cs[i], args, decision);
}

/// One way in which the text of a document is made of the text of a part
/// of it.
pub ghost enum Surrounding {
    /// Text is put before it and after it.
    Around(Seq<char>, Seq<char>),
    /// One unit is put in front of each of its lines.
    Indented,
}

/// `text` after each of `steps` in turn, with `unit` as the unit of
/// indentation.
pub open spec fn surrounded(steps: Seq<Surrounding>, text: Seq<char>, unit: Seq<char>) -> Seq<char>
    decreases steps.len(),
{
    if steps.len() == 0 {
        text
    } else {
        let inner = surrounded(steps.drop_last(), text, unit);
        match steps.last() {
            Surrounding::Around(before, after) => before + inner + after,
            Surrounding::Indented => indent_text(inner, unit),
        }
    }
}

/// One more step at the end.
pub proof fn lemma_surrounded_push(
    steps: Seq<Surrounding>,
    step: Surrounding,
    text: Seq<char>,
    unit: Seq<char>,
)
    ensures
        surrounded(steps.push(step), text, unit) == match step {
            Surrounding::Around(before, after) => before + surrounded(steps, text, unit) + after,
            Surrounding::Indented => indent_text(surrounded(steps, text, unit), unit),
        },
{
    assert(steps.push(step).drop_last() =~= steps);
}

/// A part in the text of its document: the text of a document is made of
/// the text of each part of it, rendered under some decision, by putting
/// text around it and by indenting it, and by nothing else. The steps and
/// the decision are what is returned.
pub proof fn lemma_render_surrounds(
    part: Doc,
    whole: Doc,
    args: PrettyPrintParameters,
    parent_wrap: WrapParameters,
) -> (found: (Seq<Surrounding>, WrapParameters))
    requires
        stands_in(part, whole),
    ensures
        render(whole, args, parent_wrap).text == surrounded(
            found.0,
            render(part, args, found.1).text,
            unit_of(args),
        ),
    decreases whole, 1nat,
{
    if part == whole {
        (Seq::empty(), parent_wrap)
    } else {
        lemma_render_surrounds_inside(part, whole, args, parent_wrap)
    }
}

/// A part in the text of a document that holds it: see
/// `lemma_render_surrounds`.
pub proof fn lemma_render_surrounds_inside(
    part: Doc,
    whole: Doc,
    args: PrettyPrintParameters,
    parent_wrap: WrapParameters,
) -> (found: (Seq<Surrounding>, WrapParameters))
    requires
        stands_in(part, whole),
        part != whole,
    ensures
        render(whole, args, parent_wrap).text == surrounded(
            found.0,
            render(part, args, found.1).text,
            unit_of(args),
        ),
    decreases whole, 0nat,
{
    let unit = unit_of(args);
    let none = Seq::<char>::empty();
    match whole {
        Doc::Group(cs) => {
            let i = choose|i: int| 0 <= i < cs.len() && stands_in(part, #[trigger] cs[i]);
            let decision = decision_of(whole, args, parent_wrap);
            let inner = lemma_render_surrounds(part, cs[i], args, decision);
            lemma_group_text_around(cs, i, args, parent_wrap);
            let step = Surrounding::Around(
                pass_all(cs.take(i), args, decision).text,
                pass_all(cs.skip(i + 1), args, decision).text,
            );
            lemma_surrounded_push(inner.0, step, render(part, args, inner.1).text, unit);
            (inner.0.push(step), inner.1)
        },
        Doc::Indent(c) => {
            let inner = lemma_render_surrounds(part, *c, args, parent_wrap);
            lemma_surrounded_push(
                inner.0,
                Surrounding::Indented,
                render(part, args, inner.1).text,
                unit,
            );
            (inner.0.push(Surrounding::Indented), inner.1)
        },
        Doc::Wrap(c, a) => {
            let inner = lemma_render_surrounds(part, *c, args, parent_wrap);
            let text = render(part, args, inner.1).text;
            let own = render(*c, args, parent_wrap).text;
            if parent_wrap.wraps() {
                let line = Surrounding::Around(seq!['\n'], none);
                if a.wrap_with_indent {
                    let steps = inner.0.push(Surrounding::Indented);
                    lemma_surrounded_push(inner.0, Surrounding::Indented, text, unit);
                    lemma_surrounded_push(steps, line, text, unit);
                    assert(seq!['\n'] + indent_text(own, unit) + none =~= seq!['\n']
                        + indent_text(own, unit));
                    (steps.push(line), inner.1)
                } else {
                    lemma_surrounded_push(inner.0, line, text, unit);
                    assert(seq!['\n'] + own + none =~= seq!['\n'] + own);
                    (inner.0.push(line), inner.1)
                }
            } else if a.or_space {
                let space = Surrounding::Around(seq![' '], none);
                lemma_surrounded_push(inner.0, space, text, unit);
                assert(seq![' '] + own + none =~= seq![' '] + own);
                (inner.0.push(space), inner.1)
            } else {
                inner
            }
        },
        _ => (Seq::empty(), parent_wrap),
    }
}

/// The number of `steps` that indent.
pub open spec fn depth(steps: Seq<Surrounding>) -> nat
    decreases steps.len(),
{
    if steps.len() == 0 {
        0
    } else if steps.last() is Indented {
        depth(steps.drop_last()) + 1
    } else {
        depth(steps.drop_last())
    }
}

/// Whole lines through the steps: plain lines that stand in a text between
/// two line feeds, with text after them, stand between two line feeds after
/// the steps too, each with one unit of `n` spaces in front of it for each
/// step that indents. What stands before and after them then is what is
/// returned.
pub proof fn lemma_surrounded_block(
    steps: Seq<Surrounding>,
    a: Seq<char>,
    ls: Seq<Seq<char>>,
    b: Seq<char>,
    n: nat,
) -> (around: (Seq<char>, Seq<char>))
    requires
        plain_lines(ls),
        b.len() >= 1,
        n >= 1,
    ensures
        surrounded(steps, between_line_feeds(a, ls, b), spaces(n)) == between_line_feeds(
            around.0,
            prefix_each(ls, spaces(depth(steps) * n)),
            around.1,
        ),
        around.1.len() >= 1,
    decreases steps.len(),
{
    if steps.len() == 0 {
        assert(prefix_each(ls, spaces(0)) =~= ls) by {
            assert forall|i: int| 0 <= i < ls.len() implies #[trigger] prefix_each(
                ls,
                spaces(0),
            )[i] == ls[i] by {
                assert(spaces(0) + ls[i] =~= ls[i]);
            }
        }
        assert(depth(steps) * n == 0) by (nonlinear_arith)
            requires
                depth(steps) == 0,
        ;
        (a, b)
    } else {
        let inner = lemma_surrounded_block(steps.drop_last(), a, ls, b, n);
        let k = depth(steps.drop_last()) * n;
        let deep = prefix_each(ls, spaces(k));
        match steps.last() {
            Surrounding::Around(before, after) => {
                assert(before + between_line_feeds(inner.0, deep, inner.1) + after
                    =~= between_line_feeds(before + inner.0, deep, inner.1 + after));
                assert(depth(steps) == depth(steps.drop_last()));
                (before + inner.0, inner.1 + after)
            },
            Surrounding::Indented => {
                lemma_prefix_each_spaces(ls, k, n);
                lemma_prefix_each_spaces(ls, 0, k);
                assert(plain_lines(deep));
                assert(depth(steps) * n == k + n) by (nonlinear_arith)
                    requires
                        depth(steps) == depth(steps.drop_last()) + 1,
                        k == depth(steps.drop_last()) * n,
                ;
                let found = lemma_indent_block(inner.0, deep, inner.1, n);
                assert(prefix_each(deep, spaces(n)) == prefix_each(ls, spaces(k + n)));
                found
            },
        }
    }
}

/// The start of a line through the steps: a plain text that stands in a
/// text directly after a line feed stands directly after a line feed after
/// the steps too, with one unit of `n` spaces in front of it for each step
/// that indents. What stands before and after it then is what is returned.
pub proof fn lemma_surrounded_head(
    steps: Seq<Surrounding>,
    a: Seq<char>,
    h: Seq<char>,
    b: Seq<char>,
    n: nat,
) -> (around: (Seq<char>, Seq<char>))
    requires
        h.len() >= 1,
        one_line(h),
        no_carriage_return(h),
        n >= 1,
    ensures
        surrounded(steps, after_line_feed(a, h, b), spaces(n)) == after_line_feed(
            around.0,
            spaces(depth(steps) * n) + h,
            around.1,
        ),
    decreases steps.len(),
{
    if steps.len() == 0 {
        assert(spaces(0) + h =~= h);
        assert(depth(steps) * n == 0) by (nonlinear_arith)
            requires
                depth(steps) == 0,
        ;
        (a, b)
    } else {
        let inner = lemma_surrounded_head(steps.drop_last(), a, h, b, n);
        let k = depth(steps.drop_last()) * n;
        let head = spaces(k) + h;
        match steps.last() {
            Surrounding::Around(before, after) => {
                assert(before + after_line_feed(inner.0, head, inner.1) + after
                    =~= after_line_feed(before + inner.0, head, inner.1 + after));
                assert(depth(steps) == depth(steps.drop_last()));
                (before + inner.0, inner.1 + after)
            },
            Surrounding::Indented => {
                assert(depth(steps) * n == k + n) by (nonlinear_arith)
                    requires
                        depth(steps) == depth(steps.drop_last()) + 1,
                        k == depth(steps.drop_last()) * n,
                ;
                assert(one_line(head) && no_carriage_return(head)) by {
                    assert forall|j: int| 0 <= j < head.len() implies head[j] != '\n' && head[j]
                        != '\r' by {
                        if j >= k {
                            assert(head[j] == h[j - k]);
                        }
                    }
                }
                assert(spaces(n) + head =~= spaces(k + n) + h);
                let found = lemma_indent_head(inner.0, head, inner.1, n);
                found
            },
        }
    }
}

} // verus!
