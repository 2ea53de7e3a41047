use formatter::format_node::{FormatNode, WrapArguments};
use formatter::render::{prettyprint, PrettyPrintParameters, PrettyPrintResult, WrapParameters};

fn content(text: &str) -> FormatNode {
    FormatNode::Content(text.to_string())
}

fn group(children: Vec<FormatNode>) -> FormatNode {
    FormatNode::Group(children)
}

fn wrap(child: FormatNode, wrap_with_indent: bool, or_space: bool) -> FormatNode {
    FormatNode::Wrap(
        Box::new(child),
        WrapArguments { child_wrap_prevents_wrap: false, wrap_with_indent, or_space },
    )
}

fn quiet_wrap(child: FormatNode) -> FormatNode {
    FormatNode::Wrap(
        Box::new(child),
        WrapArguments { child_wrap_prevents_wrap: true, wrap_with_indent: true, or_space: false },
    )
}

fn indent(child: FormatNode) -> FormatNode {
    FormatNode::Indent(Box::new(child))
}

fn settings(max_line_length: usize) -> PrettyPrintParameters {
    PrettyPrintParameters { indent_size: 4, max_line_length }
}

fn flat() -> WrapParameters {
    WrapParameters::default()
}

fn breaking() -> WrapParameters {
    WrapParameters { wrap_because_length: true, wrap_because_child: false }
}

fn render(doc: &FormatNode, max_line_length: usize) -> String {
    prettyprint(doc, &settings(max_line_length), flat()).result
}

/// The document of `(a, b, c)` as a wrap list.
fn list(items: &[&str]) -> FormatNode {
    let mut inner = Vec::new();
    for (index, item) in items.iter().enumerate() {
        let last = index + 1 == items.len();
        let text = if last { item.to_string() } else { format!("{},", item) };
        if index == 0 {
            inner.push(content(&text));
        } else {
            inner.push(wrap(group(vec![content(&text)]), false, true));
        }
    }
    group(vec![
        content("("),
        wrap(group(vec![group(inner)]), true, false),
        wrap(group(vec![content(")")]), false, false),
    ])
}

#[test]
fn content_renders_as_its_text() {
    let out = prettyprint(&content("abc"), &settings(100), flat());
    assert_eq!(out.result, "abc");
    assert!(!out.is_wrapped);
}

#[test]
fn content_is_never_broken() {
    let long = "x".repeat(300);
    let out = prettyprint(&content(&long), &settings(10), breaking());
    assert_eq!(out.result, long);
    assert!(!out.is_wrapped);
}

#[test]
fn space_and_newline_render_as_themselves() {
    assert_eq!(render(&FormatNode::Space, 100), " ");
    assert_eq!(render(&FormatNode::Newline, 100), "\n");
    assert_eq!(
        render(&group(vec![content("a"), FormatNode::Space, content("b"), FormatNode::Newline]), 100),
        "a b\n"
    );
}

#[test]
fn default_decision_breaks_nothing() {
    let decision = WrapParameters::default();
    assert!(!decision.wrap_because_length);
    assert!(!decision.wrap_because_child);
}

#[test]
fn result_from_a_string_reports_no_break() {
    let out = PrettyPrintResult::from("text".to_string());
    assert_eq!(out.result, "text");
    assert!(!out.is_wrapped);
}

#[test]
fn empty_group_renders_as_nothing() {
    let out = prettyprint(&group(vec![]), &settings(100), flat());
    assert_eq!(out.result, "");
    assert!(!out.is_wrapped);
}

#[test]
fn group_with_wraps_that_fits_stays_flat() {
    let doc = group(vec![
        content("a,"),
        wrap(content("b,"), false, true),
        wrap(content("c"), false, true),
    ]);
    let out = prettyprint(&doc, &settings(100), flat());
    assert_eq!(out.result, "a, b, c");
    assert!(!out.is_wrapped);
}

#[test]
fn group_with_wraps_that_is_too_wide_breaks() {
    let doc = group(vec![
        content("a,"),
        wrap(content("b,"), false, true),
        wrap(content("c"), false, true),
    ]);
    let out = prettyprint(&doc, &settings(5), flat());
    assert_eq!(out.result, "a,\nb,\nc");
    assert!(out.is_wrapped);
}

#[test]
fn a_line_of_exactly_the_maximum_does_not_break() {
    let doc = group(vec![content("abc"), wrap(content("def"), false, true)]);
    assert_eq!(render(&doc, 7), "abc def");
    assert_eq!(render(&doc, 6), "abc\ndef");
}

#[test]
fn width_is_measured_in_bytes() {
    let doc = group(vec![content("h\u{e9}"), wrap(content("b"), false, true)]);
    assert_eq!(render(&doc, 5), "h\u{e9} b");
    assert_eq!(render(&doc, 4), "h\u{e9}\nb");
}

#[test]
fn wrap_follows_the_decision_above_it() {
    let plain = wrap(content("x"), false, false);
    let spaced = wrap(content("x"), false, true);
    let indented = wrap(content("x\ny"), true, true);
    assert_eq!(prettyprint(&plain, &settings(100), flat()).result, "x");
    assert_eq!(prettyprint(&spaced, &settings(100), flat()).result, " x");
    assert_eq!(prettyprint(&indented, &settings(100), flat()).result, " x\ny");
    assert_eq!(prettyprint(&plain, &settings(100), breaking()).result, "\nx");
    assert_eq!(prettyprint(&spaced, &settings(100), breaking()).result, "\nx");
    assert_eq!(prettyprint(&indented, &settings(100), breaking()).result, "\n    x\n    y");
    let child =
        WrapParameters { wrap_because_length: false, wrap_because_child: true };
    assert_eq!(prettyprint(&indented, &settings(100), child).result, "\n    x\n    y");
}

#[test]
fn indent_uses_the_indent_size() {
    let doc = indent(content("a\nb"));
    let two = PrettyPrintParameters { indent_size: 2, max_line_length: 100 };
    let eight = PrettyPrintParameters { indent_size: 8, max_line_length: 100 };
    assert_eq!(prettyprint(&doc, &two, flat()).result, "  a\n  b");
    assert_eq!(prettyprint(&doc, &eight, flat()).result, "        a\n        b");
    assert_eq!(render(&doc, 100), "    a\n    b");
}

#[test]
fn indent_composes_with_a_broken_child() {
    let doc = indent(group(vec![content("call"), list(&["first", "second"])]));
    assert_eq!(render(&doc, 100), "    call(first, second)");
    assert_eq!(render(&doc, 10), "    call(\n        first,\n        second\n    )");
}

#[test]
fn nested_indents_add_up() {
    let doc = indent(group(vec![content("a"), FormatNode::Newline, indent(content("b"))]));
    assert_eq!(render(&doc, 100), "    a\n        b");
}

#[test]
fn indent_reports_no_break() {
    let inner = group(vec![content("aaaa"), wrap(content("bbbb"), false, true)]);
    let out = prettyprint(&indent(inner), &settings(5), flat());
    assert_eq!(out.result, "    aaaa\n    bbbb");
    assert!(!out.is_wrapped);
}

#[test]
fn wrap_and_indent_hand_the_decision_down() {
    let doc = indent(wrap(content("x"), false, true));
    assert_eq!(prettyprint(&doc, &settings(100), flat()).result, "     x");
    assert_eq!(prettyprint(&doc, &settings(100), breaking()).result, "    \n    x");
    let chain = wrap(wrap(content("x"), false, true), false, true);
    assert_eq!(prettyprint(&chain, &settings(100), flat()).result, "  x");
    assert_eq!(prettyprint(&chain, &settings(100), breaking()).result, "\n\nx");
}

#[test]
fn a_group_decides_for_itself_whatever_was_decided_above() {
    let doc = group(vec![content("a"), wrap(content("b"), false, true)]);
    assert_eq!(prettyprint(&doc, &settings(100), breaking()).result, "a b");
    assert_eq!(prettyprint(&doc, &settings(100), flat()).result, "a b");
}

#[test]
fn group_without_a_wrap_of_its_own_is_rendered_once() {
    let long = "x".repeat(40);
    let doc = group(vec![content(&long), FormatNode::Space, content(&long)]);
    let out = prettyprint(&doc, &settings(10), flat());
    assert_eq!(out.result, format!("{} {}", long, long));
    assert!(!out.is_wrapped);
}

#[test]
fn group_without_a_wrap_of_its_own_passes_a_break_on() {
    let inner = group(vec![content("aaaa"), wrap(content("bbbb"), false, true)]);
    let outer = group(vec![content("["), inner, content("]")]);
    let out = prettyprint(&outer, &settings(5), flat());
    assert_eq!(out.result, "[aaaa\nbbbb]");
    assert!(out.is_wrapped);
    let calm = prettyprint(&outer, &settings(100), flat());
    assert_eq!(calm.result, "[aaaa bbbb]");
    assert!(!calm.is_wrapped);
}

#[test]
fn a_break_inside_makes_the_group_around_it_break() {
    let doc = list(&["first", "second", "third"]);
    assert_eq!(render(&doc, 100), "(first, second, third)");
    assert_eq!(render(&doc, 12), "(\n    first,\n    second,\n    third\n)");
}

#[test]
fn a_group_breaks_for_a_child_even_where_that_does_not_help() {
    // The inner list is too wide whatever the outer group does; the outer
    // group breaks all the same.
    let inner = group(vec![content("aaaaaaaa,"), wrap(content("bbbbbbbb"), false, true)]);
    let outer = group(vec![content("x"), wrap(group(vec![inner]), false, true), wrap(content("y"), false, true)]);
    assert_eq!(render(&outer, 100), "x aaaaaaaa, bbbbbbbb y");
    assert_eq!(render(&outer, 12), "x\naaaaaaaa,\nbbbbbbbb\ny");
}

#[test]
fn a_wrap_that_keeps_breaks_to_itself_does_not_break_its_neighbours() {
    let chain = group(vec![content("aaaaaaaa"), wrap(content(".b"), true, false)]);
    let loud = group(vec![
        content("x"),
        wrap(group(vec![chain]), false, true),
        wrap(content("y"), false, true),
    ]);
    let out = prettyprint(&loud, &settings(9), flat());
    assert_eq!(out.result, "x\naaaaaaaa\n    .b\ny");
    assert!(out.is_wrapped);

    let chain = group(vec![content("aaaaaaaa"), wrap(content(".b"), true, false)]);
    let quiet = group(vec![
        content("x"),
        quiet_wrap(group(vec![chain])),
        wrap(content("y"), false, true),
    ]);
    let out = prettyprint(&quiet, &settings(9), flat());
    assert_eq!(out.result, "xaaaaaaaa\n    .b y");
    assert!(!out.is_wrapped);
}

#[test]
fn a_line_may_stay_too_wide_after_breaking() {
    let long = "x".repeat(30);
    let doc = group(vec![content(&long), wrap(content(&long), false, true)]);
    assert_eq!(render(&doc, 10), format!("{}\n{}", long, long));
}

#[test]
fn a_document_without_wraps_renders_the_same_for_every_maximum() {
    let doc = group(vec![
        content("class A {"),
        group(vec![
            FormatNode::Newline,
            indent(group(vec![content("int"), FormatNode::Space, content("someField;")])),
            FormatNode::Newline,
            FormatNode::Newline,
            indent(content("/*\n * comment\n */")),
        ]),
        FormatNode::Newline,
        content("}"),
    ]);
    let expected = "class A {\n    int someField;\n\n    /*\n     * comment\n     */\n}";
    for max in [0, 1, 5, 10, 80, 100, usize::MAX] {
        for parent in [flat(), breaking()] {
            let out = prettyprint(&doc, &settings(max), parent);
            assert_eq!(out.result, expected);
            assert!(!out.is_wrapped);
        }
    }
}

#[test]
fn rendering_keeps_every_visible_character_in_order() {
    let doc = indent(group(vec![content("call"), list(&["first", "second", "third"])]));
    for max in [0, 8, 16, 100] {
        let text = render(&doc, max);
        let visible: String = text.chars().filter(|c| !c.is_whitespace()).collect();
        assert_eq!(visible, "call(first,second,third)");
    }
}

#[test]
fn rendering_twice_gives_the_same_text() {
    let doc = list(&["first", "second", "third"]);
    for max in [0, 8, 16, 100] {
        assert_eq!(render(&doc, max), render(&doc, max));
    }
}
