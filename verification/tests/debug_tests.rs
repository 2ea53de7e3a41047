use formatter::debug::{describe_arguments, outline_document, outline_tree};
use formatter::format_node::{FormatNode, WrapArguments};
use formatter::tree::{Point, Range, Tree};

fn leaf<'a>(source: &'a str, name: &str) -> Tree<'a> {
    let range = Range {
        start_byte: 0,
        end_byte: 0,
        start_point: Point { row: 0, column: 0 },
        end_point: Point { row: 0, column: 0 },
    };
    Tree { name: name.to_string(), children: Vec::new(), range, source }
}

fn node<'a>(source: &'a str, name: &str, children: Vec<Tree<'a>>) -> Tree<'a> {
    let mut tree = leaf(source, name);
    tree.children = children;
    tree
}

fn content(text: &str) -> FormatNode {
    FormatNode::Content(text.to_string())
}

#[test]
fn arguments_are_described_as_debug_writes_them() {
    for bits in 0..8 {
        let arguments = WrapArguments {
            child_wrap_prevents_wrap: bits & 1 != 0,
            wrap_with_indent: bits & 2 != 0,
            or_space: bits & 4 != 0,
        };
        assert_eq!(describe_arguments(&arguments), format!("{:?}", arguments));
    }
    assert_eq!(
        describe_arguments(&WrapArguments {
            child_wrap_prevents_wrap: true,
            wrap_with_indent: false,
            or_space: true,
        }),
        "WrapArguments { child_wrap_prevents_wrap: true, wrap_with_indent: false, or_space: true }"
    );
}

#[test]
fn the_outline_of_a_tree_goes_two_spaces_deeper_for_each_level() {
    let source = "";
    let tree = node(
        source,
        "program",
        vec![
            node(source, "class_declaration", vec![leaf(source, "class"), leaf(source, "identifier")]),
            leaf(source, "line_comment"),
        ],
    );
    assert_eq!(
        outline_tree(&tree, ""),
        vec!["program", "  class_declaration", "    class", "    identifier", "  line_comment"]
    );
    assert_eq!(outline_tree(&leaf(source, "x"), "   "), vec!["   x"]);
    assert_eq!(
        outline_tree(&node(source, "a", vec![leaf(source, "b")]), "> "),
        vec!["> a", ">   b"]
    );
}

#[test]
fn the_outline_of_a_document_goes_four_spaces_deeper_for_each_level() {
    let arguments =
        WrapArguments { child_wrap_prevents_wrap: false, wrap_with_indent: true, or_space: false };
    let doc = FormatNode::Group(vec![
        content("foo"),
        FormatNode::Space,
        FormatNode::Wrap(Box::new(FormatNode::Group(vec![content("a")])), arguments),
        FormatNode::Indent(Box::new(FormatNode::Newline)),
    ]);
    assert_eq!(
        outline_document(&doc, ""),
        vec![
            "Group".to_string(),
            "    Content".to_string(),
            "        foo".to_string(),
            "    Space".to_string(),
            "    Wrap".to_string(),
            format!("        {:?}", arguments),
            "        Group".to_string(),
            "            Content".to_string(),
            "                a".to_string(),
            "    Indent".to_string(),
            "        Newline".to_string(),
        ]
    );
    assert_eq!(outline_document(&FormatNode::Group(vec![]), "  "), vec!["  Group"]);
    assert_eq!(outline_document(&content("two\nlines"), "-"), vec!["-Content", "-    two\nlines"]);
}
