use formatter::format_node::{FormatNode, WrapArguments};
use formatter::print::{print, print_with};
use formatter::render::PrettyPrintParameters;
use formatter::rules::get;
use formatter::transform::{transform, transform_with, TransformError};
use formatter::tree::{Point, Range, Tree};

/// Builds the nodes of a tree over `src` from left to right.
struct Builder<'a> {
    src: &'a str,
    pos: usize,
}

impl<'a> Builder<'a> {
    fn new(src: &'a str) -> Builder<'a> {
        Builder { src, pos: 0 }
    }

    fn point(&self, byte: usize) -> Point {
        let before = &self.src[..byte];
        let row = before.matches('\n').count();
        let column = byte - before.rfind('\n').map(|at| at + 1).unwrap_or(0);
        Point { row, column }
    }

    fn range(&self, start: usize, end: usize) -> Range {
        Range {
            start_byte: start,
            end_byte: end,
            start_point: self.point(start),
            end_point: self.point(end),
        }
    }

    /// The next occurrence of `text`, as a leaf named `name`.
    fn leaf(&mut self, name: &str, text: &str) -> Tree<'a> {
        let start = self.pos + self.src[self.pos..].find(text).expect("text is in the source");
        let end = start + text.len();
        self.pos = end;
        Tree { name: name.to_string(), children: Vec::new(), range: self.range(start, end), source: self.src }
    }

    /// The next occurrence of `text`, as a token named by its text.
    fn token(&mut self, text: &str) -> Tree<'a> {
        self.leaf(text, text)
    }

    /// A node named `name` over `children`.
    fn node(&self, name: &str, children: Vec<Tree<'a>>) -> Tree<'a> {
        let start = children.first().expect("a node has children").range.start_byte;
        let end = children.last().expect("a node has children").range.end_byte;
        Tree { name: name.to_string(), children, range: self.range(start, end), source: self.src }
    }
}

fn settings(max_line_length: usize) -> PrettyPrintParameters {
    PrettyPrintParameters { indent_size: 4, max_line_length }
}

fn call<'a>(b: &mut Builder<'a>, name: &str, arguments: &[&str]) -> Tree<'a> {
    let function = b.leaf("identifier", name);
    let mut items = vec![b.token("(")];
    for (index, argument) in arguments.iter().enumerate() {
        if index > 0 {
            items.push(b.token(","));
        }
        items.push(b.leaf("identifier", argument));
    }
    items.push(b.token(")"));
    let list = b.node("argument_list", items);
    b.node("method_invocation", vec![function, list])
}

fn empty_class<'a>(b: &mut Builder<'a>, name: &str) -> Tree<'a> {
    let keyword = b.token("class");
    let identifier = b.leaf("identifier", name);
    let open = b.token("{");
    let close = b.token("}");
    let body = b.node("class_body", vec![open, close]);
    b.node("class_declaration", vec![keyword, identifier, body])
}

fn import<'a>(b: &mut Builder<'a>, name: &str) -> Tree<'a> {
    let keyword = b.token("import");
    let identifier = b.leaf("identifier", name);
    let semicolon = b.token(";");
    b.node("import_declaration", vec![keyword, identifier, semicolon])
}

#[test]
fn empty_class_body_collapses() {
    let src = "class A{}";
    let mut b = Builder::new(src);
    let class = empty_class(&mut b, "A");
    let program = b.node("program", vec![class]);
    assert_eq!(print(&program, &settings(100)), Ok("class A { }\n".to_string()));
}

#[test]
fn call_that_fits_stays_inline() {
    let src = "foo(a,b,c)";
    let mut b = Builder::new(src);
    let tree = call(&mut b, "foo", &["a", "b", "c"]);
    assert_eq!(print(&tree, &settings(100)), Ok("foo(a, b, c)\n".to_string()));
}

#[test]
fn call_that_is_too_wide_gets_a_line_for_each_argument() {
    let src = "foo(veryLongArgumentNameOne, veryLongArgumentNameTwo, veryLongArgumentNameThree)";
    let mut b = Builder::new(src);
    let tree = call(
        &mut b,
        "foo",
        &["veryLongArgumentNameOne", "veryLongArgumentNameTwo", "veryLongArgumentNameThree"],
    );
    let expected = "foo(\n    veryLongArgumentNameOne,\n    veryLongArgumentNameTwo,\n    veryLongArgumentNameThree\n)\n";
    assert_eq!(print(&tree, &settings(60)), Ok(expected.to_string()));
    assert_eq!(print(&tree, &settings(100)), Ok(format!("{}\n", src)));
}

#[test]
fn blank_line_after_the_last_import_only() {
    let src = "import a;\nimport b;\nclass A{}";
    let mut b = Builder::new(src);
    let first = import(&mut b, "a");
    let second = import(&mut b, "b");
    let class = empty_class(&mut b, "A");
    let program = b.node("program", vec![first, second, class]);
    assert_eq!(
        print(&program, &settings(100)),
        Ok("import a;\nimport b;\n\nclass A { }\n".to_string())
    );
}

#[test]
fn block_comment_is_realigned_and_indented_again() {
    let src = "class A{\n        /*\n             * text\n             */\n}";
    let mut b = Builder::new(src);
    let keyword = b.token("class");
    let identifier = b.leaf("identifier", "A");
    let open = b.token("{");
    let comment = b.leaf("block_comment", "/*\n             * text\n             */");
    let close = b.token("}");
    let body = b.node("class_body", vec![open, comment, close]);
    let class = b.node("class_declaration", vec![keyword, identifier, body]);
    let program = b.node("program", vec![class]);
    assert_eq!(
        print(&program, &settings(100)),
        Ok("class A {\n    /*\n     * text\n     */\n}\n".to_string())
    );
}

#[test]
fn closer_that_nothing_matches_is_an_error() {
    let src = "a )";
    let mut b = Builder::new(src);
    let a = b.leaf("identifier", "a");
    let close = b.token(")");
    let tree = b.node("expression", vec![a, close]);
    assert_eq!(print(&tree, &settings(100)), Err(TransformError::UnmatchedCloser));
}

fn content(text: &str) -> FormatNode {
    FormatNode::Content(text.to_string())
}

fn group(children: Vec<FormatNode>) -> FormatNode {
    FormatNode::Group(children)
}

fn wrap(children: Vec<FormatNode>, wrap_with_indent: bool, or_space: bool) -> FormatNode {
    FormatNode::Wrap(
        Box::new(group(children)),
        WrapArguments { child_wrap_prevents_wrap: false, wrap_with_indent, or_space },
    )
}

fn indent(child: FormatNode) -> FormatNode {
    FormatNode::Indent(Box::new(child))
}

fn visible(text: &str) -> String {
    text.chars().filter(|c| !c.is_whitespace()).collect()
}

/// The text of the leaves of `tree`, in order.
fn leaves(tree: &Tree) -> String {
    if tree.children().is_empty() {
        tree.text().to_string()
    } else {
        tree.children().iter().map(|child| leaves(child)).collect()
    }
}

/// `void name() { calls }` as a method declaration.
fn method<'a>(b: &mut Builder<'a>, name: &str, calls: &[(&str, &[&str])]) -> Tree<'a> {
    let kind = b.leaf("void_type", "void");
    let identifier = b.leaf("identifier", name);
    let open = b.token("(");
    let close = b.token(")");
    let parameters = b.node("formal_parameters", vec![open, close]);
    let mut items = vec![b.token("{")];
    for (function, arguments) in calls {
        let invocation = call(b, function, arguments);
        let semicolon = b.token(";");
        items.push(b.node("expression_statement", vec![invocation, semicolon]));
    }
    items.push(b.token("}"));
    let block = b.node("block", items);
    b.node("method_declaration", vec![kind, identifier, parameters, block])
}

#[test]
fn a_leaf_becomes_its_text() {
    let src = "  someName ";
    let mut b = Builder::new(src);
    let leaf = b.leaf("identifier", "someName");
    assert_eq!(transform(&leaf), Ok(content("someName")));
    let whole = Tree { name: "x".to_string(), children: Vec::new(), range: b.range(0, src.len()), source: src };
    assert_eq!(transform(&whole), Ok(content("  someName ")));
}

#[test]
fn a_block_comment_has_its_lines_realigned() {
    let src = "/*\n\t\t * one\n   * two\r\n*/";
    let mut b = Builder::new(src);
    let comment = b.leaf("block_comment", src);
    assert_eq!(transform(&comment), Ok(content("/*\n * one\n * two\n */")));
    let mut b = Builder::new(src);
    let other = b.leaf("line_comment", src);
    assert_eq!(transform(&other), Ok(content(src)));
}

#[test]
fn a_block_comment_of_one_line_only_loses_leading_white_space() {
    let src = " \u{a0}/* text */";
    let b = Builder::new(src);
    let comment = Tree {
        name: "block_comment".to_string(),
        children: Vec::new(),
        range: b.range(0, src.len()),
        source: src,
    };
    assert_eq!(transform(&comment), Ok(content("/* text */")));
}

#[test]
fn children_of_a_plain_parent_are_concatenated() {
    let src = "a b c";
    let mut b = Builder::new(src);
    let items = vec![b.leaf("x", "a"), b.leaf("y", "b"), b.leaf("z", "c")];
    let tree = b.node("unknown", items);
    assert_eq!(transform(&tree), Ok(group(vec![content("a"), content("b"), content("c")])));
    assert_eq!(print(&tree, &settings(100)), Ok("abc\n".to_string()));
}

#[test]
fn the_document_of_a_call() {
    let src = "foo(a,b,c)";
    let mut b = Builder::new(src);
    let tree = call(&mut b, "foo", &["a", "b", "c"]);
    let expected = group(vec![
        content("foo"),
        group(vec![
            content("("),
            wrap(
                vec![
                    group(vec![content("a"), content(",")]),
                    wrap(vec![content("b"), content(",")], false, true),
                    wrap(vec![content("c")], false, true),
                ],
                true,
                false,
            ),
            wrap(vec![content(")")], false, false),
        ]),
    ]);
    assert_eq!(transform(&tree), Ok(expected));
}

#[test]
fn the_document_of_a_call_without_arguments() {
    let src = "foo()";
    let mut b = Builder::new(src);
    let tree = call(&mut b, "foo", &[]);
    let expected = group(vec![
        content("foo"),
        group(vec![content("("), wrap(vec![content(")")], true, false)]),
    ]);
    assert_eq!(transform(&tree), Ok(expected));
    assert_eq!(print(&tree, &settings(100)), Ok("foo()\n".to_string()));
}

#[test]
fn the_document_of_a_member_access() {
    let src = "a.b";
    let mut b = Builder::new(src);
    let items = vec![b.leaf("identifier", "a"), b.token("."), b.leaf("identifier", "b")];
    let tree = b.node("field_access", items);
    let expected = group(vec![
        content("a"),
        FormatNode::Wrap(
            Box::new(group(vec![content("."), content("b")])),
            WrapArguments { child_wrap_prevents_wrap: true, wrap_with_indent: true, or_space: false },
        ),
    ]);
    assert_eq!(transform(&tree), Ok(expected));
    assert_eq!(print(&tree, &settings(100)), Ok("a.b\n".to_string()));
    assert_eq!(print(&tree, &settings(2)), Ok("a\n    .b\n".to_string()));
}

#[test]
fn the_document_of_a_block() {
    let src = "{a;b;}";
    let mut b = Builder::new(src);
    let items = vec![
        b.token("{"),
        b.leaf("statement", "a;"),
        b.leaf("statement", "b;"),
        b.token("}"),
    ];
    let tree = b.node("block", items);
    let expected = group(vec![
        content("{"),
        group(vec![
            FormatNode::Newline,
            indent(content("a;")),
            FormatNode::Newline,
            indent(content("b;")),
        ]),
        FormatNode::Newline,
        content("}"),
    ]);
    assert_eq!(transform(&tree), Ok(expected));
    assert_eq!(print(&tree, &settings(100)), Ok("{\n    a;\n    b;\n}\n".to_string()));
}

#[test]
fn an_empty_pair_opens_no_scope_and_closes_none() {
    let src = "(a())";
    let mut b = Builder::new(src);
    let items = vec![
        b.token("("),
        b.leaf("identifier", "a"),
        b.token("("),
        b.token(")"),
        b.token(")"),
    ];
    let tree = b.node("unknown", items);
    let expected = group(vec![
        content("("),
        group(vec![content("a"), content("("), content(")")]),
        content(")"),
    ]);
    assert_eq!(transform(&tree), Ok(expected));
}

#[test]
fn scopes_inside_scopes_close_in_turn() {
    let src = "((a)b)";
    let mut b = Builder::new(src);
    let items = vec![
        b.token("("),
        b.token("("),
        b.leaf("identifier", "a"),
        b.token(")"),
        b.leaf("identifier", "b"),
        b.token(")"),
    ];
    let tree = b.node("unknown", items);
    let expected = group(vec![
        content("("),
        group(vec![content("("), group(vec![content("a")]), content(")"), content("b")]),
        content(")"),
    ]);
    assert_eq!(transform(&tree), Ok(expected));
}

#[test]
fn a_scope_that_nothing_closes_is_closed_at_the_end() {
    let src = "(a b";
    let mut b = Builder::new(src);
    let items = vec![b.token("("), b.leaf("identifier", "a"), b.leaf("identifier", "b")];
    let tree = b.node("unknown", items);
    let expected =
        group(vec![content("("), group(vec![content("a"), content("b")])]);
    assert_eq!(transform(&tree), Ok(expected));
}

#[test]
fn a_closer_deep_in_the_tree_that_nothing_matches_is_an_error() {
    let src = "class A{ a } }";
    let mut b = Builder::new(src);
    let keyword = b.token("class");
    let identifier = b.leaf("identifier", "A");
    let open = b.token("{");
    let a = b.leaf("identifier", "a");
    let close = b.token("}");
    let stray = b.token("}");
    let body = b.node("class_body", vec![open, a, close, stray]);
    let class = b.node("class_declaration", vec![keyword, identifier, body]);
    let program = b.node("program", vec![class]);
    assert_eq!(transform(&program), Err(TransformError::UnmatchedCloser));
    assert_eq!(print(&program, &settings(100)), Err(TransformError::UnmatchedCloser));
}

#[test]
fn a_closer_as_first_child_is_no_error() {
    let src = ") a";
    let mut b = Builder::new(src);
    let items = vec![b.token(")"), b.leaf("identifier", "a")];
    let tree = b.node("unknown", items);
    assert_eq!(transform(&tree), Ok(group(vec![content(")"), content("a")])));
}

#[test]
fn another_table_gives_another_document() {
    let src = "[a b]";
    let mut b = Builder::new(src);
    let items = vec![
        b.token("["),
        b.leaf("identifier", "a"),
        b.leaf("identifier", "b"),
        b.token("]"),
    ];
    let tree = b.node("list", items);
    let mut config = get();
    assert_eq!(
        transform_with(&config, &tree),
        Ok(group(vec![content("["), content("a"), content("b"), content("]")]))
    );
    config.unconditional_space.push("list");
    config.stack_pushers.push("[");
    config.stack_poppers.push("]");
    assert_eq!(
        transform_with(&config, &tree),
        Ok(group(vec![
            content("["),
            group(vec![
                FormatNode::Space,
                content("a"),
                FormatNode::Space,
                content("b"),
            ]),
            FormatNode::Space,
            content("]"),
        ]))
    );
}

#[test]
fn another_table_gives_another_text() {
    let src = "[a b]";
    let mut b = Builder::new(src);
    let items = vec![
        b.token("["),
        b.leaf("identifier", "a"),
        b.leaf("identifier", "b"),
        b.token("]"),
    ];
    let tree = b.node("list", items);
    let mut config = get();
    assert_eq!(print_with(&config, &tree, &settings(100)), Ok("[ab]\n".to_string()));
    assert_eq!(print_with(&config, &tree, &settings(100)), print(&tree, &settings(100)));
    config.block_elements.push("list");
    config.stack_pushers.push("[");
    config.stack_poppers.push("]");
    assert_eq!(
        print_with(&config, &tree, &settings(100)),
        Ok("[\n    a\n    b\n    ]\n".to_string())
    );
    let src = "a ]";
    let mut b = Builder::new(src);
    let items = vec![b.leaf("identifier", "a"), b.token("]")];
    let tree = b.node("list", items);
    assert_eq!(print(&tree, &settings(100)), Ok("a]\n".to_string()));
    assert_eq!(print_with(&config, &tree, &settings(100)), Err(TransformError::UnmatchedCloser));
}

#[test]
fn the_error_says_what_went_wrong() {
    assert_eq!(
        TransformError::UnmatchedCloser.message(),
        "a closing delimiter that nothing matches"
    );
}

#[test]
fn lines_inside_a_block_are_one_unit_deeper_than_its_braces() {
    let src = "class A{void run(){foo(a,b);bar();}}";
    let mut b = Builder::new(src);
    let keyword = b.token("class");
    let identifier = b.leaf("identifier", "A");
    let open = b.token("{");
    let run = method(&mut b, "run", &[("foo", &["a", "b"]), ("bar", &[])]);
    let close = b.token("}");
    let body = b.node("class_body", vec![open, run, close]);
    let class = b.node("class_declaration", vec![keyword, identifier, body]);
    let program = b.node("program", vec![class]);
    let expected = "class A {\n    void run() {\n        foo(a, b);\n        bar();\n    }\n}\n";
    assert_eq!(print(&program, &settings(100)), Ok(expected.to_string()));
    let two = PrettyPrintParameters { indent_size: 2, max_line_length: 100 };
    let expected = "class A {\n  void run() {\n    foo(a, b);\n    bar();\n  }\n}\n";
    assert_eq!(print(&program, &two), Ok(expected.to_string()));
}

#[test]
fn a_broken_call_inside_a_block_keeps_the_indentation_of_the_block() {
    let src = "{foo(firstArgument,secondArgument);}";
    let mut b = Builder::new(src);
    let open = b.token("{");
    let invocation = call(&mut b, "foo", &["firstArgument", "secondArgument"]);
    let semicolon = b.token(";");
    let statement = b.node("expression_statement", vec![invocation, semicolon]);
    let close = b.token("}");
    let block = b.node("block", vec![open, statement, close]);
    let expected = "{\n    foo(\n        firstArgument,\n        secondArgument\n    );\n}\n";
    assert_eq!(print(&block, &settings(20)), Ok(expected.to_string()));
}

#[test]
fn one_blank_line_of_the_source_is_kept_inside_a_block() {
    for (src, expected) in [
        ("{a;b;}", "{\n    a;\n    b;\n}\n"),
        ("{a;\nb;}", "{\n    a;\n    b;\n}\n"),
        ("{a;\n\nb;}", "{\n    a;\n\n    b;\n}\n"),
        ("{a;\n\n\n\nb;}", "{\n    a;\n\n    b;\n}\n"),
        ("{a;b;\n\n}", "{\n    a;\n    b;\n\n}\n"),
    ] {
        let mut b = Builder::new(src);
        let items = vec![
            b.token("{"),
            b.leaf("statement", "a;"),
            b.leaf("statement", "b;"),
            b.token("}"),
        ];
        let tree = b.node("block", items);
        assert_eq!(print(&tree, &settings(100)), Ok(expected.to_string()), "for {:?}", src);
    }
}

#[test]
fn a_blank_line_follows_a_method_and_the_last_field() {
    let src = "class A{int x;int y;void run(){}void stop(){}}";
    let mut b = Builder::new(src);
    let keyword = b.token("class");
    let identifier = b.leaf("identifier", "A");
    let open = b.token("{");
    let x = b.leaf("field_declaration", "int x;");
    let y = b.leaf("field_declaration", "int y;");
    let run = method(&mut b, "run", &[]);
    let stop = method(&mut b, "stop", &[]);
    let close = b.token("}");
    let body = b.node("class_body", vec![open, x, y, run, stop, close]);
    let class = b.node("class_declaration", vec![keyword, identifier, body]);
    let program = b.node("program", vec![class]);
    let expected = "class A {\n    int x;\n    int y;\n\n    void run() { }\n\n    void stop() { }\n}\n";
    assert_eq!(print(&program, &settings(100)), Ok(expected.to_string()));
}

#[test]
fn formatting_changes_white_space_only() {
    let src = "import a;\nclass A{void run(){foo(firstArgument,secondArgument);bar();}}";
    let mut b = Builder::new(src);
    let first = import(&mut b, "a");
    let keyword = b.token("class");
    let identifier = b.leaf("identifier", "A");
    let open = b.token("{");
    let run = method(&mut b, "run", &[("foo", &["firstArgument", "secondArgument"]), ("bar", &[])]);
    let close = b.token("}");
    let body = b.node("class_body", vec![open, run, close]);
    let class = b.node("class_declaration", vec![keyword, identifier, body]);
    let program = b.node("program", vec![first, class]);
    assert_eq!(visible(&leaves(&program)), visible(src));
    for max in [0, 10, 20, 30, 40, 100] {
        for indent_size in [0, 1, 4] {
            let arguments = PrettyPrintParameters { indent_size, max_line_length: max };
            let text = print(&program, &arguments).unwrap();
            assert_eq!(visible(&text), visible(src), "for {} and {}", max, indent_size);
            assert!(text.ends_with('\n'));
        }
    }
}

#[test]
fn formatting_the_same_tree_again_gives_the_same_text() {
    let src = "foo(veryLongArgumentNameOne, veryLongArgumentNameTwo)";
    let mut b = Builder::new(src);
    let tree = call(&mut b, "foo", &["veryLongArgumentNameOne", "veryLongArgumentNameTwo"]);
    let mut again = Builder::new(src);
    let twin = call(&mut again, "foo", &["veryLongArgumentNameOne", "veryLongArgumentNameTwo"]);
    for max in [10, 30, 100] {
        let first = print(&tree, &settings(max));
        assert_eq!(first, print(&tree, &settings(max)));
        assert_eq!(first, print(&twin, &settings(max)));
        assert_eq!(first.unwrap().into_bytes(), print(&twin, &settings(max)).unwrap().into_bytes());
    }
}

#[test]
fn the_text_ends_with_a_line_feed() {
    let src = "x";
    let mut b = Builder::new(src);
    let leaf = b.leaf("identifier", "x");
    assert_eq!(print(&leaf, &settings(100)), Ok("x\n".to_string()));
}

#[test]
fn the_text_ends_in_one_line_feed_and_not_in_two() {
    let src = "a";
    let mut b = Builder::new(src);
    let a = b.leaf("identifier", "a");
    let nothing =
        Tree { name: "identifier".to_string(), children: Vec::new(), range: b.range(1, 1), source: src };
    let program = b.node("program", vec![a, nothing]);
    assert_eq!(print(&program, &settings(100)), Ok("a\n".to_string()));

    for (src, expected) in [("x\n", "x\n"), ("x\n\n\n", "x\n"), ("\n", "\n"), ("x\n y", "x\n y\n")] {
        let b = Builder::new(src);
        let leaf =
            Tree { name: "text".to_string(), children: Vec::new(), range: b.range(0, src.len()), source: src };
        assert_eq!(print(&leaf, &settings(100)), Ok(expected.to_string()), "for {:?}", src);
    }
    let src = "";
    let b = Builder::new(src);
    let empty = Tree { name: "program".to_string(), children: Vec::new(), range: b.range(0, 0), source: src };
    assert_eq!(print(&empty, &settings(100)), Ok("\n".to_string()));
}

#[test]
fn a_blank_line_of_the_source_is_kept_at_the_root() {
    let src = "a\n\n\nb\nc";
    let mut b = Builder::new(src);
    let items = vec![b.leaf("identifier", "a"), b.leaf("identifier", "b"), b.leaf("identifier", "c")];
    let program = b.node("program", items);
    assert_eq!(print(&program, &settings(100)), Ok("a\n\nb\nc\n".to_string()));
}

#[test]
fn imports_with_scoped_names_and_a_class() {
    let src = "import a.A;\nimport b.B;\nclass C{}";
    let mut b = Builder::new(src);
    let mut imports = Vec::new();
    for (package, name) in [("a", "A"), ("b", "B")] {
        let keyword = b.token("import");
        let scope = b.leaf("identifier", package);
        let dot = b.token(".");
        let identifier = b.leaf("identifier", name);
        let scoped = b.node("scoped_identifier", vec![scope, dot, identifier]);
        let semicolon = b.token(";");
        imports.push(b.node("import_declaration", vec![keyword, scoped, semicolon]));
    }
    let class = empty_class(&mut b, "C");
    imports.push(class);
    let program = b.node("program", imports);
    let text = print(&program, &settings(100)).unwrap();
    assert_eq!(text, "import a.A;\nimport b.B;\n\nclass C { }\n");
    assert!(text.starts_with("import a.A;\nimport b.B;\n\nclass C"));
}

#[test]
fn a_block_deep_in_a_file_keeps_its_children_one_unit_deeper_than_its_braces() {
    let src = "class A{void run(){foo(firstArgument,secondArgument);bar();}}";
    let mut b = Builder::new(src);
    let keyword = b.token("class");
    let identifier = b.leaf("identifier", "A");
    let open = b.token("{");
    let run = method(&mut b, "run", &[("foo", &["firstArgument", "secondArgument"]), ("bar", &[])]);
    let close = b.token("}");
    let body = b.node("class_body", vec![open, run, close]);
    let class = b.node("class_declaration", vec![keyword, identifier, body]);
    let program = b.node("program", vec![class]);
    for (indent_size, max) in [(4, 100), (4, 30), (2, 100), (3, 20)] {
        let arguments = PrettyPrintParameters { indent_size, max_line_length: max };
        let text = print(&program, &arguments).unwrap();
        let leading = |line: &str| line.len() - line.trim_start_matches(' ').len();
        let lines: Vec<&str> = text.lines().collect();
        let class_line = lines.iter().position(|l| l.starts_with("class A {")).unwrap();
        let method_line = lines.iter().position(|l| l.trim_start().starts_with("void run() {")).unwrap();
        let foo_line = lines.iter().position(|l| l.trim_start().starts_with("foo(")).unwrap();
        let bar_line = lines.iter().position(|l| l.trim_start().starts_with("bar(")).unwrap();
        assert_eq!(leading(lines[class_line]), 0);
        assert_eq!(leading(lines[method_line]), indent_size);
        assert_eq!(leading(lines[foo_line]), 2 * indent_size);
        assert_eq!(leading(lines[bar_line]), 2 * indent_size);
        assert_eq!(leading(lines[bar_line + 1]), indent_size);
        assert_eq!(lines[bar_line + 1].trim_start(), "}");
        assert_eq!(*lines.last().unwrap(), "}");
    }
}
