use formatter::rules::{
    contains, get, post_visit, pre_visit, FormatArguments, FormatConfig, Language,
};

fn nothing() -> FormatArguments {
    FormatArguments::default()
}

fn before(parent: &str, child: &str, previous: &str) -> FormatArguments {
    let mut between = nothing();
    pre_visit(&get(), parent, &mut between, child, previous);
    between
}

fn blank_line(parent: &str, child: &str, multiple: bool, next: &str) -> bool {
    let mut between = nothing();
    post_visit(&get(), parent, &mut between, child, multiple, next);
    assert_eq!(between, FormatArguments { double_newline: between.double_newline, ..nothing() });
    between.double_newline
}

#[test]
fn default_arguments_ask_for_nothing() {
    assert_eq!(
        FormatArguments::default(),
        FormatArguments {
            space: false,
            newline: false,
            double_newline: false,
            indent: false,
            wrap: false,
            child_wrap_prevents_wrap: false,
        }
    );
}

#[test]
fn the_table_of_java_holds_its_names() {
    let config = get();
    assert_eq!(
        config.block_elements,
        vec!["class_body", "enum_body", "interface_body", "block", "constructor_body"]
    );
    assert_eq!(config.wrap_list, vec!["argument_list", "parenthesized_expression", "array_initializer"]);
    assert_eq!(config.add_wrap_before, vec!["."]);
    assert_eq!(config.stack_pushers, vec!["(", "{"]);
    assert_eq!(config.stack_poppers, vec![")", "}"]);
    assert_eq!(config.no_space_after, vec!["(", "<"]);
    assert_eq!(
        config.no_space_before,
        vec![">", ")", ".", ",", ";", "argument_list", "formal_parameters", "catch"]
    );
    assert_eq!(config.unconditional_space.len(), 5);
    assert_eq!(config.spaced_nodes.len(), 39);
    assert_eq!(config.newline_after.len(), 6);
    assert_eq!(
        config.conditional_newline_after,
        vec!["class_declaration", "enum_declaration", "record_declaration"]
    );
    assert!(contains(&config.spaced_nodes, "class_declaration"));
    assert!(contains(&config.spaced_nodes, "implements"));
    assert!(!contains(&config.spaced_nodes, "argument_list"));
    assert!(contains(&config.unconditional_space, "binary_expression"));
    assert!(contains(&config.newline_after, "package_declaration"));
}

#[test]
fn the_table_of_a_language_is_its_table() {
    let config = FormatConfig::of(Language::Java);
    let java = get();
    assert_eq!(config.block_elements, java.block_elements);
    assert_eq!(config.unconditional_space, java.unconditional_space);
    assert_eq!(config.spaced_nodes, java.spaced_nodes);
    assert_eq!(config.newline_after, java.newline_after);
    assert_eq!(config.conditional_newline_after, java.conditional_newline_after);
    assert_eq!(config.no_space_before, java.no_space_before);
    assert_eq!(config.wrap_list, java.wrap_list);
    assert_eq!(config.no_space_after, java.no_space_after);
    assert_eq!(config.add_wrap_before, java.add_wrap_before);
    assert_eq!(config.stack_pushers, java.stack_pushers);
    assert_eq!(config.stack_poppers, java.stack_poppers);
}

#[test]
fn contains_finds_a_name_of_the_set() {
    let set = vec!["a", "bc", ""];
    assert!(contains(&set, "a"));
    assert!(contains(&set, "bc"));
    assert!(contains(&set, ""));
    assert!(!contains(&set, "b"));
    assert!(!contains(&set, "abc"));
    assert!(!contains(&Vec::new(), "a"));
}

#[test]
fn a_construct_of_no_set_gets_nothing() {
    assert_eq!(before("method_invocation", "argument_list", "identifier"), nothing());
    assert_eq!(before("unknown", "x", "y"), nothing());
}

#[test]
fn a_breakable_point_stands_before_a_member_access() {
    let expected = FormatArguments {
        wrap: true,
        indent: true,
        child_wrap_prevents_wrap: true,
        ..nothing()
    };
    assert_eq!(before("field_access", ".", "identifier"), expected);
    assert_eq!(before("method_invocation", ".", "identifier"), expected);
}

#[test]
fn the_first_rule_that_applies_decides() {
    let member = FormatArguments {
        wrap: true,
        indent: true,
        child_wrap_prevents_wrap: true,
        ..nothing()
    };
    assert_eq!(before("argument_list", ".", "("), member);
    assert_eq!(before("argument_list", ".", ","), member);
    assert_eq!(before("block", ".", "{"), member);
    assert_eq!(before("program", ".", "x"), member);
    assert_eq!(before("binary_expression", ".", "x"), member);
    assert_eq!(before("class_declaration", ".", "x"), member);
}

#[test]
fn children_of_a_wrap_list_get_wrap_groups() {
    let opened = FormatArguments { wrap: true, indent: true, ..nothing() };
    let next = FormatArguments { wrap: true, space: true, ..nothing() };
    let closing = FormatArguments { wrap: true, ..nothing() };
    assert_eq!(before("argument_list", "identifier", "("), opened);
    assert_eq!(before("array_initializer", "decimal_integer_literal", "{"), opened);
    assert_eq!(before("argument_list", "identifier", ","), next);
    assert_eq!(before("argument_list", ")", "identifier"), closing);
    assert_eq!(before("array_initializer", "}", "identifier"), closing);
    assert_eq!(before("parenthesized_expression", ")", "identifier"), closing);
    assert_eq!(before("argument_list", ",", "identifier"), nothing());
    assert_eq!(before("argument_list", ")", "("), opened);
    assert_eq!(before("argument_list", ")", ","), next);
}

#[test]
fn children_of_a_block_get_lines_of_their_own() {
    let line = FormatArguments { newline: true, indent: true, ..nothing() };
    assert_eq!(before("block", "expression_statement", "{"), line);
    assert_eq!(before("class_body", "field_declaration", "field_declaration"), line);
    assert_eq!(before("constructor_body", "expression_statement", "expression_statement"), line);
    assert_eq!(before("enum_body", "enum_constant", "{"), line);
    assert_eq!(before("interface_body", "method_declaration", "{"), line);
}

#[test]
fn the_closing_brace_of_a_block_is_not_indented() {
    assert_eq!(
        before("block", "}", "expression_statement"),
        FormatArguments { newline: true, ..nothing() }
    );
    assert_eq!(before("block", "}", "{"), FormatArguments { space: true, ..nothing() });
    assert_eq!(before("class_body", "}", "{"), FormatArguments { space: true, ..nothing() });
}

#[test]
fn children_of_the_root_get_lines_but_no_indentation() {
    let line = FormatArguments { newline: true, ..nothing() };
    assert_eq!(before("program", "class_declaration", "import_declaration"), line);
    assert_eq!(before("program", "import_declaration", "package_declaration"), line);
    assert_eq!(before("program", "}", "x"), line);
    assert_eq!(before("program", "}", "{"), FormatArguments { space: true, ..nothing() });
}

#[test]
fn some_parents_always_space_their_children() {
    let space = FormatArguments { space: true, ..nothing() };
    assert_eq!(before("binary_expression", "+", "identifier"), space);
    assert_eq!(before("assignment_expression", "=", "identifier"), space);
    assert_eq!(before("ternary_expression", "?", "identifier"), space);
    assert_eq!(before("instanceof_expression", "instanceof", "identifier"), space);
    assert_eq!(before("lambda_expression", "->", "identifier"), space);
    assert_eq!(before("binary_expression", ")", "("), space);
    assert_eq!(before("binary_expression", ";", "x"), space);
}

#[test]
fn some_parents_space_their_children_unless_a_neighbour_forbids_it() {
    let space = FormatArguments { space: true, ..nothing() };
    assert_eq!(before("class_declaration", "identifier", "class"), space);
    assert_eq!(before("class_declaration", "class_body", "identifier"), space);
    assert_eq!(before("local_variable_declaration", "variable_declarator", "integral_type"), space);
    assert_eq!(before("local_variable_declaration", ";", "variable_declarator"), nothing());
    assert_eq!(before("method_declaration", "formal_parameters", "identifier"), nothing());
    assert_eq!(before("if_statement", "parenthesized_expression", "if"), space);
    assert_eq!(before("formal_parameters", "formal_parameter", "("), nothing());
    assert_eq!(before("formal_parameters", ")", "formal_parameter"), nothing());
    assert_eq!(before("formal_parameters", ",", "formal_parameter"), nothing());
    assert_eq!(before("formal_parameters", "formal_parameter", ","), space);
    assert_eq!(before("type_arguments", "type_identifier", "<"), nothing());
    assert_eq!(before("type_arguments", ">", "type_identifier"), nothing());
    assert_eq!(before("catch_clause", "catch", "x"), nothing());
    assert_eq!(before("import_declaration", ".", "x").space, false);
}

#[test]
fn pre_visit_keeps_a_blank_line_that_was_asked_for() {
    let mut between = FormatArguments { double_newline: true, ..nothing() };
    pre_visit(&get(), "block", &mut between, "if_statement", "if_statement");
    assert_eq!(
        between,
        FormatArguments { double_newline: true, newline: true, indent: true, ..nothing() }
    );
    let mut between = FormatArguments { double_newline: true, ..nothing() };
    pre_visit(&get(), "unknown", &mut between, "x", "y");
    assert_eq!(between, FormatArguments { double_newline: true, ..nothing() });
}

#[test]
fn a_blank_line_follows_some_statements() {
    for statement in [
        "if_statement",
        "try_statement",
        "for_statement",
        "do_statement",
        "while_statement",
        "package_declaration",
    ] {
        assert!(blank_line("block", statement, false, "expression_statement"));
        assert!(blank_line("block", statement, false, "}"));
        assert!(blank_line("program", statement, false, "x"));
    }
    assert!(!blank_line("block", "expression_statement", false, "expression_statement"));
    assert!(!blank_line("block", "return_statement", false, "}"));
}

#[test]
fn a_blank_line_follows_a_declaration_unless_the_brace_closes() {
    for declaration in ["class_declaration", "enum_declaration", "record_declaration"] {
        assert!(blank_line("program", declaration, false, "class_declaration"));
        assert!(blank_line("class_body", declaration, false, "field_declaration"));
        assert!(!blank_line("class_body", declaration, false, "}"));
    }
    assert!(!blank_line("program", "interface_declaration", false, "class_declaration"));
}

#[test]
fn a_blank_line_follows_the_last_import() {
    assert!(!blank_line("program", "import_declaration", false, "import_declaration"));
    assert!(blank_line("program", "import_declaration", false, "class_declaration"));
    assert!(blank_line("program", "import_declaration", false, "}"));
}

#[test]
fn a_blank_line_follows_a_method_inside_a_body() {
    for method in ["method_declaration", "constructor_declaration"] {
        assert!(blank_line("class_body", method, false, "method_declaration"));
        assert!(blank_line("enum_body", method, false, "field_declaration"));
        assert!(blank_line("anything_body", method, false, "x"));
        assert!(!blank_line("class_body", method, false, "}"));
        assert!(!blank_line("block", method, false, "method_declaration"));
        assert!(!blank_line("class_body_", method, false, "method_declaration"));
    }
}

#[test]
fn a_blank_line_follows_the_last_field_inside_a_body() {
    assert!(blank_line("class_body", "field_declaration", false, "method_declaration"));
    assert!(!blank_line("class_body", "field_declaration", false, "field_declaration"));
    assert!(!blank_line("class_body", "field_declaration", false, "}"));
    assert!(!blank_line("block", "field_declaration", false, "method_declaration"));
}

#[test]
fn a_blank_line_of_the_source_is_kept_between_any_two_siblings() {
    assert!(blank_line("block", "expression_statement", true, "expression_statement"));
    assert!(blank_line("class_body", "field_declaration", true, "field_declaration"));
    assert!(blank_line("block", "expression_statement", true, "}"));
    assert!(blank_line("program", "identifier", true, "identifier"));
    assert!(blank_line("program", "import_declaration", true, "import_declaration"));
    assert!(blank_line("argument_list", "x", true, "y"));
    assert!(blank_line("unknown", "x", true, "y"));
}

#[test]
fn no_blank_line_is_made_up() {
    assert!(!blank_line("block", "expression_statement", false, "expression_statement"));
    assert!(!blank_line("program", "identifier", false, "identifier"));
    assert!(!blank_line("argument_list", "x", false, "y"));
    assert!(!blank_line("unknown", "x", false, "y"));
}

#[test]
fn post_visit_keeps_what_was_asked_for() {
    let mut between = FormatArguments { space: true, ..nothing() };
    post_visit(&get(), "block", &mut between, "x", false, "y");
    assert_eq!(between, FormatArguments { space: true, ..nothing() });
    post_visit(&get(), "block", &mut between, "x", true, "y");
    assert_eq!(between, FormatArguments { space: true, double_newline: true, ..nothing() });
}
