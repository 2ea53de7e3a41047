//! The layout rule table and the two decisions taken between siblings.
//!
//! The table is data: sets of construct names, one set for each role. The
//! engine reads it and never changes it. Before a child is emitted,
//! `pre_visit` decides what stands in front of it; after it, `post_visit`
//! decides whether a blank line follows.

use crate::text::{ends_with, str_eq};
use vstd::prelude::*;
use vstd::string::*;

verus! {

/// A language that there is a layout rule table for.
#[derive(Debug, Clone, Copy, PartialEq, Eq, Hash, Structural)]
pub enum Language {
    Java,
}

/// The layout rule table.
///
/// Each set is a vector of names and `contains` compares characters: vstd
/// specifies a hash set only for keys whose hashing it models, and strings
/// are not among them. The model of the table holds sets.
#[derive(Debug)]
pub struct FormatConfig {
    /// Containers whose children stand on lines of their own, indented.
    pub block_elements: Vec<&'static str>,
    /// Parents whose children are always separated by a space.
    pub unconditional_space: Vec<&'static str>,
    /// Parents whose children are separated by a space unless a neighbour
    /// forbids it.
    pub spaced_nodes: Vec<&'static str>,
    /// Constructs that a blank line follows.
    pub newline_after: Vec<&'static str>,
    /// Constructs that a blank line follows unless a closing brace comes next.
    pub conditional_newline_after: Vec<&'static str>,
    /// Tokens that no space stands before.
    pub no_space_before: Vec<&'static str>,
    /// Parents whose children may each get a line of their own.
    pub wrap_list: Vec<&'static str>,
    /// Tokens that no space stands after.
    pub no_space_after: Vec<&'static str>,
    /// Tokens that a breakable point always stands before.
    pub add_wrap_before: Vec<&'static str>,
    /// Tokens that open a delimiter scope.
    pub stack_pushers: Vec<&'static str>,
    /// Tokens that close a delimiter scope.
    pub stack_poppers: Vec<&'static str>,
}

/// The model of the layout rule table: a set of names for each role.
pub ghost struct Rules {
    pub block_elements: Set<Seq<char>>,
    pub unconditional_space: Set<Seq<char>>,
    pub spaced_nodes: Set<Seq<char>>,
    pub newline_after: Set<Seq<char>>,
    pub conditional_newline_after: Set<Seq<char>>,
    pub no_space_before: Set<Seq<char>>,
    pub wrap_list: Set<Seq<char>>,
    pub no_space_after: Set<Seq<char>>,
    pub add_wrap_before: Set<Seq<char>>,
    pub stack_pushers: Set<Seq<char>>,
    pub stack_poppers: Set<Seq<char>>,
}

/// The set of the names in `v`.
pub open spec fn names(v: Seq<&'static str>) -> Set<Seq<char>> {
    Set::new(|n: Seq<char>| exists|i: int| 0 <= i < v.len() && (#[trigger] v[i])@ == n)
}

impl View for FormatConfig {
    type V = Rules;

    open spec fn view(&self) -> Rules {
        Rules {
            block_elements: names(self.block_elements@),
            unconditional_space: names(self.unconditional_space@),
            spaced_nodes: names(self.spaced_nodes@),
            newline_after: names(self.newline_after@),
            conditional_newline_after: names(self.conditional_newline_after@),
            no_space_before: names(self.no_space_before@),
            wrap_list: names(self.wrap_list@),
            no_space_after: names(self.no_space_after@),
            add_wrap_before: names(self.add_wrap_before@),
            stack_pushers: names(self.stack_pushers@),
            stack_poppers: names(self.stack_poppers@),
        }
    }
}

/// Whether `name` is one of `set`.
pub fn contains(set: &Vec<&'static str>, name: &str) -> (r: bool)
    ensures
        r == names(set@).contains(name@),
{
    let mut i: usize = 0;
    while i < set.len()
        invariant
            i <= set@.len(),
            forall|j: int| 0 <= j < i ==> (#[trigger] set@[j])@ != name@,
        decreases set@.len() - i,
    {
        if str_eq(set[i], name) {
            return true;
        }
        i = i + 1;
    }
    false
}

/// The names of the block containers of Java.
pub open spec fn java_block_elements() -> Seq<&'static str> {
    seq!["class_body", "enum_body", "interface_body", "block", "constructor_body"]
}

/// The names of the parents of Java whose children are always spaced.
pub open spec fn java_unconditional_space() -> Seq<&'static str> {
    seq![
        "assignment_expression",
        "binary_expression",
        "ternary_expression",
        "instanceof_expression",
        "lambda_expression",
    ]
}

/// The names of the parents of Java whose children are spaced unless a
/// neighbour forbids it.
pub open spec fn java_spaced_nodes() -> Seq<&'static str> {
    seq![
        "class_declaration",
        "enum_declaration",
        "record_declaration",
        "constructor_declaration",
        "static_initializer",
        "method_declaration",
        "formal_parameter",
        "return_statement",
        "throw_statement",
        "object_creation_expression",
        "field_declaration",
        "local_variable_declaration",
        "variable_declarator",
        "package_declaration",
        "import_declaration",
        "interface_declaration",
        "modifiers",
        "throws",
        "if_statement",
        "try_statement",
        "for_statement",
        "do_statement",
        "while_statement",
        "finally_clause",
        "catch_formal_parameter",
        "resource",
        "resource_specification",
        "element_value_pair",
        "try_with_resources_statement",
        "type_parameters",
        "type_arguments",
        "inferred_parameters",
        "formal_parameters",
        "annotation_argument_list",
        "element_value_array_initializer",
        "catch_clause",
        "enhanced_for_statement",
        "super_interfaces",
        "implements",
    ]
}

/// The constructs of Java that a blank line follows.
pub open spec fn java_newline_after() -> Seq<&'static str> {
    seq![
        "if_statement",
        "try_statement",
        "for_statement",
        "do_statement",
        "while_statement",
        "package_declaration",
    ]
}

/// The constructs of Java that a blank line follows unless a closing brace
/// comes next.
pub open spec fn java_conditional_newline_after() -> Seq<&'static str> {
    seq!["class_declaration", "enum_declaration", "record_declaration"]
}

/// The tokens of Java that no space stands before.
pub open spec fn java_no_space_before() -> Seq<&'static str> {
    seq![">", ")", ".", ",", ";", "argument_list", "formal_parameters", "catch"]
}

/// The parents of Java whose children may each get a line of their own.
pub open spec fn java_wrap_list() -> Seq<&'static str> {
    seq!["argument_list", "parenthesized_expression", "array_initializer"]
}

/// The tokens of Java that no space stands after.
pub open spec fn java_no_space_after() -> Seq<&'static str> {
    seq!["(", "<"]
}

/// The tokens of Java that a breakable point always stands before.
pub open spec fn java_add_wrap_before() -> Seq<&'static str> {
    seq!["."]
}

/// The tokens of Java that open a delimiter scope.
pub open spec fn java_stack_pushers() -> Seq<&'static str> {
    seq!["(", "{"]
}

/// The tokens of Java that close a delimiter scope.
pub open spec fn java_stack_poppers() -> Seq<&'static str> {
    seq![")", "}"]
}

/// The model of the layout rule table of Java.
pub open spec fn get_spec() -> Rules {
    Rules {
        block_elements: names(java_block_elements()),
        unconditional_space: names(java_unconditional_space()),
        spaced_nodes: names(java_spaced_nodes()),
        newline_after: names(java_newline_after()),
        conditional_newline_after: names(java_conditional_newline_after()),
        no_space_before: names(java_no_space_before()),
        wrap_list: names(java_wrap_list()),
        no_space_after: names(java_no_space_after()),
        add_wrap_before: names(java_add_wrap_before()),
        stack_pushers: names(java_stack_pushers()),
        stack_poppers: names(java_stack_poppers()),
    }
}

/// The layout rule table of Java.
pub fn get() -> (config: FormatConfig)
    ensures
        config@ == get_spec(),
        config.block_elements@ == java_block_elements(),
        config.unconditional_space@ == java_unconditional_space(),
        config.spaced_nodes@ == java_spaced_nodes(),
        config.newline_after@ == java_newline_after(),
        config.conditional_newline_after@ == java_conditional_newline_after(),
        config.no_space_before@ == java_no_space_before(),
        config.wrap_list@ == java_wrap_list(),
        config.no_space_after@ == java_no_space_after(),
        config.add_wrap_before@ == java_add_wrap_before(),
        config.stack_pushers@ == java_stack_pushers(),
        config.stack_poppers@ == java_stack_poppers(),
{
    let config = FormatConfig {
        block_elements: vec![
            "class_body",
            "enum_body",
            "interface_body",
            "block",
            "constructor_body",
        ],
        unconditional_space: vec![
            "assignment_expression",
            "binary_expression",
            "ternary_expression",
            "instanceof_expression",
            "lambda_expression",
        ],
        spaced_nodes: vec![
            "class_declaration",
            "enum_declaration",
            "record_declaration",
            "constructor_declaration",
            "static_initializer",
            "method_declaration",
            "formal_parameter",
            "return_statement",
            "throw_statement",
            "object_creation_expression",
            "field_declaration",
            "local_variable_declaration",
            "variable_declarator",
            "package_declaration",
            "import_declaration",
            "interface_declaration",
            "modifiers",
            "throws",
            "if_statement",
            "try_statement",
            "for_statement",
            "do_statement",
            "while_statement",
            "finally_clause",
            "catch_formal_parameter",
            "resource",
            "resource_specification",
            "element_value_pair",
            "try_with_resources_statement",
            "type_parameters",
            "type_arguments",
            "inferred_parameters",
            "formal_parameters",
            "annotation_argument_list",
            "element_value_array_initializer",
            "catch_clause",
            "enhanced_for_statement",
            "super_interfaces",
            "implements",
        ],
        newline_after: vec![
            "if_statement",
            "try_statement",
            "for_statement",
            "do_statement",
            "while_statement",
            "package_declaration",
        ],
        conditional_newline_after: vec![
            "class_declaration",
            "enum_declaration",
            "record_declaration",
        ],
        no_space_before: vec![
            ">",
            ")",
            ".",
            ",",
            ";",
            "argument_list",
            "formal_parameters",
            "catch",
        ],
        wrap_list: vec!["argument_list", "parenthesized_expression", "array_initializer"],
        no_space_after: vec!["(", "<"],
        add_wrap_before: vec!["."],
        stack_pushers: vec!["(", "{"],
        stack_poppers: vec![")", "}"],
    };
    proof {
        assert(config.block_elements@ =~= java_block_elements());
        assert(config.unconditional_space@ =~= java_unconditional_space());
        assert(config.spaced_nodes@ =~= java_spaced_nodes());
        assert(config.newline_after@ =~= java_newline_after());
        assert(config.conditional_newline_after@ =~= java_conditional_newline_after());
        assert(config.no_space_before@ =~= java_no_space_before());
        assert(config.wrap_list@ =~= java_wrap_list());
        assert(config.no_space_after@ =~= java_no_space_after());
        assert(config.add_wrap_before@ =~= java_add_wrap_before());
        assert(config.stack_pushers@ =~= java_stack_pushers());
        assert(config.stack_poppers@ =~= java_stack_poppers());
    }
    config
}

/// In the table of Java the braces open and close a delimiter scope, no
/// breakable point is forced before a closing brace, and a block is a block
/// container and no wrap list.
pub proof fn lemma_java_braces()
    ensures
        get_spec().stack_pushers.contains("{"@),
        get_spec().stack_poppers.contains("}"@),
        !get_spec().add_wrap_before.contains("}"@),
        get_spec().block_elements.contains("block"@),
        !get_spec().wrap_list.contains("block"@),
        "block"@ != "program"@,
{
    reveal_strlit("{");
    reveal_strlit("}");
    reveal_strlit(".");
    reveal_strlit("block");
    reveal_strlit("program");
    reveal_strlit("argument_list");
    reveal_strlit("parenthesized_expression");
    reveal_strlit("array_initializer");
    assert(java_stack_pushers()[1]@ == "{"@);
    assert(java_stack_poppers()[1]@ == "}"@);
    assert(java_block_elements()[3]@ == "block"@);
    assert("."@.len() == 1 && "}"@.len() == 1 && "."@[0] != "}"@[0]);
    assert("block"@.len() == 5);
    assert("program"@.len() == 7);
    assert("argument_list"@.len() == 13);
    assert("parenthesized_expression"@.len() == 24);
    assert("array_initializer"@.len() == 17);
}

impl FormatConfig {
    /// The layout rule table of `language`.
    pub fn of(language: Language) -> (config: FormatConfig)
        ensures
            config@ == rules_of(language),
    {
        match language {
            Language::Java => get(),
        }
    }
}

/// The model of the layout rule table of `language`.
pub open spec fn rules_of(language: Language) -> Rules {
    match language {
        Language::Java => get_spec(),
    }
}

/// What stands between two siblings.
#[derive(Debug, Clone, Copy, PartialEq, Eq, Structural)]
pub struct FormatArguments {
    /// A space.
    pub space: bool,
    /// A line break.
    pub newline: bool,
    /// A blank line. It outranks `newline`.
    pub double_newline: bool,
    /// The child is indented; with `wrap`, the wrap indents when it breaks.
    pub indent: bool,
    /// A wrap group opens before the child.
    pub wrap: bool,
    /// The wrap group that opens does not report a break inside it.
    pub child_wrap_prevents_wrap: bool,
}

impl FormatArguments {
    /// Nothing between the two siblings.
    pub open spec fn none() -> FormatArguments {
        FormatArguments {
            space: false,
            newline: false,
            double_newline: false,
            indent: false,
            wrap: false,
            child_wrap_prevents_wrap: false,
        }
    }
}

impl Default for FormatArguments {
    fn default() -> (r: FormatArguments)
        ensures
            r == FormatArguments::none(),
    {
        FormatArguments {
            space: false,
            newline: false,
            double_newline: false,
            indent: false,
            wrap: false,
            child_wrap_prevents_wrap: false,
        }
    }
}

/// Whether `parent` is the root of a tree, which is named `program`, or a
/// block container.
pub open spec fn is_block(rules: Rules, parent: Seq<char>) -> bool {
    parent == "program"@ || rules.block_elements.contains(parent)
}

/// What stands before `child`, whose parent is `parent` and whose previous
/// sibling is `previous`. The first of these that applies decides, and no
/// other is looked at:
/// a breakable point always stands before `child`;
/// `parent` is a wrap-list parent;
/// `parent` is the root or a block container;
/// the children of `parent` are always spaced;
/// the children of `parent` are spaced unless a neighbour forbids it.
pub open spec fn pre_visit_spec(
    rules: Rules,
    parent: Seq<char>,
    between: FormatArguments,
    child: Seq<char>,
    previous: Seq<char>,
) -> FormatArguments {
    if rules.add_wrap_before.contains(child) {
        FormatArguments { wrap: true, indent: true, child_wrap_prevents_wrap: true, ..between }
    } else if rules.wrap_list.contains(parent) {
        let opened = if previous == "("@ || previous == "{"@ {
            FormatArguments { wrap: true, indent: true, ..between }
        } else if previous == ","@ {
            FormatArguments { wrap: true, space: true, ..between }
        } else {
            between
        };
        if child == ")"@ || child == "}"@ {
            FormatArguments { wrap: true, ..opened }
        } else {
            opened
        }
    } else if is_block(rules, parent) {
        if child == "}"@ {
            if previous == "{"@ {
                FormatArguments { space: true, ..between }
            } else {
                FormatArguments { newline: true, ..between }
            }
        } else {
            FormatArguments {
                newline: true,
                indent: parent != "program"@ || between.indent,
                ..between
            }
        }
    } else if rules.unconditional_space.contains(parent) {
        FormatArguments { space: true, ..between }
    } else if rules.spaced_nodes.contains(parent) && !rules.no_space_after.contains(previous)
        && !rules.no_space_before.contains(child) {
        FormatArguments { space: true, ..between }
    } else {
        between
    }
}

/// Decides what stands before `child`.
pub fn pre_visit(
    config: &FormatConfig,
    parent: &str,
    between: &mut FormatArguments,
    child: &str,
    previous: &str,
)
    ensures
        *final(between) == pre_visit_spec(config@, parent@, *old(between), child@, previous@),
{
    if contains(&config.add_wrap_before, child) {
        between.wrap = true;
        between.indent = true;
        between.child_wrap_prevents_wrap = true;
    } else if contains(&config.wrap_list, parent) {
        if str_eq(previous, "(") || str_eq(previous, "{") {
            between.wrap = true;
            between.indent = true;
        } else if str_eq(previous, ",") {
            between.wrap = true;
            between.space = true;
        }
        if str_eq(child, ")") || str_eq(child, "}") {
            between.wrap = true;
        }
    } else if str_eq(parent, "program") || contains(&config.block_elements, parent) {
        if str_eq(child, "}") {
            if str_eq(previous, "{") {
                between.space = true;
            } else {
                between.newline = true;
            }
        } else {
            between.newline = true;
            if !str_eq(parent, "program") {
                between.indent = true;
            }
        }
    } else if contains(&config.unconditional_space, parent) {
        between.space = true;
    } else if contains(&config.spaced_nodes, parent) {
        if !contains(&config.no_space_after, previous) && !contains(
            &config.no_space_before,
            child,
        ) {
            between.space = true;
        }
    }
}

/// Whether a blank line follows `child`, whose parent is `parent` and whose
/// next sibling is `next`. `has_multiple_newlines` says that the source had
/// more than one line break between the two: a blank line of the source is
/// kept, whatever the parent is.
pub open spec fn blank_line_after(
    rules: Rules,
    parent: Seq<char>,
    child: Seq<char>,
    has_multiple_newlines: bool,
    next: Seq<char>,
) -> bool {
    ||| rules.newline_after.contains(child)
    ||| rules.conditional_newline_after.contains(child) && next != "}"@
    ||| child == "import_declaration"@ && next != "import_declaration"@
    ||| "_body"@.is_suffix_of(parent) && (child == "method_declaration"@ || child
        == "constructor_declaration"@) && next != "}"@
    ||| "_body"@.is_suffix_of(parent) && child == "field_declaration"@ && next
        != "field_declaration"@ && next != "}"@
    ||| has_multiple_newlines
}

/// What `post_visit` leaves between `child` and `next`.
pub open spec fn post_visit_spec(
    rules: Rules,
    parent: Seq<char>,
    between: FormatArguments,
    child: Seq<char>,
    has_multiple_newlines: bool,
    next: Seq<char>,
) -> FormatArguments {
    if blank_line_after(rules, parent, child, has_multiple_newlines, next) {
        FormatArguments { double_newline: true, ..between }
    } else {
        between
    }
}

/// Decides whether a blank line follows `child`.
pub fn post_visit(
    config: &FormatConfig,
    parent: &str,
    between: &mut FormatArguments,
    child: &str,
    has_multiple_newlines: bool,
    next: &str,
)
    ensures
        *final(between) == post_visit_spec(
            config@,
            parent@,
            *old(between),
            child@,
            has_multiple_newlines,
            next@,
        ),
{
    if contains(&config.newline_after, child) {
        between.double_newline = true;
    }
    if contains(&config.conditional_newline_after, child) && !str_eq(next, "}") {
        between.double_newline = true;
    }
    if str_eq(child, "import_declaration") && !str_eq(next, "import_declaration") {
        between.double_newline = true;
    }
    if ends_with(parent, "_body") {
        if str_eq(child, "method_declaration") || str_eq(child, "constructor_declaration") {
            if !str_eq(next, "}") {
                between.double_newline = true;
            }
        }
        if str_eq(child, "field_declaration") && !str_eq(next, "field_declaration") && !str_eq(
            next,
            "}",
        ) {
            between.double_newline = true;
        }
    }
    if has_multiple_newlines {
        between.double_newline = true;
    }
}

} // verus!
