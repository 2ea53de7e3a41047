use formatter::tree::{Point, Range, Tree};

fn range(start_byte: usize, end_byte: usize) -> Range {
    Range {
        start_byte,
        end_byte,
        start_point: Point { row: 0, column: start_byte },
        end_point: Point { row: 0, column: end_byte },
    }
}

fn leaf<'a>(source: &'a str, name: &str, start_byte: usize, end_byte: usize) -> Tree<'a> {
    Tree { name: name.to_string(), children: Vec::new(), range: range(start_byte, end_byte), source }
}

#[test]
fn a_node_gives_back_what_it_holds() {
    let source = "int x;";
    let kind = leaf(source, "integral_type", 0, 3);
    let name = leaf(source, "identifier", 4, 5);
    let end = leaf(source, ";", 5, 6);
    let tree = Tree {
        name: "local_variable_declaration".to_string(),
        children: vec![kind, name, end],
        range: range(0, 6),
        source,
    };
    assert_eq!(tree.name(), "local_variable_declaration");
    assert_eq!(tree.children().len(), 3);
    assert_eq!(tree.children()[0].name(), "integral_type");
    assert_eq!(tree.children()[2].name(), ";");
    assert_eq!(*tree.range(), range(0, 6));
    assert_eq!(tree.range().end_point, Point { row: 0, column: 6 });
    assert!(tree.is_well_formed());
    assert_eq!(tree.text(), "int x;");
    assert_eq!(tree.children()[0].text(), "int");
    assert_eq!(tree.children()[1].text(), "x");
    assert_eq!(tree.children()[2].text(), ";");
}

#[test]
fn text_is_the_slice_of_the_source() {
    let source = "a \u{e9}\u{4e16} b";
    assert_eq!(leaf(source, "x", 0, source.len()).text(), source);
    assert_eq!(leaf(source, "x", 2, 4).text(), "\u{e9}");
    assert_eq!(leaf(source, "x", 2, 7).text(), "\u{e9}\u{4e16}");
    assert_eq!(leaf(source, "x", 4, 7).text(), "\u{4e16}");
    assert_eq!(leaf(source, "x", 3 + 4, 3 + 4).text(), "");
    assert_eq!(leaf(source, "x", 0, 0).text(), "");
    assert_eq!(leaf(source, "x", source.len(), source.len()).text(), "");
}

#[test]
fn a_range_fits_when_it_is_a_slice_of_the_source() {
    let source = "a\u{e9}b";
    assert!(range(0, 0).fits(source));
    assert!(range(0, 4).fits(source));
    assert!(range(1, 3).fits(source));
    assert!(range(4, 4).fits(source));
    assert!(!range(0, 5).fits(source));
    assert!(!range(5, 5).fits(source));
    assert!(!range(3, 1).fits(source));
    assert!(!range(0, 2).fits(source));
    assert!(!range(2, 3).fits(source));
    assert!(!range(2, 2).fits(source));
}

#[test]
fn a_tree_is_well_formed_when_every_range_fits() {
    let source = "a\u{e9}b";
    let good = Tree {
        name: "pair".to_string(),
        children: vec![leaf(source, "a", 0, 1), leaf(source, "b", 3, 4)],
        range: range(0, 4),
        source,
    };
    assert!(good.is_well_formed());
    let bad_child = Tree {
        name: "pair".to_string(),
        children: vec![leaf(source, "a", 0, 1), leaf(source, "b", 2, 4)],
        range: range(0, 4),
        source,
    };
    assert!(!bad_child.is_well_formed());
    let bad_root = Tree {
        name: "pair".to_string(),
        children: vec![leaf(source, "a", 0, 1)],
        range: range(0, 9),
        source,
    };
    assert!(!bad_root.is_well_formed());
    let deep = Tree {
        name: "outer".to_string(),
        children: vec![bad_child],
        range: range(0, 4),
        source,
    };
    assert!(!deep.is_well_formed());
}
