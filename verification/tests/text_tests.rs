use formatter::text::{
    byte_len, ends_with, exceeds_width, indent, indent_unit, is_white_space, split_lines, str_eq,
    trim_end_line_feeds,
};

const SAMPLES: [&str; 24] = [
    "",
    "a",
    "\n",
    "\r",
    "\r\n",
    "a\n",
    "a\nb",
    "a\n\nb",
    "a\n\n",
    "\n\n",
    "a\r\nb",
    "a\r\n",
    "a\r",
    "a\rb\n",
    "a\r\r\nb",
    "\r\r\n",
    "foo\nbar\n\r\nbaz\r",
    "    indented\n\tline\n",
    "ends with space \n",
    "h\u{e9}llo\nw\u{f6}rld",
    "\u{4e16}\u{754c}\n\u{1f600}",
    "\n\r\n\r",
    "a\n\rb",
    "one line and no end",
];

#[test]
fn split_lines_gives_the_lines_that_std_gives() {
    for sample in SAMPLES {
        let expected: Vec<String> = sample.lines().map(|line| line.to_string()).collect();
        assert_eq!(split_lines(sample), expected, "for {:?}", sample);
    }
}

#[test]
fn split_lines_of_named_texts() {
    assert_eq!(split_lines(""), Vec::<String>::new());
    assert_eq!(split_lines("\n"), vec!["".to_string()]);
    assert_eq!(split_lines("a\n\nb"), vec!["a".to_string(), "".to_string(), "b".to_string()]);
    assert_eq!(
        split_lines("foo\nbar\n\r\nbaz\r"),
        vec!["foo".to_string(), "bar".to_string(), "".to_string(), "baz\r".to_string()]
    );
}

#[test]
fn indent_puts_the_unit_before_each_line() {
    assert_eq!(indent("a", "    "), "    a");
    assert_eq!(indent("a\nb", "    "), "    a\n    b");
    assert_eq!(indent("a\nb", "  "), "  a\n  b");
    assert_eq!(indent("a\n\nb", "    "), "    a\n    \n    b");
}

#[test]
fn indent_drops_the_line_feed_at_the_end() {
    assert_eq!(indent("a\n", "    "), "    a");
    assert_eq!(indent("\n", "    "), "    ");
    assert_eq!(indent("", "    "), "");
}

#[test]
fn indent_is_what_std_gives_line_by_line() {
    for sample in SAMPLES {
        let expected =
            sample.lines().map(|line| "   ".to_owned() + line).collect::<Vec<String>>().join("\n");
        assert_eq!(indent(sample, "   "), expected, "for {:?}", sample);
    }
}

#[test]
fn indent_unit_is_that_many_spaces() {
    assert_eq!(indent_unit(0), "");
    assert_eq!(indent_unit(1), " ");
    assert_eq!(indent_unit(4), "    ");
    assert_eq!(indent_unit(8), " ".repeat(8));
}

#[test]
fn width_is_counted_in_bytes() {
    assert_eq!(byte_len(""), 0);
    assert_eq!(byte_len("abc"), 3);
    assert_eq!(byte_len("h\u{e9}"), 3);
    assert_eq!(byte_len("\u{4e16}\u{754c}"), 6);
    assert_eq!(byte_len("\u{1f600}"), 4);
}

#[test]
fn exceeds_width_looks_at_each_line() {
    assert!(!exceeds_width("", 0));
    assert!(!exceeds_width("abc", 3));
    assert!(exceeds_width("abc", 2));
    assert!(exceeds_width("a\nbcd\ne", 2));
    assert!(!exceeds_width("ab\ncd\nef", 2));
    assert!(!exceeds_width("ab\r\ncd", 2));
    assert!(exceeds_width("ab\r", 2));
    assert!(exceeds_width("h\u{e9}", 2));
    assert!(!exceeds_width("h\u{e9}", 3));
}

#[test]
fn exceeds_width_is_what_std_gives() {
    for sample in SAMPLES {
        for max in 0..12 {
            let expected = sample.lines().any(|line| line.len() > max);
            assert_eq!(exceeds_width(sample, max), expected, "for {:?} and {}", sample, max);
        }
    }
}

#[test]
fn str_eq_compares_the_characters() {
    assert!(str_eq("", ""));
    assert!(str_eq("abc", "abc"));
    assert!(!str_eq("abc", "abd"));
    assert!(!str_eq("abc", "ab"));
    assert!(!str_eq("", "a"));
    assert!(str_eq("h\u{e9}", "h\u{e9}"));
    assert!(!str_eq("h\u{e9}", "h\u{e8}"));
    for first in SAMPLES {
        for second in SAMPLES {
            assert_eq!(str_eq(first, second), first == second);
        }
    }
}

#[test]
fn ends_with_compares_the_end() {
    assert!(ends_with("class_body", "_body"));
    assert!(ends_with("_body", "_body"));
    assert!(!ends_with("body", "_body"));
    assert!(!ends_with("class_body_", "_body"));
    assert!(ends_with("anything", ""));
    assert!(ends_with("", ""));
    assert!(!ends_with("", "a"));
    assert!(ends_with("h\u{e9}llo", "\u{e9}llo"));
    for first in SAMPLES {
        for second in SAMPLES {
            assert_eq!(ends_with(first, second), first.ends_with(second));
        }
    }
}

#[test]
fn is_white_space_is_what_std_says_of_every_character() {
    for code in 0..=0x10FFFFu32 {
        if let Some(c) = char::from_u32(code) {
            assert_eq!(is_white_space(c), c.is_whitespace(), "for U+{:04X}", code);
        }
    }
}

#[test]
fn line_feeds_are_taken_from_the_end_only() {
    assert_eq!(trim_end_line_feeds(""), "");
    assert_eq!(trim_end_line_feeds("\n"), "");
    assert_eq!(trim_end_line_feeds("\n\n\n"), "");
    assert_eq!(trim_end_line_feeds("a"), "a");
    assert_eq!(trim_end_line_feeds("a\n"), "a");
    assert_eq!(trim_end_line_feeds("a\n\n"), "a");
    assert_eq!(trim_end_line_feeds("\na\n"), "\na");
    assert_eq!(trim_end_line_feeds("a\nb"), "a\nb");
    assert_eq!(trim_end_line_feeds("a\r\n"), "a\r");
    assert_eq!(trim_end_line_feeds("a \n"), "a ");
    assert_eq!(trim_end_line_feeds("h\u{e9}\n\n"), "h\u{e9}");
    for sample in SAMPLES {
        assert_eq!(trim_end_line_feeds(sample), sample.trim_end_matches('\n'));
    }
}
