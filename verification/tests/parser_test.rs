use properties::iterator::Iterator;
use properties::parser;
use properties::{Properties, PropertyData, PropertyType, PropertyValue};

#[test]
fn cursor_peek_and_advance() {
    let mut it = Iterator::new(&String::from("abc"));
    assert_eq!(it.peek(), Some('a'));
    assert_eq!(it.peek_x(2), Some('c'));
    assert_eq!(it.peek_x(3), None);
    assert_eq!(it.next(), Some('a'));
    assert_eq!(it.position, 1);
    assert_eq!(it.next_x(2), Some('b'));
    assert_eq!(it.position, 3);
    assert_eq!(it.next(), None);
    assert_eq!(it.get(1), Some('b'));
    assert_eq!(it.get(9), None);
    assert_eq!(it.get_range(1, 3), "bc");
}

#[test]
fn cursor_advance_stops_at_end() {
    let mut it = Iterator::new(&String::from("ab"));
    assert_eq!(it.next_x(10), Some('a'));
    assert_eq!(it.position, 2);
    assert_eq!(it.peek(), None);
}

#[test]
fn char_classes() {
    assert!(parser::is_comment_indicator('#'));
    assert!(parser::is_comment_indicator('!'));
    assert!(!parser::is_comment_indicator('a'));
    assert!(parser::is_eol('\n'));
    assert!(parser::is_eol('\r'));
    assert!(!parser::is_eol('\t'));
    assert!(parser::is_whitespace('\u{2003}'));
    assert!(!parser::is_whitespace('x'));
    assert!(parser::starts_escaped_value('\\'));
    assert!(parser::starts_separator('='));
    assert!(parser::starts_separator(':'));
    assert!(parser::starts_separator(' '));
    assert!(!parser::starts_separator('k'));
}

#[test]
fn read_whitespace_consumes_maximal_run() {
    let mut it = Iterator::new(&String::from("  \t x"));
    let node = parser::read_whitespace(&mut it);
    assert_eq!(it.position, 4);
    assert_eq!(node.type_, PropertyType::Whitespace);
}

#[test]
fn read_comment_stops_at_line_end() {
    let mut it = Iterator::new(&String::from("# note\nrest"));
    let node = parser::read_comment(&mut it);
    assert_eq!(it.position, 6);
    assert_eq!(node.type_, PropertyType::Comment);
}

#[test]
fn read_escaped_value_lengths() {
    let mut it = Iterator::new(&String::from("\\n"));
    let node = parser::read_escaped_value(&mut it);
    assert_eq!(it.position, 2);
    assert_eq!(node.type_, PropertyType::EscapedValue);

    let mut it = Iterator::new(&String::from("\\u0041x"));
    parser::read_escaped_value(&mut it);
    assert_eq!(it.position, 6);
}

#[test]
fn read_property_splits_key_separator_value() {
    let mut it = Iterator::new(&String::from("key = value\nrest"));
    let node = parser::read_property(&mut it);
    assert_eq!(it.position, 11);
    assert_eq!(node.type_, PropertyType::Property);
    let children = node.children.as_ref().unwrap();
    assert_eq!(children.len(), 3);
    assert_eq!(children[0].type_, PropertyType::Key);
    assert_eq!(children[1].type_, PropertyType::Separator);
    assert_eq!(children[2].type_, PropertyType::Value);
}

#[test]
fn read_key_collects_escape_children() {
    let mut it = Iterator::new(&String::from("a\\ b=1"));
    let node = parser::read_key(&mut it);
    assert_eq!(it.position, 4);
    assert_eq!(node.children.as_ref().unwrap().len(), 1);
}

#[test]
fn read_value_collects_line_break_children() {
    let mut it = Iterator::new(&String::from("one \\\n  two\nnext"));
    let node = parser::read_value(&mut it);
    assert_eq!(it.position, 11);
    let children = node.children.as_ref().unwrap();
    assert_eq!(children.len(), 1);
    assert_eq!(children[0].type_, PropertyType::LineBreak);
}

#[test]
fn starts_line_break_peeks_two_characters() {
    let mut it = Iterator::new(&String::from("\\\nx"));
    assert!(parser::starts_line_break(&mut it));
    let mut it = Iterator::new(&String::from("\\nx"));
    assert!(!parser::starts_line_break(&mut it));
}

#[test]
fn newline_value_detection() {
    assert!(!Properties::is_newline_value(None));

    let blank_line = PropertyValue {
        data: PropertyData::Text(String::from(" \n ")),
        children: None,
        type_: PropertyType::Raw,
    };
    assert!(Properties::is_newline_value(Some(&blank_line)));

    let content_line = PropertyValue {
        data: PropertyData::Text(String::from("x\n")),
        children: None,
        type_: PropertyType::Raw,
    };
    assert!(!Properties::is_newline_value(Some(&content_line)));
}
