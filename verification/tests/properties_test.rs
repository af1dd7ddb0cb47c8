use properties::utils::{escape_key, escape_value};
use properties::Properties;

// --- parsing and lookup ---

#[test]
fn parse_language() {
    let props = Properties::new_str(&String::from("language=English"));
    assert_eq!(props.get("language"), Some(&String::from("English")));
}

#[test]
fn escaped_key_spaces() {
    let props = Properties::new_str(&String::from("key\\ with\\ spaces=value"));
    assert_eq!(props.get("key with spaces"), Some(&String::from("value")));
}

#[test]
fn continuation_absorbed() {
    let props = Properties::new_str(&String::from("message=Welcome to \\\n  Wikipedia!"));
    assert_eq!(props.get("message"), Some(&String::from("Welcome to Wikipedia!")));
}

#[test]
fn continuation_lone_carriage_return() {
    let props = Properties::new_str(&String::from("a=one\\\rtwo"));
    assert_eq!(props.get("a"), Some(&String::from("onetwo")));
}

#[test]
fn continuation_crlf_terminator() {
    let props = Properties::new_str(&String::from("a=one\\\r\n  two"));
    assert_eq!(props.get("a"), Some(&String::from("onetwo")));
}

#[test]
fn continuation_cr_then_cr_ends_value() {
    let props = Properties::new_str(&String::from("a=x\\\r\rb=2"));
    assert_eq!(props.get("a"), Some(&String::from("x")));
    assert_eq!(props.get("b"), Some(&String::from("2")));
}

#[test]
fn unicode_escape() {
    let props = Properties::new_str(&String::from("a=\\u0041"));
    assert_eq!(props.get("a"), Some(&String::from("A")));
}

#[test]
fn colon_separator_and_spacing() {
    let props = Properties::new_str(&String::from("host : example\nport= 8080"));
    assert_eq!(props.get("host"), Some(&String::from("example")));
    assert_eq!(props.get("port"), Some(&String::from("8080")));
}

#[test]
fn missing_key_not_found() {
    let props = Properties::new_str(&String::from("a=1"));
    assert_eq!(props.get("b"), None);
}

#[test]
fn escape_letters_decode() {
    let props = Properties::new_str(&String::from("a=x\\ty\\nz"));
    assert_eq!(props.get("a"), Some(&String::from("x\ty\nz")));
}

#[test]
fn invalid_hex_decodes_to_zero() {
    let props = Properties::new_str(&String::from("a=\\u00zz"));
    assert_eq!(props.get("a"), Some(&String::from("\u{0}")));
}

#[test]
fn surrogate_decodes_to_replacement() {
    let props = Properties::new_str(&String::from("a=\\ud800"));
    assert_eq!(props.get("a"), Some(&String::from("\u{FFFD}")));
}

#[test]
fn truncated_trailing_escape() {
    let source = String::from("a=\\");
    let props = Properties::new_str(&source);
    assert_eq!(props.get("a"), Some(&String::from("")));
    assert_eq!(props.to_string(), source);
}

#[test]
fn parse_read_only_entry_point() {
    let table = Properties::parse(&String::from("x=1\n# note\ny=2"));
    let mut found_x = false;
    let mut found_y = false;
    for (k, v) in &table {
        if k == "x" {
            assert_eq!(v, "1");
            found_x = true;
        }
        if k == "y" {
            assert_eq!(v, "2");
            found_y = true;
        }
    }
    assert!(found_x && found_y);
}

// --- decode purity ---

#[test]
fn decode_twice_identical() {
    let props = Properties::new_str(&String::from("m=Welcome to \\\n  Wikipedia!\\u0021"));
    let first = props.get("m").cloned();
    let second = props.get("m").cloned();
    assert_eq!(first, second);
    assert_eq!(first, Some(String::from("Welcome to Wikipedia!!")));
}

// --- serialization round trips ---

#[test]
fn empty_output_check() {
    let props_str = String::new();
    assert_eq!(Properties::new_str(&props_str).to_string(), props_str,)
}

#[test]
fn basic_output_check() {
    let props_str = String::from("simple\\ key = A fun value!\\nWith multiple lines!");
    assert_eq!(Properties::new_str(&props_str).to_string(), props_str,)
}

#[test]
fn round_trip_mixed_document() {
    let source = String::from(
        "# heading comment\n\n  language = English\r\nkey\\ with\\ spaces=value\n! another note\nmessage=Welcome to \\\n  Wikipedia!\n",
    );
    assert_eq!(Properties::new_str(&source).to_string(), source);
}

// --- editing ---

#[test]
fn minimal_diff_set() {
    let source = String::from("# leading comment\n\nk=old\n# trailing comment\n");
    let mut props = Properties::new_str(&source);
    props.set("k", "new");
    assert_eq!(
        props.to_string(),
        "# leading comment\n\nk=new\n# trailing comment\n"
    );
    assert_eq!(props.get("k"), Some(&String::from("new")));
}

#[test]
fn set_preserves_separator_style() {
    let mut props = Properties::new_str(&String::from("k : old"));
    props.set("k", "new");
    assert_eq!(props.to_string(), "k : new");
}

#[test]
fn append_without_trailing_newline() {
    let mut props = Properties::new_str(&String::from("a=1"));
    props.set("b", "2");
    assert_eq!(props.to_string(), "a=1\nb=2");
    assert_eq!(props.get("b"), Some(&String::from("2")));
}

#[test]
fn append_with_trailing_newline() {
    let mut props = Properties::new_str(&String::from("a=1\n"));
    props.set("b", "2");
    assert_eq!(props.to_string(), "a=1\nb=2");
}

#[test]
fn append_to_empty_document() {
    let mut props = Properties::new_str(&String::new());
    props.set("b", "2");
    assert_eq!(props.to_string(), "b=2");
}

#[test]
fn append_escapes_key_and_value() {
    let mut props = Properties::new_str(&String::new());
    props.set("a key", "line one\nline two");
    assert_eq!(props.to_string(), "a\\ key=line one\\nline two");
    assert_eq!(props.get("a key"), Some(&String::from("line one\nline two")));
}

#[test]
fn set_twice_appends_own_lines() {
    let mut props = Properties::new_str(&String::new());
    props.set("a", "1");
    props.set("b", "2");
    assert_eq!(props.to_string(), "a=1\nb=2");
}

#[test]
fn set_rewrites_appended_line() {
    let mut props = Properties::new_str(&String::new());
    props.set("a", "1");
    props.set("a", "2");
    assert_eq!(props.to_string(), "a=2");
    assert_eq!(props.get("a"), Some(&String::from("2")));
}

#[test]
fn unset_existing_key() {
    let mut props = Properties::new_str(&String::from("a=1\nb=2\n"));
    props.unset("a");
    assert_eq!(props.get("a"), None);
    assert_eq!(props.get("b"), Some(&String::from("2")));
    assert_eq!(props.to_string(), "\nb=2\n");
}

#[test]
fn unset_absent_key_is_noop() {
    let source = String::from("a=1\nb=2\n");
    let mut props = Properties::new_str(&source);
    props.unset("missing");
    assert_eq!(props.get("a"), Some(&String::from("1")));
    assert_eq!(props.to_string(), source);
}

#[test]
fn unset_then_set_targets_right_node() {
    let mut props = Properties::new_str(&String::from("a=1\nb=2\nc=3"));
    props.unset("a");
    props.set("b", "9");
    assert_eq!(props.to_string(), "\nb=9\nc=3");
    assert_eq!(props.get("b"), Some(&String::from("9")));
    assert_eq!(props.get("c"), Some(&String::from("3")));
}

// --- duplicate keys ---

#[test]
fn duplicate_keys_last_wins() {
    let props = Properties::new_str(&String::from("k=first\nk=second\n"));
    assert_eq!(props.get("k"), Some(&String::from("second")));
}

#[test]
fn duplicate_keys_set_targets_last() {
    let mut props = Properties::new_str(&String::from("k=first\nk=second\n"));
    props.set("k", "third");
    assert_eq!(props.to_string(), "k=first\nk=third\n");
}

// --- the escaper ---

#[test]
fn escape_key_table() {
    assert_eq!(escape_key("a key:x=1"), "a\\ key\\:x\\=1");
}

#[test]
fn escape_value_newline_only() {
    assert_eq!(escape_value("a key:x=1\n2"), "a key:x=1\\n2");
}

#[test]
fn escape_non_ascii_as_unicode() {
    assert_eq!(escape_value("caf\u{e9}"), "caf\\u00e9");
    assert_eq!(escape_value("\u{1F600}"), "\\u1f600");
}

#[test]
fn escape_round_trip_through_parse() {
    let mut props = Properties::new_str(&String::new());
    props.set("caf\u{e9}", "na\u{ef}ve\nvalue");
    let text = props.to_string();
    let reparsed = Properties::new_str(&text);
    assert_eq!(
        reparsed.get("caf\u{e9}"),
        Some(&String::from("na\u{ef}ve\nvalue"))
    );
}
