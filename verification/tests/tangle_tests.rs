use tangle::fragment::{Fragment, parse_invocation};
use tangle::indent::prepend_indents;
use tangle::table::MacroTable;

fn chars(s: &str) -> Vec<char> {
    s.chars().collect()
}

fn string(v: &[char]) -> String {
    v.iter().collect()
}

#[test]
fn prepend_adds_one_unit_per_indent() {
    assert_eq!(prepend_indents("a\nb", 1), "    a\n    b\n");
    assert_eq!(prepend_indents("println!(\"hi\");", 1), "    println!(\"hi\");\n");
}

#[test]
fn prepend_zero_units_only_normalizes_newline() {
    assert_eq!(prepend_indents("a\nb\n", 0), "a\nb\n");
    assert_eq!(prepend_indents("", 3), "");
}

#[test]
fn header_defines_fragment_and_replaces_header_text() {
    let f = Fragment::parse(&chars("// <<root>>=\nlet x = 1;\n")).unwrap();
    assert_eq!(string(&f.name), "root");
    // The header literal is replaced by the bare name in the body.
    assert_eq!(string(&f.lines[0]), "// root");
    assert_eq!(string(&f.lines[1]), "let x = 1;");
}

#[test]
fn segment_without_header_is_no_definition() {
    assert!(Fragment::parse(&chars("let x = 1;\n")).is_err());
    assert!(Fragment::parse(&chars("// <<unterminated\nbody\n")).is_err());
    assert!(Fragment::parse(&chars("// <<root>>=")).is_err());
}

#[test]
fn names_with_delimiter_characters_are_rejected() {
    assert!(Fragment::parse(&chars("// <<a>b>>=\nbody\n")).is_err());
    assert!(Fragment::parse(&chars("// <<a<b>>=\nbody\n")).is_err());
    assert!(Fragment::parse(&chars("// <<a.b>>=\nbody\n")).is_ok());
}

#[test]
fn crlf_line_endings_are_one_terminator() {
    assert_eq!(prepend_indents("a\r\nb", 0), "a\nb\n");
    assert_eq!(prepend_indents("a\r\nb\r\n", 1), "    a\n    b\n");
    let f = Fragment::parse(&chars("// <<root>>=\r\nbody\r\n")).unwrap();
    assert_eq!(string(&f.name), "root");
    assert_eq!(string(&f.lines[1]), "body");
}

#[test]
fn invocation_marker_shapes() {
    let got = parse_invocation(&chars("    // <<body>>")).unwrap();
    assert_eq!(got.0, 4);
    assert_eq!(string(&got.1), "body");
    assert!(parse_invocation(&chars("    // <<body>>=")).is_none());
    assert!(parse_invocation(&chars("no marker here")).is_none());
}

#[test]
fn table_keeps_first_definition() {
    let mut t = MacroTable::new();
    let a = Fragment::parse(&chars("// <<a>>=\nfirst\n")).unwrap();
    let a2 = Fragment::parse(&chars("// <<a>>=\nsecond\n")).unwrap();
    assert!(t.insert(a));
    assert!(!t.insert(a2));
    let i = t.lookup_index(&chars("a")).unwrap();
    assert_eq!(string(&t.frags[i].lines[1]), "first");
    assert!(t.lookup_index(&chars("b")).is_none());
}
