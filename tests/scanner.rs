use symtool::cursor::{take_c_token, take_while, take_whitespace, CharClass, Cursor};
use symtool::extract::extract_symbols;

fn chars(s: &str) -> Vec<char> {
    s.chars().collect()
}

fn text(v: &[char]) -> String {
    v.iter().collect()
}

fn symbols(src: &str) -> Vec<String> {
    let v = chars(src);
    extract_symbols(&v).iter().map(|s| text(s)).collect()
}

#[test]
fn take_identifier_stops_at_paren() {
    let v = chars("foo123(");
    let mut c = Cursor::new(&v);
    let tok = take_c_token(&mut c);
    assert_eq!(text(tok), "foo123");
    assert_eq!(c.offset(), 6);
    assert_eq!(c.peek(), Some('('));
}

#[test]
fn take_identifier_rejects_leading_digit() {
    let v = chars("123abc");
    let mut c = Cursor::new(&v);
    let tok = take_c_token(&mut c);
    assert_eq!(text(tok), "");
    assert_eq!(c.offset(), 0);
}

#[test]
fn take_identifier_underscore_start() {
    let v = chars("_x9 y");
    let mut c = Cursor::new(&v);
    assert_eq!(text(take_c_token(&mut c)), "_x9");
    assert_eq!(text(c.remaining()), " y");
}

#[test]
fn take_identifier_at_end_of_input() {
    let v = chars("");
    let mut c = Cursor::new(&v);
    assert_eq!(text(take_c_token(&mut c)), "");
    assert_eq!(c.offset(), 0);
}

#[test]
fn take_while_failed_match_keeps_cursor() {
    let v = chars("abc");
    let mut c = Cursor::new(&v);
    assert_eq!(text(take_while(&mut c, CharClass::Exactly('('))), "");
    assert_eq!(c.offset(), 0);
    assert_eq!(text(take_while(&mut c, CharClass::Exactly('a'))), "a");
    assert_eq!(c.offset(), 1);
}

#[test]
fn take_whitespace_consumes_ascii_space_run() {
    let v = chars(" \t\r\n\x0Cx ");
    let mut c = Cursor::new(&v);
    assert_eq!(take_whitespace(&mut c).len(), 5);
    assert_eq!(c.peek(), Some('x'));
}

#[test]
fn take_while_hex_digits() {
    let v = chars("09afAFg");
    let mut c = Cursor::new(&v);
    assert_eq!(text(take_while(&mut c, CharClass::HexDigit)), "09afAF");
}

#[test]
fn extractor_skips_keyword_calls() {
    let found = symbols("if (x)");
    assert!(!found.contains(&"if".to_string()));
    assert_eq!(found, Vec::<String>::new());
}

#[test]
fn extractor_skips_all_keywords() {
    let found = symbols(
        "for (;;) while (1) return (0); switch (a) case (b) sizeof (c) alignof (d) __attribute__ (e)",
    );
    assert_eq!(found, Vec::<String>::new());
}

#[test]
fn extractor_skips_function_pointers() {
    let found = symbols("void (*callback)(int)");
    assert!(!found.contains(&"void".to_string()));
    assert_eq!(found, Vec::<String>::new());
}

#[test]
fn extractor_reports_definitions_and_calls() {
    assert_eq!(symbols("int main(void) { foo(1); }"), vec!["main", "foo"]);
}

#[test]
fn extractor_keeps_duplicates_in_order() {
    assert_eq!(symbols("f(); g (); f();"), vec!["f", "g", "f"]);
}

#[test]
fn extractor_needs_paren_after_name() {
    assert_eq!(symbols("int x = 3; y\n(z)"), vec!["y"]);
}

#[test]
fn extractor_attribute_then_call() {
    assert_eq!(symbols("__attribute__((x)) g(a)"), vec!["g"]);
}

#[test]
fn extractor_empty_text() {
    assert_eq!(symbols(""), Vec::<String>::new());
}
