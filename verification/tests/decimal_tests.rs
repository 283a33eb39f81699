use read_image_scope_xml::decimal::{dec_add, dec_to_string, parse_decimal, Decimal};
use read_image_scope_xml::text::{basename_str, slide_name_str, str_eq, str_lt_exec, trim_str};

fn parsed(s: &str) -> Decimal {
    parse_decimal(s).expect("value should parse")
}

fn rendered(s: &str) -> String {
    dec_to_string(&parsed(s))
}

#[test]
fn parse_and_render_simple_values() {
    assert_eq!(rendered("0.42"), "0.42");
    assert_eq!(rendered("100"), "100");
    assert_eq!(rendered("0"), "0");
    assert_eq!(rendered("-3.50"), "-3.5");
    assert_eq!(rendered("007"), "7");
    assert_eq!(rendered("00.420"), "0.42");
}

#[test]
fn parse_accepts_bare_dot_forms() {
    assert_eq!(rendered(".5"), "0.5");
    assert_eq!(rendered("5."), "5");
    assert_eq!(rendered("+12.25"), "12.25");
}

#[test]
fn parse_rejects_malformed_text() {
    assert!(parse_decimal("").is_none());
    assert!(parse_decimal("abc").is_none());
    assert!(parse_decimal(".").is_none());
    assert!(parse_decimal("-").is_none());
    assert!(parse_decimal("1.2.3").is_none());
    assert!(parse_decimal("1 2").is_none());
    assert!(parse_decimal("1e5").is_none());
}

#[test]
fn parse_rejects_too_wide_numbers() {
    assert!(parse_decimal("9999999999999999999").is_none());
    assert!(parse_decimal("0.9999999999999999999").is_none());
    assert!(parse_decimal("999999999999999999").is_some());
}

#[test]
fn addition_is_exact() {
    let a = parsed("0.1");
    let b = parsed("0.2");
    assert_eq!(dec_to_string(&dec_add(&a, &b)), "0.3");
    let c = parsed("10");
    let d = parsed("0.25");
    assert_eq!(dec_to_string(&dec_add(&c, &d)), "10.25");
    let e = parsed("-1.5");
    let f = parsed("1");
    assert_eq!(dec_to_string(&dec_add(&e, &f)), "-0.5");
    let g = parsed("-2");
    let h = parsed("2");
    assert_eq!(dec_to_string(&dec_add(&g, &h)), "0");
}

#[test]
fn trim_removes_surrounding_whitespace() {
    assert_eq!(trim_str("  a b \t"), "a b");
    assert_eq!(trim_str("\r\n"), "");
    assert_eq!(trim_str("x"), "x");
}

#[test]
fn slide_name_replaces_extension() {
    assert_eq!(slide_name_str("slide1.xml"), "slide1.svs");
    assert_eq!(slide_name_str("a.b.xml"), "a.b.svs");
    assert_eq!(slide_name_str("noext"), "noext.svs");
    assert_eq!(slide_name_str(".xml"), ".xml.svs");
}

#[test]
fn basename_strips_directories() {
    assert_eq!(basename_str("a/b/c.png"), "c.png");
    assert_eq!(basename_str("x.png"), "x.png");
    assert_eq!(basename_str("a/"), "");
    assert_eq!(basename_str(""), "");
}

#[test]
fn string_comparisons() {
    assert!(str_eq("abc", "abc"));
    assert!(!str_eq("abc", "abd"));
    assert!(str_lt_exec("10", "2"));
    assert!(str_lt_exec("a", "ab"));
    assert!(!str_lt_exec("b", "b"));
}

#[test]
fn zero_values_render_plainly() {
    assert_eq!(rendered("000"), "0");
    assert_eq!(rendered("0.0"), "0");
    assert_eq!(rendered("-0"), "0");
}
