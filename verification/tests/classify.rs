use unosolo::text::{is_include_directive, is_header, parse_directive, unquote, LineParse};

#[test]
fn directive_detection() {
    assert!(is_include_directive("#include \"a.hpp\""));
    assert!(is_include_directive("   #include <vector>"));
    assert!(is_include_directive("\t#include <vector>"));
    assert!(!is_include_directive("int x; // #include \"a.hpp\""));
    assert!(!is_include_directive("#pragma once"));
    assert!(!is_include_directive(""));
}

#[test]
fn directive_detection_skips_any_whitespace() {
    // The detector skips the whole Unicode whitespace class, not only
    // space and tab.
    assert!(is_include_directive("\r#include <vector>"));
    assert!(is_include_directive("\u{000C}#include <vector>"));
    assert!(is_include_directive("\u{00A0}#include <vector>"));
    assert!(is_include_directive("\u{2003}\t #include <vector>"));
    assert!(!is_include_directive("x #include <vector>"));
    assert_eq!(
        parse_directive("\r#include \"a.hpp\""),
        LineParse::Quoted(String::from("a.hpp"))
    );
}

#[test]
fn parse_quoted() {
    assert_eq!(
        parse_directive("#include \"a.hpp\""),
        LineParse::Quoted(String::from("a.hpp"))
    );
    assert_eq!(
        parse_directive("  #include   \"dir/b.h\""),
        LineParse::Quoted(String::from("dir/b.h"))
    );
}

#[test]
fn parse_bracketed() {
    assert_eq!(
        parse_directive("#include <vector>"),
        LineParse::Bracketed(String::from("vector"))
    );
    assert_eq!(
        parse_directive("\t#include <x/y.h>"),
        LineParse::Bracketed(String::from("x/y.h"))
    );
}

#[test]
fn parse_plain_line() {
    assert_eq!(parse_directive("int x;"), LineParse::NotDirective);
    assert_eq!(parse_directive("// #include maybe"), LineParse::NotDirective);
}

#[test]
fn parse_malformed() {
    assert_eq!(parse_directive("#include @foo"), LineParse::Malformed);
    assert_eq!(parse_directive("#include"), LineParse::Malformed);
    assert_eq!(parse_directive("#include \"unterminated"), LineParse::Malformed);
    assert_eq!(parse_directive("#include <unterminated"), LineParse::Malformed);
}

#[test]
fn unquote_strips_delimiters() {
    assert_eq!(unquote("\"a.hpp\""), "a.hpp");
    assert_eq!(unquote("<vector>"), "vector");
    assert_eq!(unquote("xy"), "");
}

#[test]
fn header_suffixes() {
    assert!(is_header("a.h"));
    assert!(is_header("a.hpp"));
    assert!(is_header("a.inl"));
    assert!(is_header("a.cpp"));
    assert!(!is_header("a.txt"));
    assert!(!is_header("ah"));
    assert!(!is_header(""));
}
