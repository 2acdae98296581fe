use unosolo::catalog::HeaderMeta;
use unosolo::output::produce_final_result_from_opt;
use unosolo::resolve::{collect_quoted_queries, AmalgamError};
use unosolo::strmap::StrMap;

const BANNER: &str =
    "// generated with `unosolo`\n// https://github.com/SuperV1234/unosolo\n#pragma once\n\n";

fn meta(abs: &str, rel: &str, prefix: &str, parent: &str) -> HeaderMeta {
    HeaderMeta {
        abs_path: abs.to_string(),
        rel_path: rel.to_string(),
        root_prefix: prefix.to_string(),
        parent_dir: parent.to_string(),
    }
}

fn add_file(store: &mut StrMap<Vec<String>>, path: &str, lines: &[&str]) {
    let owned: Vec<String> = lines.iter().map(|s| s.to_string()).collect();
    store.insert(path.to_string(), owned);
}

fn add_answer(answers: &mut StrMap<String>, query: &str, canonical: &str) {
    answers.insert(query.to_string(), canonical.to_string());
}

#[test]
fn end_to_end_scenario() {
    // roots = ["lib"], entry = lib/top.hpp.
    let headers = vec![
        meta("/lib/top.hpp", "top.hpp", "/lib", ""),
        meta("/lib/a.hpp", "a.hpp", "/lib", ""),
    ];
    let mut store: StrMap<Vec<String>> = StrMap::new();
    add_file(&mut store, "/lib/top.hpp", &["#include \"a.hpp\"", "int x;"]);
    add_file(&mut store, "/lib/a.hpp", &["// hi", "int y;"]);

    let queries = collect_quoted_queries(&headers, &store).unwrap();
    assert_eq!(queries, vec!["/lib//a.hpp".to_string()]);

    let mut answers: StrMap<String> = StrMap::new();
    add_answer(&mut answers, "/lib//a.hpp", "/lib/a.hpp");

    let out = produce_final_result_from_opt(
        &headers,
        &store,
        &answers,
        &"/lib/top.hpp".to_string(),
    )
    .unwrap();
    assert_eq!(out, format!("{}int y;\nint x;\n", BANNER));
}

#[test]
fn multiple_inclusion_emits_once() {
    // top pulls a.hpp in twice: directly and through b.hpp.
    let headers = vec![
        meta("/lib/top.hpp", "top.hpp", "/lib", ""),
        meta("/lib/a.hpp", "a.hpp", "/lib", ""),
        meta("/lib/b.hpp", "b.hpp", "/lib", ""),
    ];
    let mut store: StrMap<Vec<String>> = StrMap::new();
    add_file(
        &mut store,
        "/lib/top.hpp",
        &["#include \"a.hpp\"", "#include \"b.hpp\"", "int t;"],
    );
    add_file(&mut store, "/lib/a.hpp", &["int a;"]);
    add_file(&mut store, "/lib/b.hpp", &["#include \"a.hpp\"", "int b;"]);

    let mut answers: StrMap<String> = StrMap::new();
    add_answer(&mut answers, "/lib//a.hpp", "/lib/a.hpp");
    add_answer(&mut answers, "/lib//b.hpp", "/lib/b.hpp");

    let out = produce_final_result_from_opt(
        &headers,
        &store,
        &answers,
        &"/lib/top.hpp".to_string(),
    )
    .unwrap();
    // a.hpp's body stands exactly once, at its first depth-first position.
    assert_eq!(out, format!("{}int a;\nint b;\nint t;\n", BANNER));
    assert_eq!(out.matches("int a;").count(), 1);
}

#[test]
fn repeated_direct_inclusion_emits_once() {
    let headers = vec![
        meta("/lib/top.hpp", "top.hpp", "/lib", ""),
        meta("/lib/a.hpp", "a.hpp", "/lib", ""),
    ];
    let mut store: StrMap<Vec<String>> = StrMap::new();
    add_file(
        &mut store,
        "/lib/top.hpp",
        &["#include \"a.hpp\"", "#include \"a.hpp\"", "int t;"],
    );
    add_file(&mut store, "/lib/a.hpp", &["int a;"]);

    let mut answers: StrMap<String> = StrMap::new();
    add_answer(&mut answers, "/lib//a.hpp", "/lib/a.hpp");

    let out = produce_final_result_from_opt(
        &headers,
        &store,
        &answers,
        &"/lib/top.hpp".to_string(),
    )
    .unwrap();
    assert_eq!(out, format!("{}int a;\nint t;\n", BANNER));
}

#[test]
fn cycle_terminates() {
    // a names b and b names a back; expansion still completes.
    let headers = vec![
        meta("/lib/a.hpp", "a.hpp", "/lib", ""),
        meta("/lib/b.hpp", "b.hpp", "/lib", ""),
    ];
    let mut store: StrMap<Vec<String>> = StrMap::new();
    add_file(&mut store, "/lib/a.hpp", &["#include \"b.hpp\"", "int a;"]);
    add_file(&mut store, "/lib/b.hpp", &["#include \"a.hpp\"", "int b;"]);

    let mut answers: StrMap<String> = StrMap::new();
    add_answer(&mut answers, "/lib//a.hpp", "/lib/a.hpp");
    add_answer(&mut answers, "/lib//b.hpp", "/lib/b.hpp");

    let out = produce_final_result_from_opt(
        &headers,
        &store,
        &answers,
        &"/lib/a.hpp".to_string(),
    )
    .unwrap();
    // The entry file is pre-visited, so b's directive back to a is elided.
    assert_eq!(out, format!("{}int b;\nint a;\n", BANNER));
}

#[test]
fn non_project_target_passes_through() {
    let headers = vec![meta("/lib/top.hpp", "top.hpp", "/lib", "")];
    let mut store: StrMap<Vec<String>> = StrMap::new();
    add_file(&mut store, "/lib/top.hpp", &["#include <vector>", "int x;"]);

    let answers: StrMap<String> = StrMap::new();
    let out = produce_final_result_from_opt(
        &headers,
        &store,
        &answers,
        &"/lib/top.hpp".to_string(),
    )
    .unwrap();
    assert_eq!(out, format!("{}#include <vector>\nint x;\n", BANNER));
}

#[test]
fn comments_and_pragma_are_suppressed() {
    let headers = vec![meta("/lib/top.hpp", "top.hpp", "/lib", "")];
    let mut store: StrMap<Vec<String>> = StrMap::new();
    add_file(
        &mut store,
        "/lib/top.hpp",
        &[
            "// a comment",
            " \t// an indented comment",
            "#pragma once",
            "  #pragma once",
            "const char* s = \"// not a comment\";",
            "int x;",
        ],
    );

    let answers: StrMap<String> = StrMap::new();
    let out = produce_final_result_from_opt(
        &headers,
        &store,
        &answers,
        &"/lib/top.hpp".to_string(),
    )
    .unwrap();
    assert_eq!(
        out,
        format!("{}const char* s = \"// not a comment\";\nint x;\n", BANNER)
    );
}

#[test]
fn first_root_wins() {
    // Roots A then B both hold a header at x/y.h.
    let headers = vec![
        meta("/A/x/y.h", "x/y.h", "/A", "x"),
        meta("/B/x/y.h", "x/y.h", "/B", "x"),
        meta("/A/top.hpp", "top.hpp", "/A", ""),
    ];
    let mut store: StrMap<Vec<String>> = StrMap::new();
    add_file(&mut store, "/A/x/y.h", &["int from_root_a;"]);
    add_file(&mut store, "/B/x/y.h", &["int from_root_b;"]);
    add_file(&mut store, "/A/top.hpp", &["#include <x/y.h>"]);

    let answers: StrMap<String> = StrMap::new();
    let out = produce_final_result_from_opt(
        &headers,
        &store,
        &answers,
        &"/A/top.hpp".to_string(),
    )
    .unwrap();
    assert_eq!(out, format!("{}int from_root_a;\n", BANNER));
}

#[test]
fn malformed_directive_is_fatal() {
    let headers = vec![meta("/lib/top.hpp", "top.hpp", "/lib", "")];
    let mut store: StrMap<Vec<String>> = StrMap::new();
    add_file(&mut store, "/lib/top.hpp", &["#include @foo"]);

    let answers: StrMap<String> = StrMap::new();
    let r = produce_final_result_from_opt(
        &headers,
        &store,
        &answers,
        &"/lib/top.hpp".to_string(),
    );
    assert_eq!(
        r,
        Err(AmalgamError::MalformedDirective("#include @foo".to_string()))
    );
}

#[test]
fn unresolved_quoted_target_is_fatal() {
    let headers = vec![meta("/lib/top.hpp", "top.hpp", "/lib", "")];
    let mut store: StrMap<Vec<String>> = StrMap::new();
    add_file(&mut store, "/lib/top.hpp", &["#include \"missing.hpp\""]);

    let answers: StrMap<String> = StrMap::new();
    let r = produce_final_result_from_opt(
        &headers,
        &store,
        &answers,
        &"/lib/top.hpp".to_string(),
    );
    assert_eq!(
        r,
        Err(AmalgamError::UnresolvedQuoted("/lib//missing.hpp".to_string()))
    );
}

#[test]
fn missing_entry_file_is_fatal() {
    let headers = vec![meta("/lib/a.hpp", "a.hpp", "/lib", "")];
    let mut store: StrMap<Vec<String>> = StrMap::new();
    add_file(&mut store, "/lib/a.hpp", &["int a;"]);

    let answers: StrMap<String> = StrMap::new();
    let r = produce_final_result_from_opt(
        &headers,
        &store,
        &answers,
        &"/lib/top.hpp".to_string(),
    );
    assert_eq!(
        r,
        Err(AmalgamError::MissingFile("/lib/top.hpp".to_string()))
    );
}

#[test]
fn unreadable_catalogued_file_is_fatal() {
    let headers = vec![meta("/lib/gone.hpp", "gone.hpp", "/lib", "")];
    let store: StrMap<Vec<String>> = StrMap::new();
    let answers: StrMap<String> = StrMap::new();
    let r = produce_final_result_from_opt(
        &headers,
        &store,
        &answers,
        &"/lib/gone.hpp".to_string(),
    );
    assert_eq!(r, Err(AmalgamError::MissingFile("/lib/gone.hpp".to_string())));
}

#[test]
fn collect_reports_queries_in_order() {
    let headers = vec![
        meta("/lib/top.hpp", "top.hpp", "/lib", ""),
        meta("/lib/sub/a.hpp", "sub/a.hpp", "/lib", "sub"),
    ];
    let mut store: StrMap<Vec<String>> = StrMap::new();
    add_file(
        &mut store,
        "/lib/top.hpp",
        &["#include \"a.hpp\"", "#include <vector>", "#include \"b.hpp\""],
    );
    add_file(&mut store, "/lib/sub/a.hpp", &["#include \"c.hpp\""]);

    let queries = collect_quoted_queries(&headers, &store).unwrap();
    assert_eq!(
        queries,
        vec![
            "/lib//a.hpp".to_string(),
            "/lib//b.hpp".to_string(),
            "/lib/sub/c.hpp".to_string(),
        ]
    );
}
