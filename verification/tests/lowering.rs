use tsrust::lowering::{lower_to_rust, LowerOptions};

fn identity_body(body: &str) -> String {
    body.to_string()
}

fn rust_path(path: &str) -> String {
    match path {
        "./util.math" => "crate::util::math".into(),
        "../shared" => "crate::super::shared".into(),
        other => other.into(),
    }
}

#[test]
fn lowers_imports_reexports_and_exported_functions() {
    let src = r#"
            import { foo, bar::{Baz, qux as q} } from "./util.math";
            export { Thing } from "../shared";
            export function add(a: i32, b?: i32): i32 { (a) }
        "#;

    let out = lower_to_rust(
        src,
        &LowerOptions {
            rewrite_body: identity_body,
            normalize_path: rust_path,
        },
    );

    assert!(out.contains("use crate::util::math::foo;"));
    assert!(out.contains("use crate::util::math::bar::{Baz, qux as q};"));
    assert!(out.contains("pub use crate::super::shared::{Thing};"));
    assert!(out.contains("pub fn add(a: i32, b: Option<i32>) -> i32 { (a) }"));
}

#[test]
fn lowers_default_params_and_arrow_forms() {
    let src = r#"
            export function add(a: i32 = 1, b?: i32): i32 {
                return (a)
            }
            export const make = move (x: i32): i32 => (x);
        "#;

    let out = lower_to_rust(
        src,
        &LowerOptions {
            rewrite_body: identity_body,
            normalize_path: rust_path,
        },
    );

    assert!(out.contains("pub fn add(a: Option<i32>, b: Option<i32>) -> i32 {"));
    assert!(out.contains("let a = a.unwrap_or(1);"));
    assert!(out.contains("pub fn make(x: i32) -> i32 { (x); }"));
}

#[test]
fn applies_body_rewrite_hook_before_emitting_rust() {
    fn rewrite_switch_like(_: &str) -> String {
        "match op {\n    0 => { 1 },\n    _ => { 2 },\n}".into()
    }

    let src = r#"
            function operate(op: i32): i32 {
                switch (op) {
                    default: { (2) }
                }
            }
        "#;

    let out = lower_to_rust(
        src,
        &LowerOptions {
            rewrite_body: rewrite_switch_like,
            normalize_path: rust_path,
        },
    );

    assert!(out.contains("fn operate(op: i32) -> i32 {"));
    assert!(out.contains("match op {"));
    assert!(out.contains("_ => { 2 },"));
}

#[test]
fn exported_arrow_keeps_return_arrow_when_type_is_blank() {
    let src = "export const f = (x: i32): => (x);";
    let out = lower_to_rust(
        src,
        &LowerOptions {
            rewrite_body: identity_body,
            normalize_path: rust_path,
        },
    );
    assert_eq!(out, "pub fn f(x: i32) ->  { (x); }\n");
}

#[test]
fn function_without_return_type_has_no_arrow() {
    let src = "function g(x: i32) { (x) }";
    let out = lower_to_rust(
        src,
        &LowerOptions {
            rewrite_body: identity_body,
            normalize_path: rust_path,
        },
    );
    assert_eq!(out, "fn g(x: i32) { (x) }\n");
}
