use tsrust::ast::{ArrowBody, ImportItem, Item, ParamKind};
use tsrust::parser::parse_module;

#[test]
fn parses_import_export_and_function_shapes() {
    let src = r#"
            import { foo, bar::{Baz, qux as q} } from "./util.math";
            export { Foo } from "../models";
            export function add(a: i32 = 1, b?: i32): i32 { (a) }
        "#;

    let module = parse_module(src);
    assert_eq!(module.items.len(), 3);

    match &module.items[0] {
        Item::Import(import) => {
            assert_eq!(import.from, "./util.math");
            assert!(matches!(&import.items[0], ImportItem::Simple(name) if name == "foo"));
            assert!(matches!(&import.items[1], ImportItem::Nested { path } if path == "bar::{Baz,qux as q}"));
        }
        other => panic!("expected import, got {other:?}"),
    }

    match &module.items[1] {
        Item::ReExport(reexport) => {
            assert_eq!(reexport.items, vec!["Foo"]);
            assert_eq!(reexport.from, "../models");
        }
        other => panic!("expected re-export, got {other:?}"),
    }

    match &module.items[2] {
        Item::ExportedFn(function) => {
            assert_eq!(function.name, "add");
            assert_eq!(function.ret.as_ref().map(|t| t.text.as_str()), Some("i32"));
            assert_eq!(function.params.len(), 2);
            assert!(matches!(function.params[0].kind, ParamKind::Defaulted(ref def) if def == "1"));
            assert!(matches!(function.params[1].kind, ParamKind::Optional));
            assert_eq!(function.body_src, "(a)");
        }
        other => panic!("expected exported function, got {other:?}"),
    }
}

#[test]
fn parses_arrow_forms_and_parameter_kinds() {
    let src = r#"
            export const build = move (name: String, count?: i32): i32 => {
                (count)
            }
        "#;

    let module = parse_module(src);
    assert_eq!(module.items.len(), 1);

    match &module.items[0] {
        Item::ExportedArrow(arrow) => {
            assert_eq!(arrow.name, "build");
            assert!(arrow.is_exported);
            assert!(arrow.is_move);
            assert!(matches!(arrow.params[0].kind, ParamKind::Normal));
            assert!(matches!(arrow.params[1].kind, ParamKind::Optional));
            assert!(matches!(arrow.body, ArrowBody::Block(ref body) if body.contains("(count)")));
        }
        other => panic!("expected exported arrow, got {other:?}"),
    }
}
