use tsrust::body::{
    rewrite_body_tsrust, rewrite_coalesce, rewrite_for_of, rewrite_local_arrows, rewrite_opt_chain,
    rewrite_paren_tail_before_brace, rewrite_paren_tail_inline, rewrite_paren_tail_line, rewrite_return_unit,
};
use tsrust::diagnostics::{
    files_to_read, find_culprit_ahead, parse_or_one, read_line_1_based, read_next_non_empty_line, rewrite_stderr,
    rewrite_stderr_for_app, strip_ansi, FileStore,
};
use tsrust::exports::{
    key_of,
    find_col, import_items_of_line, join_errors, names_of_list, normalize_rel_path, scan_exports, std_lines_of,
    validate_imports, who_has, ExportIndex, SourceText,
};
use tsrust::ast::Item;
use tsrust::lexer::{Lexer, TokKind};
use tsrust::linemap::{
    expand_tabs_to_cols, file_line_map, find_fn_starts_gen, find_fn_starts_src, find_token_col_at_or_after,
    gen_suffix, join_fn_starts, map_line, CrateLineMap, FileLineMap, FnLineMap,
};
use tsrust::lowering::{lower_items, version};
use tsrust::modtree::{module_glue, ModTree};
use tsrust::parser::parse_module;
use tsrust::parser_items::parse_params;
use tsrust::paths::normalize_path;
use tsrust::pattern::{apply_rule, splice_matches, Rule};
use tsrust::project::{
    build_dir_name, build_export_index, is_source_file, main_rs_text, module_key, module_name_of, require_sources,
    tree_entry,
};
use tsrust::rewrite::{
    find_balanced, is_ident_boundary, needs_block, rewrite_switches, strip_return_wrapping_parens,
    strip_top_level_breaks,
};
use tsrust::sourcemap::SourceMap;
use tsrust::transpile::{has_terminal_marker, last_meaningful_line, push_decimal, transpile_str};

fn chars(s: &str) -> Vec<char> {
    s.chars().collect()
}

// ----- paths -----

#[test]
fn normalize_path_examples() {
    assert_eq!(normalize_path("./util.math"), "crate::util::math");
    assert_eq!(normalize_path("../../a/b"), "crate::super::super::a::b");
    assert_eq!(normalize_path("std.collections"), "std::collections");
    assert_eq!(normalize_path("serde-json.core"), "serde_json::core");
    assert_eq!(normalize_path("my-crate"), "my_crate");
    assert_eq!(normalize_path("std::io"), "std::io");
    assert_eq!(normalize_path("my-crate::utils"), "my_crate::utils");
    assert_eq!(normalize_path("./"), "crate");
    assert_eq!(normalize_path("..."), "");
}

#[test]
fn normalize_path_is_idempotent_on_examples() {
    for p in ["./util.math", "../x-y/z", "a.b-c", "plain-name", "./", "std::io", "...", "a..b"] {
        let once = normalize_path(p);
        assert_eq!(normalize_path(&once), once);
    }
}

#[test]
fn normalized_paths_have_no_hyphens() {
    for p in ["./my-mod/sub-dir.file-x", "a-b.c-d", "x-y", "../-"] {
        assert!(!normalize_path(p).contains('-'));
    }
}

#[test]
fn relative_module_path_resolution() {
    assert!(normalize_rel_path("src", "std.io").is_none());
    let p = normalize_rel_path("src/dir", "./util.math").unwrap();
    assert_eq!(p, "src/dir/util/math.tsrust");
    let q = normalize_rel_path("src/dir", "../models.user").unwrap();
    assert_eq!(q, "src/models/user.tsrust");
    assert!(!q.contains('\\'));
    assert_eq!(normalize_rel_path("/p/src", "./util.math").unwrap(), "/p/src/util/math.tsrust");
    assert_eq!(normalize_rel_path("/p/src", "../../x").unwrap(), "/x.tsrust");
    assert_eq!(module_key("/p/src/a/b.tsrust", "/p/src"), "a/b.tsrust");
    assert_eq!(module_key("/q/a.tsrust", "/p/src"), "/q/a.tsrust");
    assert_eq!(module_key("src/a.tsrust", ""), "src/a.tsrust");
}

// ----- lexer and parser -----

#[test]
fn token_spans_are_ordered_and_inside() {
    let src = "export function f(a: i32): i32 { (a) } // done";
    let toks = Lexer::new(src).tokenize();
    let mut prev_end = 0;
    for t in &toks {
        assert!(prev_end <= t.span.start);
        assert!(t.span.start < t.span.end);
        assert!(t.span.end <= src.len());
        prev_end = t.span.end;
    }
    assert!(!toks.is_empty());
}

#[test]
fn positions_are_byte_offsets() {
    let src = "let s = \"\u{e9}\"; x";
    let tokens = Lexer::new(src).tokenize();
    assert_eq!(tokens.len(), 6);
    assert_eq!((tokens[3].span.start, tokens[3].span.end), (8, 12));
    assert_eq!(tokens[3].kind, TokKind::Str("\u{c3}\u{a9}".into()));
    assert_eq!((tokens[5].span.start, tokens[5].span.end), (14, 15));
    assert_eq!(&src[tokens[5].span.start..tokens[5].span.end], "x");

    let m = parse_module("function f(): i32 { return \"\u{e9}\"; }\n");
    match &m.items[0] {
        Item::Fn(f) => {
            assert_eq!(f.body_src, "return \"\u{e9}\";");
            assert_eq!((f.span.start, f.span.end), (0, 34));
        }
        _ => panic!("expected a function"),
    }

    let ps = parse_params("b: S = \"\u{e9}\"", 3);
    assert_eq!(ps.len(), 1);
    assert_eq!((ps[0].span.start, ps[0].span.end), (3, 14));
}

#[test]
fn lowering_is_item_by_item() {
    let m = parse_module("import { a } from \"x\";\nexport { b };\n");
    let hooks = vec!["x".to_string(), String::new()];
    let out = lower_items(&m, &hooks);
    assert_eq!(out, "use x::a;\npub use self::{b};\n");
    assert_eq!(version(), "0.1.0");
}

// ----- text rewrites without a pattern engine -----

#[test]
fn ident_boundaries_and_balanced_brackets() {
    let v = chars("a(b(c)d)e");
    assert_eq!(find_balanced(&v, 0, '(', ')'), Some(7));
    assert_eq!(find_balanced(&v, 2, '(', ')'), Some(5));
    assert_eq!(find_balanced(&chars("((x)"), 0, '(', ')'), None);
    let w = chars("ab c");
    assert!(!is_ident_boundary(&w, 1));
    assert!(is_ident_boundary(&w, 2));
    assert!(is_ident_boundary(&w, 4));
}

#[test]
fn block_needs() {
    assert!(needs_block("let x = 1"));
    assert!(needs_block("return 3"));
    assert!(needs_block("a;\nb"));
    assert!(needs_block("f(); g()"));
    assert!(!needs_block("f(a; b)"));
    assert!(!needs_block("  42  "));
}

#[test]
fn breaks_removed_only_at_top_level() {
    assert_eq!(strip_top_level_breaks("a; break; b".to_string()), "a;  b");
    assert_eq!(strip_top_level_breaks("{ break; }".to_string()), "{ break; }");
    assert_eq!(strip_top_level_breaks("breaker;".to_string()), "breaker;");
    let plain = "no loops here";
    assert_eq!(strip_top_level_breaks(plain.to_string()), plain);
}

#[test]
fn return_parens() {
    assert_eq!(strip_return_wrapping_parens("return (a + b);"), "return a + b;");
    assert_eq!(strip_return_wrapping_parens("return (a, b);"), "return (a, b);");
    assert_eq!(strip_return_wrapping_parens("returned(x)"), "returned(x)");
    assert_eq!(strip_return_wrapping_parens("x = 1"), "x = 1");
    // a `return` that ends the text is kept as it is
    assert_eq!(strip_return_wrapping_parens("return   "), "return   ");
    assert_eq!(strip_return_wrapping_parens("x; return"), "x; return");
    // text other than `return (e)` is copied unchanged
    assert_eq!(strip_return_wrapping_parens("println!(\"\u{e9}\");"), "println!(\"\u{e9}\");");
    assert_eq!(
        strip_return_wrapping_parens("let s = \"\u{e9}\"; return (\"\u{e9}\")"),
        "let s = \"\u{e9}\"; return \"\u{e9}\""
    );
    assert_eq!(strip_top_level_breaks("f(\"\u{e9}\"); break;".to_string()), "f(\"\u{e9}\"); ");
}

#[test]
fn switch_rewrites() {
    let s = "switch (k) { case 1: a(); break; default: b }";
    let out = rewrite_switches(s);
    assert_eq!(out, "match k {\n    1 => {\na();\n    },\n    _ => { b },\n}");
    let none = "let switchy = 1;";
    assert_eq!(rewrite_switches(none), none);
    assert_eq!(rewrite_switches("no switch statement"), "no switch statement");
    assert_eq!(
        rewrite_switches("let switched = 1; switch (x) { default: y }"),
        "let switched = 1; match x {\n    _ => { y },\n}"
    );
}

// ----- regular-expression rewrites -----

#[test]
fn splice_from_reported_spans() {
    // `for (x of xs)`: the whole match and its two groups
    let text = "a; for (x of xs) {}";
    let ms = vec![vec![Some((3, 16)), Some((8, 9)), Some((13, 15))]];
    assert_eq!(splice_matches(Rule::ForOf, text, &ms), "a; for x in xs {}");
    assert_eq!(splice_matches(Rule::ForOf, text, &vec![]), text);
    // only the first match for the `);}` rule
    let t2 = "f(); } g(); }";
    let ms2 = vec![vec![Some((2, 6))], vec![Some((9, 13))]];
    assert_eq!(splice_matches(Rule::ParenTailSemi, t2, &ms2), "f()} g(); }");
}

#[test]
fn pattern_rules_apply() {
    assert_eq!(apply_rule(Rule::ForOf, "for (x of xs) {}"), "for x in xs {}");
    assert_eq!(rewrite_for_of("for ( item of list ) { }"), "for item in list  { }");
    assert_eq!(rewrite_return_unit("return;"), "return ;");
    assert_eq!(rewrite_paren_tail_inline("{ (a + b) }"), "{ a + b }");
    assert_eq!(rewrite_paren_tail_line("  (x)\n"), "x");
    assert_eq!(rewrite_paren_tail_line("a\n  (x)\nb"), "a\nx\nb");
    assert_eq!(rewrite_paren_tail_before_brace("  (y) }"), "y }");
    assert_eq!(
        rewrite_local_arrows("let f = (x: i32): i32 => (x + 1);"),
        "let f = |x: i32| -> i32 { x + 1 };"
    );
    assert_eq!(rewrite_coalesce("let v = a ?? 3;".to_string()), "let v = (a).unwrap_or(3);");
    assert_eq!(rewrite_opt_chain("u?.name".to_string()), "(u).as_ref().map(|__v| __v.name)");
    assert_eq!(strip_ansi("\x1b[1;31merror\x1b[0m: x"), "error: x");
}

#[test]
fn body_rewrite_pipeline() {
    assert_eq!(rewrite_body_tsrust("return (a);"), "return a;");
    assert_eq!(rewrite_body_tsrust("return;"), "return ;");
    assert_eq!(rewrite_body_tsrust("x + 1"), "x + 1");
}

// ----- transpilation checks -----

#[test]
fn terminal_markers() {
    assert!(has_terminal_marker("let x = 1;\nreturn x;"));
    assert!(has_terminal_marker("(x + 1)"));
    assert!(has_terminal_marker("( x );\n// trailing comment"));
    assert!(!has_terminal_marker("let x = 1;"));
    assert!(!has_terminal_marker("returned(1)"));
    assert_eq!(last_meaningful_line("a\n  b  \n\n// c\n").as_deref(), Some("b"));
    assert_eq!(last_meaningful_line("\n// only\n"), None);
}

#[test]
fn transpile_error_names_file_and_line() {
    let src = "// header\n\nfunction bad(): i32 { let x = 1; }\n";
    let err = transpile_str(src, "f.tsrust").unwrap_err();
    assert_eq!(
        err.message(),
        "f.tsrust:3:1: Non-unit function 'bad' must end with `return EXPR;` or `(EXPR)`"
    );
    let ok = transpile_str("function good(): i32 { (1) }\nfunction unit() { let y = 2; }", "g").unwrap();
    assert!(ok.contains("fn good() -> i32 { 1 }"));
    let mut s = String::new();
    push_decimal(&mut s, 1203);
    assert_eq!(s, "1203");
}

// ----- line maps -----

#[test]
fn function_starts_and_join() {
    let src = "// x\nexport function add(a: i32): i32 { (a) }\n\nfunction two(): i32 { (2) }\n";
    let gen = "pub fn add(a: i32) -> i32 { a }\nfn other() {}\nfn two() -> i32 { 2 }\n";
    let s = find_fn_starts_src(src);
    // `\s*` at the start of the pattern also takes the blank line before `two`
    assert_eq!(s, vec![("add".to_string(), 2), ("two".to_string(), 3)]);
    let g = find_fn_starts_gen(gen);
    assert_eq!(g, vec![("add".to_string(), 1), ("other".to_string(), 2), ("two".to_string(), 3)]);
    let j = join_fn_starts(&s, &g);
    assert_eq!(j.len(), 2);
    assert_eq!((j[1].name.as_str(), j[1].src_start, j[1].gen_start), ("two", 3, 3));
    let f = file_line_map("g.rs".into(), "s.tsrust".into(), src, gen);
    assert_eq!(f.fns.len(), 2);
}

#[test]
fn generated_suffix_and_mapping() {
    assert_eq!(gen_suffix("C:\\out\\tsrust_gen\\a\\b.rs").as_deref(), Some("a/b.rs"));
    assert_eq!(gen_suffix("/x/tsrust_gen/y/tsrust_gen/z.rs").as_deref(), Some("z.rs"));
    assert_eq!(gen_suffix("/x/y.rs"), None);
    let maps = vec![CrateLineMap {
        files: vec![FileLineMap {
            gen_file: "/build/tsrust_gen/m.rs".into(),
            src_file: "src/m.tsrust".into(),
            fns: vec![
                FnLineMap { name: "a".into(), src_start: 10, gen_start: 3 },
                FnLineMap { name: "b".into(), src_start: 20, gen_start: 8 },
            ],
        }],
    }];
    assert_eq!(map_line(&maps, "/other/tsrust_gen/m.rs", 9), Some(("src/m.tsrust".to_string(), 21)));
    assert_eq!(map_line(&maps, "/other/tsrust_gen/m.rs", 8), Some(("src/m.tsrust".to_string(), 20)));
    assert_eq!(map_line(&maps, "/other/tsrust_gen/m.rs", 2), Some(("src/m.tsrust".to_string(), 2)));
    assert_eq!(map_line(&maps, "/other/n.rs", 2), None);
}

#[test]
fn tabs_and_token_columns() {
    assert_eq!(expand_tabs_to_cols("\tx", 4), "    x");
    assert_eq!(expand_tabs_to_cols("ab\tc", 4), "ab  c");
    assert_eq!(expand_tabs_to_cols("abcd\t", 4), "abcd    ");
    assert!(!expand_tabs_to_cols("\t\ta\tb", 3).contains('\t'));
    assert_eq!(expand_tabs_to_cols("\t", 4).len() % 4, 0);
    assert_eq!(find_token_col_at_or_after("let x = x + 1;", "x", 0), Some(4));
    assert_eq!(find_token_col_at_or_after("let x = x + 1;", "x", 5), Some(8));
    assert_eq!(find_token_col_at_or_after("let x = 1;", "y", 0), None);
    assert_eq!(find_token_col_at_or_after("abc", "", 0), Some(0));
    assert_eq!(find_col("import { A }", "A"), 10);
    assert_eq!(find_col("import { A }", "Z"), 1);
}

// ----- exports and imports -----

#[test]
fn export_scanning_and_import_lines() {
    let src = "export function f(\nexport const g = 1;\n  export { A, B as C };\nexport let f = 2;\n";
    let names = scan_exports(src);
    assert_eq!(names, vec!["A", "C", "f", "g"]);
    let names = scan_exports("export function zeta() {}\nexport const beta = 1;\nexport { alpha, Beta, beta };\n");
    assert_eq!(names, vec!["Beta", "alpha", "beta", "zeta"]);
    assert_eq!(names_of_list(" X , Y as Z ,, "), vec!["X", "Z"]);
    let (items, spec) = import_items_of_line("import { A, B as C } from \"./m\";").unwrap();
    assert_eq!(items, vec!["A", "C"]);
    assert_eq!(spec, "./m");
    assert!(import_items_of_line("import * as io from \"std.io\";").is_none());
    assert_eq!(std_lines_of("a\r\nb\n\nc\n"), vec!["a", "b", "", "c"]);
}

#[test]
fn export_index_and_validation() {
    let mut idx = ExportIndex::new();
    idx.insert("util.tsrust".into(), vec!["helper".into()]);
    idx.insert("a.tsrust".into(), vec!["helper".into(), "other".into()]);
    idx.insert("util.tsrust".into(), vec!["helper".into(), "more".into()]);
    assert_eq!(idx.per_module.len(), 2);
    assert_eq!(idx.per_module[0].0, "a.tsrust");
    assert_eq!(who_has(&idx, &"helper".to_string()), vec!["a.tsrust", "util.tsrust"]);
    assert_eq!(who_has(&idx, &"nothing".to_string()), Vec::<String>::new());

    let files = vec![SourceText {
        display: "src/main.tsrust".into(),
        dir: "src".into(),
        text: "import { helper, missing } from \"./util\";\nimport { z } from \"std.io\";\n".into(),
    }];
    let err = validate_imports("src", &files, &idx).unwrap_err();
    assert_eq!(err, "src/main.tsrust:1:18: `missing`\nis not exported by \"./util\"");
    let ok_files = vec![SourceText {
        display: "m".into(),
        dir: "src".into(),
        text: "import { helper } from \"./util\";\n".into(),
    }];
    assert!(validate_imports("src", &ok_files, &idx).is_ok());
    let hinted = vec![SourceText {
        display: "m".into(),
        dir: "src".into(),
        text: "import { other } from \"./util\";\n".into(),
    }];
    let e2 = validate_imports("src", &hinted, &idx).unwrap_err();
    assert_eq!(e2, "m:1:10: `other`\nis not exported by \"./util\"\n        hint: found `other` in ./a");
    assert_eq!(join_errors(&vec!["x".into(), "y".into()]), Err("x\n\ny".to_string()));
    // imports resolve from the importing file's directory
    let nested = vec![SourceText {
        display: "src/d/m.tsrust".into(),
        dir: "src/d".into(),
        text: "import { helper } from \"./util\";\nimport { helper } from \"../util\";\n".into(),
    }];
    let e3 = validate_imports("src", &nested, &idx).unwrap_err();
    assert_eq!(
        e3,
        "src/d/m.tsrust:1:10: `helper`\nis not exported by \"./util\"\n        hint: found `helper` in ./a, ./util"
    );
}

#[test]
fn project_index_from_files() {
    assert_eq!(key_of(&"src\\a\\b.tsrust".to_string(), None), "src/a/b.tsrust");
    assert_eq!(key_of(&"src/a.tsrust".to_string(), Some("x\\a.tsrust".to_string())), "x/a.tsrust");
    let files = vec![
        ("src/b.tsrust".to_string(), Some("export function f(\n".to_string())),
        ("src/a.tsrust".to_string(), None),
        ("src/d/a.tsrust".to_string(), Some("export const g = 1;".to_string())),
    ];
    let idx = build_export_index("src", &files);
    let keys: Vec<&str> = idx.per_module.iter().map(|e| e.0.as_str()).collect();
    assert_eq!(keys, vec!["b.tsrust", "d/a.tsrust"]);
    assert_eq!(module_key("src/x/y.tsrust", "src"), "x/y.tsrust");
    assert_eq!(module_key("other/y.tsrust", "src"), "other/y.tsrust");
}

// ----- module tree and generated app -----

#[test]
fn module_tree_glue() {
    let e1 = tree_entry(
        &vec![Some("b".into()), Some("x.rs".into())],
        &"x".to_string(),
        &"tsrust_gen/b/x.rs".to_string(),
    )
    .unwrap();
    let e2 = tree_entry(&vec![Some("top.rs".into())], &"top".to_string(), &"tsrust_gen/top.rs".to_string()).unwrap();
    let e3 = tree_entry(
        &vec![Some("a".into()), Some("y.rs".into())],
        &"y".to_string(),
        &"tsrust_gen\\a\\y.rs".to_string(),
    )
    .unwrap();
    assert!(tree_entry(&vec![Some("a".into()), None], &"a".to_string(), &"a".to_string()).is_none());
    let glue = module_glue(&vec![e1, e2, e3]);
    assert_eq!(
        glue,
        "pub mod a {\npub mod y { include!(concat!(env!(\"TSRUST_OUT\"), \"/tsrust_gen/a/y.rs\")); }\n}\n\
         pub mod b {\npub mod x { include!(concat!(env!(\"TSRUST_OUT\"), \"/tsrust_gen/b/x.rs\")); }\n}\n\
         pub mod top { include!(concat!(env!(\"TSRUST_OUT\"), \"/tsrust_gen/top.rs\")); }\n"
    );
    let t = ModTree::new();
    assert_eq!(t.glue(), "");
}

#[test]
fn generated_main_and_build_dir() {
    let mods = vec![("main".to_string(), "C:\\gen\\main.rs".to_string())];
    assert_eq!(
        main_rs_text(&mods, Some("main::run()")),
        "pub mod main { include!(\"C:\\\\gen\\\\main.rs\"); }\n\n\nfn main() {\n    // call user-provided entry expression\n    let _ = { main::run() };\n}\n"
    );
    assert_eq!(main_rs_text(&vec![], None), "\n\nfn main() {\n    // no entry specified; do nothing\n}\n");
    assert_eq!(build_dir_name(255), "tsrust_build_ff");
    assert_eq!(build_dir_name(0), "tsrust_build_0");
    assert_eq!(SourceMap::default().version, 1);
    assert!(SourceMap::default().mappings.is_empty());
}

// ----- diagnostics -----

fn store_with(path: &str, text: &str) -> FileStore {
    FileStore { files: vec![(path.to_string(), Some(text.to_string()))] }
}

#[test]
fn reading_stored_lines() {
    let store = store_with("s.tsrust", "one\n\ntwo\r\n  three  \n");
    let p = "s.tsrust".to_string();
    assert_eq!(read_line_1_based(&store, &p, 1).as_deref(), Some("one"));
    assert_eq!(read_line_1_based(&store, &p, 0).as_deref(), Some("one"));
    assert_eq!(read_line_1_based(&store, &p, 3).as_deref(), Some("two"));
    assert_eq!(read_line_1_based(&store, &p, 5), None);
    assert_eq!(read_next_non_empty_line(&store, &p, 2, 4), Some((3, "two".to_string())));
    assert_eq!(find_culprit_ahead(&store, &p, 2, "hre", 4), Some((4, 3, "  three  ".to_string())));
    assert_eq!(read_line_1_based(&store, &"none".to_string(), 1), None);
    assert_eq!(parse_or_one(&"42".to_string()), 42);
    assert_eq!(parse_or_one(&"99999999999999999999999".to_string()), 1);
    assert_eq!(parse_or_one(&"".to_string()), 1);
}

#[test]
fn stderr_rewrite_points_into_sources() {
    let maps = vec![CrateLineMap {
        files: vec![FileLineMap {
            gen_file: "/o/tsrust_gen/main.rs".into(),
            src_file: "src/main.tsrust".into(),
            fns: vec![FnLineMap { name: "f".into(), src_start: 5, gen_start: 1 }],
        }],
    }];
    let stderr = "error[E0425]: cannot find value `zz` in this scope\n --> /o/tsrust_gen/main.rs:2:5\n  |\n2 |     zz + 1\n  |     ^^ not found\n";
    let store = store_with("src/main.tsrust", "a\nb\nc\nd\nfunction f(): i32 {\n\tzz + 1\n}\n");
    let needed = files_to_read(stderr, &maps);
    assert!(needed.contains(&"src/main.tsrust".to_string()));
    let out = rewrite_stderr(stderr, &maps, &store, "", "");
    assert_eq!(
        out,
        "error[E0425]: cannot find value `zz` in this scope\n--> src/main.tsrust:6:2\n  |\n6 |     zz + 1\n  |     ^^ not found\n"
    );
    let app = rewrite_stderr_for_app(stderr, &maps, &store);
    assert_eq!(
        app,
        "error[E0425]: cannot find value `zz` in this scope\n--> src/main.tsrust:6:5\n  |\n6 |     zz + 1\n  |     ^^ not found\n"
    );
    assert_eq!(rewrite_stderr_for_app(stderr, &vec![], &store), stderr);
    assert_eq!(rewrite_stderr("plain output\n", &maps, &store, "", ""), "plain output\n");
}

#[test]
fn unmatched_rules_leave_text_alone() {
    let text = "let plain = 1;";
    assert_eq!(apply_rule(Rule::ForOf, text), text);
    assert_eq!(apply_rule(Rule::Coalesce, text), text);
    assert_eq!(rewrite_opt_chain(text.to_string()), text);
}

#[test]
fn printed_numbers_read_back() {
    for n in [0u128, 7, 10, 4096, usize::MAX as u128] {
        let mut s = String::new();
        push_decimal(&mut s, n);
        assert_eq!(parse_or_one(&s) as u128, n);
    }
}

#[test]
fn source_files_are_picked_by_extension() {
    assert!(is_source_file("src/util/math.tsrust"));
    assert!(is_source_file("main.tsrust"));
    assert!(!is_source_file("src/main.rs"));
    assert!(!is_source_file("src/.tsrust"));
    assert!(!is_source_file("src/tsrust"));
    assert!(!is_source_file("src/a.tsrust.bak"));
}

#[test]
fn module_names_are_file_stems() {
    assert_eq!(module_name_of("util/math.tsrust"), "math");
    assert_eq!(module_name_of("main.tsrust"), "main");
    assert_eq!(module_name_of("a/b.c.tsrust"), "b.c");
    assert_eq!(module_name_of(".hidden"), ".hidden");
    assert_eq!(module_name_of(""), "mod");
}

#[test]
fn a_build_without_sources_is_refused() {
    assert_eq!(require_sources(2, "src"), Ok(()));
    assert_eq!(require_sources(0, "src/app"), Err("No .tsrust files found under src/app".to_string()));
}
