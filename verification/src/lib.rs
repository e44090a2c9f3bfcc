//! tsrust: a small TypeScript-flavoured surface syntax that is transpiled to Rust.
pub mod text;
pub mod paths;
pub mod filepaths;
pub mod ast;
pub mod lexer;
pub mod parser_items;
pub mod parser;
pub mod lowering;
pub mod rewrite;
pub mod pattern;
pub mod body;
pub mod transpile;
pub mod sourcemap;
pub mod linemap;
pub mod exports;
pub mod diagnostics;
pub mod modtree;
pub mod project;
pub mod switch_count;
pub mod laws;
pub mod more_laws;
