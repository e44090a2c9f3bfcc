//! Parser from tsrust source to a `Module`.
use vstd::prelude::*;
use vstd::string::*;
use crate::ast::{ArrowBody, ArrowDecl, ExportLocal, ExportStar, FnDecl, ImportDecl, ImportItem, Item, Module, ReExportDecl, Span, SpecArrowBody, SpecArrowDecl, SpecFnDecl, SpecImportItem, SpecItem, TypeExpr, import_items_view, items_view, strings_view};
use crate::lexer::{Lexer, SpecTok, Tok, TokKind, Token, lemma_token_spans, token_views, tokenize_spec};
use crate::parser_items::{parse_import_item, parse_params, spec_import_item, spec_parse_params, spec_split_items, split_items};
use crate::pattern::{slice_of, trimmed_string};
use crate::text::{ascii_at, byte_units, chars_of, units_of, lemma_unit_bytes, lemma_unit_cut, push_char, push_str, trim, trimmed, unit_cut, unit_text};
use crate::lexer::lemma_token_ascii;
use vstd::utf8::*;

verus! {

pub type Toks = Seq<(SpecTok, Span)>;

/// A number naming each token kind, ignoring carried text.
pub open spec fn spec_tag(k: SpecTok) -> u8 {
    match k {
        Tok::Ident(_) => 0,
        Tok::Number(_) => 1,
        Tok::Str(_) => 2,
        Tok::Import => 3,
        Tok::Export => 4,
        Tok::From => 5,
        Tok::As => 6,
        Tok::Function => 7,
        Tok::Return => 8,
        Tok::Let => 9,
        Tok::Const => 10,
        Tok::Pub => 11,
        Tok::Move => 12,
        Tok::LParen => 13,
        Tok::RParen => 14,
        Tok::LBrace => 15,
        Tok::RBrace => 16,
        Tok::Comma => 17,
        Tok::Colon => 18,
        Tok::Semicolon => 19,
        Tok::Star => 20,
        Tok::Eq => 21,
        Tok::Dot => 22,
        Tok::Question => 23,
        Tok::FatArrow => 24,
    }
}

pub const T_IDENT: u8 = 0;
pub const T_STR: u8 = 2;
pub const T_IMPORT: u8 = 3;
pub const T_EXPORT: u8 = 4;
pub const T_FROM: u8 = 5;
pub const T_AS: u8 = 6;
pub const T_FUNCTION: u8 = 7;
pub const T_LET: u8 = 9;
pub const T_CONST: u8 = 10;
pub const T_MOVE: u8 = 12;
pub const T_LPAREN: u8 = 13;
pub const T_RPAREN: u8 = 14;
pub const T_LBRACE: u8 = 15;
pub const T_RBRACE: u8 = 16;
pub const T_COLON: u8 = 18;
pub const T_STAR: u8 = 20;
pub const T_EQ: u8 = 21;
pub const T_FAT_ARROW: u8 = 24;

fn tag(k: &TokKind) -> (r: u8)
    ensures
        r == spec_tag(k@),
{
    match k {
        Tok::Ident(_) => 0,
        Tok::Number(_) => 1,
        Tok::Str(_) => 2,
        Tok::Import => 3,
        Tok::Export => 4,
        Tok::From => 5,
        Tok::As => 6,
        Tok::Function => 7,
        Tok::Return => 8,
        Tok::Let => 9,
        Tok::Const => 10,
        Tok::Pub => 11,
        Tok::Move => 12,
        Tok::LParen => 13,
        Tok::RParen => 14,
        Tok::LBrace => 15,
        Tok::RBrace => 16,
        Tok::Comma => 17,
        Tok::Colon => 18,
        Tok::Semicolon => 19,
        Tok::Star => 20,
        Tok::Eq => 21,
        Tok::Dot => 22,
        Tok::Question => 23,
        Tok::FatArrow => 24,
    }
}

/// How a token is spelled when token runs are glued back into text.
pub open spec fn tok_text(k: SpecTok) -> Seq<char> {
    match k {
        Tok::Ident(s) => s,
        Tok::Number(s) => s,
        Tok::Str(s) => seq!['"'] + s + seq!['"'],
        Tok::Question => seq!['?'],
        Tok::FatArrow => seq!['=', '>'],
        Tok::Comma => seq![','],
        Tok::Colon => seq![':'],
        Tok::Semicolon => seq![';'],
        Tok::Dot => seq!['.'],
        Tok::Star => seq!['*'],
        Tok::Eq => seq!['='],
        Tok::As => seq![' ', 'a', 's', ' '],
        Tok::LParen => seq!['('],
        Tok::RParen => seq![')'],
        _ => Seq::empty(),
    }
}

fn push_tok_text(out: &mut String, k: &TokKind)
    ensures
        final(out)@ == old(out)@ + tok_text(k@),
{
    match k {
        Tok::Ident(s) => push_str(out, s.as_str()),
        Tok::Number(s) => push_str(out, s.as_str()),
        Tok::Str(s) => {
            push_char(out, '"');
            push_str(out, s.as_str());
            push_char(out, '"');
            assert(out@ =~= old(out)@ + tok_text(k@));
        },
        Tok::Question => {
            push_char(out, '?');
            assert(out@ =~= old(out)@ + tok_text(k@));
        },
        Tok::FatArrow => {
            push_char(out, '=');
            push_char(out, '>');
            assert(out@ =~= old(out)@ + tok_text(k@));
        },
        Tok::Comma => {
            push_char(out, ',');
            assert(out@ =~= old(out)@ + tok_text(k@));
        },
        Tok::Colon => {
            push_char(out, ':');
            assert(out@ =~= old(out)@ + tok_text(k@));
        },
        Tok::Semicolon => {
            push_char(out, ';');
            assert(out@ =~= old(out)@ + tok_text(k@));
        },
        Tok::Dot => {
            push_char(out, '.');
            assert(out@ =~= old(out)@ + tok_text(k@));
        },
        Tok::Star => {
            push_char(out, '*');
            assert(out@ =~= old(out)@ + tok_text(k@));
        },
        Tok::Eq => {
            push_char(out, '=');
            assert(out@ =~= old(out)@ + tok_text(k@));
        },
        Tok::As => {
            push_char(out, ' ');
            push_char(out, 'a');
            push_char(out, 's');
            push_char(out, ' ');
            assert(out@ =~= old(out)@ + tok_text(k@));
        },
        Tok::LParen => {
            push_char(out, '(');
            assert(out@ =~= old(out)@ + tok_text(k@));
        },
        Tok::RParen => {
            push_char(out, ')');
            assert(out@ =~= old(out)@ + tok_text(k@));
        },
        _ => {
            assert(out@ =~= old(out)@ + tok_text(k@));
        },
    }
}

// ----- parser state transitions over tokens `t` and source `s` -----

pub open spec fn at_tag(t: Toks, i: int, g: u8) -> bool {
    0 <= i < t.len() && spec_tag(t[i].0) == g
}

/// Position after consuming one token (the position stays put at the end).
pub open spec fn bumped(t: Toks, i: int) -> int {
    if 0 <= i < t.len() {
        i + 1
    } else {
        i
    }
}

/// First position at or after `i` whose token ends after `pos`.
pub open spec fn advance_to(t: Toks, i: int, pos: int) -> int
    decreases t.len() - i,
{
    if 0 <= i < t.len() && t[i].1.end <= pos {
        advance_to(t, i + 1, pos)
    } else {
        i
    }
}

/// Position of the `}` closing a block whose depth is `d` at `pos`.
pub open spec fn brace_close(s: Seq<char>, pos: int, d: int) -> Option<int>
    decreases s.len() - pos,
{
    if pos < 0 || pos >= s.len() {
        None
    } else if s[pos] == '{' {
        brace_close(s, pos + 1, d + 1)
    } else if s[pos] == '}' {
        if d - 1 == 0 {
            Some(pos)
        } else {
            brace_close(s, pos + 1, d - 1)
        }
    } else {
        brace_close(s, pos + 1, d)
    }
}

/// A raw block body read from `start`: its trimmed text, the position after its
/// closing brace, and the token position moved past it. An unclosed block reads as
/// empty and consumes nothing.
pub open spec fn raw_block(s: Seq<char>, t: Toks, i: int, start: int) -> (Seq<char>, int, int) {
    match brace_close(s, start, 1) {
        Some(p) => (trim(unit_text(s, start, p)), p + 1, advance_to(t, i, p + 1)),
        None => (Seq::empty(), start, i),
    }
}

/// End of a raw expression from `k`: just past the first `;`, or at the first line feed,
/// or at the end of `s`.
pub open spec fn stmt_end(s: Seq<char>, k: int) -> int
    decreases s.len() - k,
{
    if k < 0 || k >= s.len() {
        s.len() as int
    } else if s[k] == ';' {
        k + 1
    } else if s[k] == '\n' {
        k
    } else {
        stmt_end(s, k + 1)
    }
}

/// Where a raw expression ends, the text can be cut.
pub proof fn lemma_stmt_end_cut(s: Seq<char>, k: int)
    requires
        0 <= k <= s.len(),
    ensures
        k <= stmt_end(s, k) <= s.len(),
        unit_cut(s, stmt_end(s, k)),
    decreases s.len() - k,
{
    if k < s.len() && s[k] != ';' && s[k] != '\n' {
        lemma_stmt_end_cut(s, k + 1);
    }
}

pub open spec fn raw_expr(s: Seq<char>, t: Toks, i: int, start: int) -> (Seq<char>, int, int) {
    let e = stmt_end(s, start);
    (trim(unit_text(s, start, e)), e, advance_to(t, i, e))
}

/// Text of the tokens up to the `)` closing depth `d`, and the position after it.
pub open spec fn paren_text(t: Toks, i: int, d: int, acc: Seq<char>) -> (Seq<char>, int)
    decreases t.len() - i,
{
    if i < 0 || i >= t.len() {
        (acc, i)
    } else {
        let k = t[i].0;
        if spec_tag(k) == T_LPAREN {
            paren_text(t, i + 1, d + 1, acc.push('('))
        } else if spec_tag(k) == T_RPAREN {
            if d - 1 == 0 {
                (acc, i + 1)
            } else {
                paren_text(t, i + 1, d - 1, acc.push(')'))
            }
        } else {
            paren_text(t, i + 1, d, acc + tok_text(k))
        }
    }
}

/// Text of the tokens before the first token of kind `g`, and that token's position.
pub open spec fn text_until(t: Toks, i: int, g: u8, acc: Seq<char>) -> (Seq<char>, int)
    decreases t.len() - i,
{
    if i < 0 || i >= t.len() || spec_tag(t[i].0) == g {
        (acc, i)
    } else {
        text_until(t, i + 1, g, acc + tok_text(t[i].0))
    }
}

/// Text of a `{ ... }` list whose depth is `d` at `i`, the position after its closing
/// brace, and the end of the last token read (starting from `end`).
pub open spec fn group_text(t: Toks, i: int, d: int, acc: Seq<char>, end: int) -> (Seq<char>, int, int)
    decreases t.len() - i,
{
    if i < 0 || i >= t.len() {
        (acc, i, end)
    } else {
        let k = t[i].0;
        let e = t[i].1.end as int;
        if spec_tag(k) == T_LBRACE {
            group_text(t, i + 1, d + 1, acc.push('{'), e)
        } else if spec_tag(k) == T_RBRACE {
            if d - 1 == 0 {
                (acc, i + 1, e)
            } else {
                group_text(t, i + 1, d - 1, acc.push('}'), e)
            }
        } else {
            group_text(t, i + 1, d, acc + tok_text(k), e)
        }
    }
}

pub open spec fn ident_at(t: Toks, i: int) -> Option<Seq<char>> {
    if 0 <= i < t.len() {
        match t[i].0 {
            Tok::Ident(x) => Some(x),
            _ => None,
        }
    } else {
        None
    }
}

pub open spec fn str_at(t: Toks, i: int) -> Option<Seq<char>> {
    if 0 <= i < t.len() {
        match t[i].0 {
            Tok::Str(x) => Some(x),
            _ => None,
        }
    } else {
        None
    }
}

pub open spec fn sp(a: int, b: int) -> Span {
    Span { start: a as usize, end: b as usize }
}

/// `import * as alias from "path"` or `import { ... } from "path"` at `i`.
#[verifier::opaque]
pub open spec fn p_import(s: Seq<char>, t: Toks, i: int) -> (Option<SpecItem>, int) {
    if !(0 <= i < t.len()) {
        (None, i)
    } else {
        let start = t[i].1.start as int;
        let i1 = i + 1;
        if at_tag(t, i1, T_STAR) {
            let i2 = i1 + 1;
            if !at_tag(t, i2, T_AS) {
                (None, i2)
            } else {
                let i3 = i2 + 1;
                match ident_at(t, i3) {
                    None => (None, bumped(t, i3)),
                    Some(alias) => {
                        let i4 = i3 + 1;
                        if !at_tag(t, i4, T_FROM) {
                            (None, i4)
                        } else {
                            let i5 = i4 + 1;
                            match str_at(t, i5) {
                                None => (None, bumped(t, i5)),
                                Some(path) => {
                                    let i6 = i5 + 1;
                                    let end = if i6 < t.len() { t[i6].1.end as int } else { start };
                                    (
                                        Some(SpecItem::Import {
                                            items: seq![SpecImportItem::StarAs(alias)],
                                            from: path,
                                            span: sp(start, end),
                                        }),
                                        i6,
                                    )
                                },
                            }
                        }
                    },
                }
            }
        } else if !at_tag(t, i1, T_LBRACE) {
            (None, i1)
        } else {
            let (raw, j, end) = group_text(t, i1 + 1, 1, Seq::empty(), start);
            let j2 = if at_tag(t, j, T_RBRACE) { j + 1 } else { j };
            if !at_tag(t, j2, T_FROM) {
                (None, j2)
            } else {
                let j3 = j2 + 1;
                match str_at(t, j3) {
                    None => (None, bumped(t, j3)),
                    Some(path) => (
                        Some(SpecItem::Import {
                            items: spec_split_items(raw).map_values(|x: Seq<char>| spec_import_item(x)),
                            from: path,
                            span: sp(start, end),
                        }),
                        j3 + 1,
                    ),
                }
            }
        }
    }
}

/// `function name(params): ret { body }` at `i`.
#[verifier::opaque]
pub open spec fn p_fn(s: Seq<char>, t: Toks, i: int, exported: bool) -> (Option<SpecFnDecl>, int) {
    if !(0 <= i < t.len()) {
        (None, i)
    } else {
        let start = t[i].1.start as int;
        let i1 = i + 1;
        match ident_at(t, i1) {
            None => (None, bumped(t, i1)),
            Some(name) => {
                let i2 = i1 + 1;
                let i3 = if at_tag(t, i2, T_LPAREN) { i2 + 1 } else { i2 };
                let (psrc, i4) = paren_text(t, i3, 1, Seq::empty());
                let params = spec_parse_params(psrc, start as usize);
                let (ret, i6) = if at_tag(t, i4, T_COLON) {
                    let (ty, j) = text_until(t, i4 + 1, T_LBRACE, Seq::empty());
                    (Some(trim(ty)), j)
                } else {
                    (None, i4)
                };
                if !(0 <= i6 < t.len()) {
                    (None, i6)
                } else if spec_tag(t[i6].0) != T_LBRACE {
                    (None, i6 + 1)
                } else {
                    let (body, end, i8) = raw_block(s, t, i6 + 1, t[i6].1.end as int);
                    (
                        Some(SpecFnDecl { exported, name, params, ret, body_src: body, span: sp(start, end) }),
                        i8,
                    )
                }
            },
        }
    }
}

/// `const|let name = [move] (params): ret => body` at `i`.
#[verifier::opaque]
pub open spec fn p_var_arrow(s: Seq<char>, t: Toks, i: int, is_exported: bool) -> (Option<SpecArrowDecl>, int) {
    if !(0 <= i < t.len()) {
        (None, i)
    } else if !(spec_tag(t[i].0) == T_CONST || spec_tag(t[i].0) == T_LET) {
        (None, i + 1)
    } else {
        let start = t[i].1.start as int;
        let i1 = i + 1;
        match ident_at(t, i1) {
            None => (None, bumped(t, i1)),
            Some(name) => {
                let i2 = i1 + 1;
                if !at_tag(t, i2, T_EQ) {
                    (None, i2)
                } else {
                    let i3 = i2 + 1;
                    let is_move = at_tag(t, i3, T_MOVE);
                    let i4 = if is_move { i3 + 1 } else { i3 };
                    if !at_tag(t, i4, T_LPAREN) {
                        (None, i4)
                    } else {
                        let (psrc, i6) = paren_text(t, i4 + 1, 1, Seq::empty());
                        let params = spec_parse_params(psrc, start as usize);
                        if !at_tag(t, i6, T_COLON) {
                            (None, i6)
                        } else {
                            let (rt, i8) = text_until(t, i6 + 1, T_FAT_ARROW, Seq::empty());
                            let ret = trim(rt);
                            let i9 = if at_tag(t, i8, T_FAT_ARROW) { i8 + 1 } else { i8 };
                            if at_tag(t, i9, T_LBRACE) {
                                let (body, end, i11) = raw_block(s, t, i9 + 1, t[i9].1.end as int);
                                (
                                    Some(SpecArrowDecl {
                                        name,
                                        params,
                                        ret,
                                        body: SpecArrowBody::Block(body),
                                        is_exported,
                                        is_move,
                                        span: sp(start, end),
                                    }),
                                    i11,
                                )
                            } else {
                                let from = if i9 < t.len() { t[i9].1.start as int } else { s.len() as int };
                                let (body, end, i10) = raw_expr(s, t, i9, from);
                                (
                                    Some(SpecArrowDecl {
                                        name,
                                        params,
                                        ret,
                                        body: SpecArrowBody::Expr(body),
                                        is_exported,
                                        is_move,
                                        span: sp(start, end),
                                    }),
                                    i10,
                                )
                            }
                        }
                    }
                }
            },
        }
    }
}

pub open spec fn set_exported(f: SpecFnDecl) -> SpecFnDecl {
    SpecFnDecl { exported: true, ..f }
}

/// The forms that can follow `export`, at `i` (the `export` keyword itself).
#[verifier::opaque]
pub open spec fn p_export(s: Seq<char>, t: Toks, i: int) -> (Option<SpecItem>, int) {
    let i1 = bumped(t, i);
    let (va, i2) = if at_tag(t, i1, T_CONST) || at_tag(t, i1, T_LET) {
        p_var_arrow(s, t, i1, true)
    } else {
        (None, i1)
    };
    if va is Some {
        (Some(SpecItem::ExportedArrow(va.unwrap())), i2)
    } else if at_tag(t, i2, T_FUNCTION) {
        let (f, j) = p_fn(s, t, i2, true);
        match f {
            Some(f) => (Some(SpecItem::ExportedFn(set_exported(f))), j),
            None => (None, j),
        }
    } else {
        let star = at_tag(t, i2, T_STAR);
        let i3 = if star { i2 + 1 } else { i2 };
        if star && at_tag(t, i3, T_FROM) {
            let i4 = i3 + 1;
            match str_at(t, i4) {
                Some(p) => (Some(SpecItem::ExportStar { from: p, span: sp(0, 0) }), i4 + 1),
                None => (None, bumped(t, i4)),
            }
        } else if at_tag(t, i3, T_LBRACE) {
            let (raw, j, _e) = group_text(t, i3 + 1, 1, Seq::empty(), 0);
            let items = spec_split_items(raw);
            if at_tag(t, j, T_FROM) {
                match str_at(t, j + 1) {
                    Some(p) => (Some(SpecItem::ReExport { items, from: p, span: sp(0, 0) }), j + 2),
                    None => (None, bumped(t, j + 1)),
                }
            } else {
                (Some(SpecItem::ReExportLocal { items, span: sp(0, 0) }), j)
            }
        } else if at_tag(t, i3, T_CONST) || at_tag(t, i3, T_LET) {
            let (a, j) = p_var_arrow(s, t, i3, true);
            match a {
                Some(a) => (Some(SpecItem::ExportedArrow(a)), j),
                None => (None, j),
            }
        } else {
            (None, i3)
        }
    }
}


// ----- positions only move forward and stay within the tokens -----

pub proof fn lemma_advance_to(t: Toks, i: int, pos: int)
    requires
        0 <= i <= t.len(),
    ensures
        i <= advance_to(t, i, pos) <= t.len(),
    decreases t.len() - i,
{
    if i < t.len() && t[i].1.end <= pos {
        lemma_advance_to(t, i + 1, pos);
    }
}

pub proof fn lemma_paren_text(t: Toks, i: int, d: int, acc: Seq<char>)
    requires
        0 <= i <= t.len(),
    ensures
        i <= paren_text(t, i, d, acc).1 <= t.len(),
    decreases t.len() - i,
{
    if i < t.len() {
        let k = t[i].0;
        if spec_tag(k) == T_LPAREN {
            lemma_paren_text(t, i + 1, d + 1, acc.push('('));
        } else if spec_tag(k) == T_RPAREN {
            if d - 1 != 0 {
                lemma_paren_text(t, i + 1, d - 1, acc.push(')'));
            }
        } else {
            lemma_paren_text(t, i + 1, d, acc + tok_text(k));
        }
    }
}

pub proof fn lemma_text_until(t: Toks, i: int, g: u8, acc: Seq<char>)
    requires
        0 <= i <= t.len(),
    ensures
        i <= text_until(t, i, g, acc).1 <= t.len(),
    decreases t.len() - i,
{
    if i < t.len() && spec_tag(t[i].0) != g {
        lemma_text_until(t, i + 1, g, acc + tok_text(t[i].0));
    }
}

pub proof fn lemma_group_text(t: Toks, i: int, d: int, acc: Seq<char>, end: int)
    requires
        0 <= i <= t.len(),
    ensures
        i <= group_text(t, i, d, acc, end).1 <= t.len(),
    decreases t.len() - i,
{
    if i < t.len() {
        let k = t[i].0;
        let e = t[i].1.end as int;
        if spec_tag(k) == T_LBRACE {
            lemma_group_text(t, i + 1, d + 1, acc.push('{'), e);
        } else if spec_tag(k) == T_RBRACE {
            if d - 1 != 0 {
                lemma_group_text(t, i + 1, d - 1, acc.push('}'), e);
            }
        } else {
            lemma_group_text(t, i + 1, d, acc + tok_text(k), e);
        }
    }
}

pub proof fn lemma_p_import(s: Seq<char>, t: Toks, i: int)
    requires
        0 <= i < t.len(),
    ensures
        i < p_import(s, t, i).1 <= t.len(),
{
    reveal(p_import);
    if i + 2 <= t.len() {
        lemma_group_text(t, i + 2, 1, Seq::empty(), t[i].1.start as int);
    }
}

pub proof fn lemma_p_fn(s: Seq<char>, t: Toks, i: int, exported: bool)
    requires
        0 <= i < t.len(),
    ensures
        i < p_fn(s, t, i, exported).1 <= t.len(),
{
    reveal(p_fn);
    let i2 = i + 2;
    if i2 <= t.len() {
        let i3 = if at_tag(t, i2, T_LPAREN) { i2 + 1 } else { i2 };
        lemma_paren_text(t, i3, 1, Seq::empty());
        let i4 = paren_text(t, i3, 1, Seq::empty()).1;
        if at_tag(t, i4, T_COLON) {
            lemma_text_until(t, i4 + 1, T_LBRACE, Seq::empty());
        }
        let i6 = if at_tag(t, i4, T_COLON) { text_until(t, i4 + 1, T_LBRACE, Seq::empty()).1 } else { i4 };
        if 0 <= i6 < t.len() {
            lemma_advance_to(t, i6 + 1, 0);
            match brace_close(s, t[i6].1.end as int, 1) {
                Some(p) => lemma_advance_to(t, i6 + 1, p + 1),
                None => {},
            }
        }
    }
}

pub proof fn lemma_p_var_arrow(s: Seq<char>, t: Toks, i: int, e: bool)
    requires
        0 <= i < t.len(),
    ensures
        i < p_var_arrow(s, t, i, e).1 <= t.len(),
{
    reveal(p_var_arrow);
    let i3 = i + 3;
    if i3 <= t.len() {
        let i4 = if at_tag(t, i3, T_MOVE) { i3 + 1 } else { i3 };
        if at_tag(t, i4, T_LPAREN) {
            lemma_paren_text(t, i4 + 1, 1, Seq::empty());
            let i6 = paren_text(t, i4 + 1, 1, Seq::empty()).1;
            if at_tag(t, i6, T_COLON) {
                lemma_text_until(t, i6 + 1, T_FAT_ARROW, Seq::empty());
                let i8 = text_until(t, i6 + 1, T_FAT_ARROW, Seq::empty()).1;
                let i9 = if at_tag(t, i8, T_FAT_ARROW) { i8 + 1 } else { i8 };
                if at_tag(t, i9, T_LBRACE) {
                    match brace_close(s, t[i9].1.end as int, 1) {
                        Some(p) => lemma_advance_to(t, i9 + 1, p + 1),
                        None => {},
                    }
                } else {
                    let from = if i9 < t.len() { t[i9].1.start as int } else { s.len() as int };
                    lemma_advance_to(t, i9, stmt_end(s, from));
                }
            }
        }
    }
}

pub proof fn lemma_p_export(s: Seq<char>, t: Toks, i: int)
    requires
        0 <= i < t.len(),
    ensures
        i < p_export(s, t, i).1 <= t.len(),
{
    reveal(p_export);
    let i1 = i + 1;
    if at_tag(t, i1, T_CONST) || at_tag(t, i1, T_LET) {
        lemma_p_var_arrow(s, t, i1, true);
    }
    let i2 = if at_tag(t, i1, T_CONST) || at_tag(t, i1, T_LET) { p_var_arrow(s, t, i1, true).1 } else { i1 };
    if at_tag(t, i2, T_FUNCTION) {
        lemma_p_fn(s, t, i2, true);
    }
    let i3 = if at_tag(t, i2, T_STAR) { i2 + 1 } else { i2 };
    if at_tag(t, i3, T_LBRACE) {
        lemma_group_text(t, i3 + 1, 1, Seq::empty(), 0);
    }
    if at_tag(t, i3, T_CONST) || at_tag(t, i3, T_LET) {
        lemma_p_var_arrow(s, t, i3, true);
    }
}

/// One step of reading a module at token position `i`: an `import`, an `export` form
/// or a `function` is tried in turn; when none parses, the position where the last
/// attempt stopped is advanced by one more token.
#[verifier::opaque]
pub open spec fn module_step(s: Seq<char>, t: Toks, i: int) -> (Option<SpecItem>, int) {
    let (r1, j1) = if at_tag(t, i, T_IMPORT) { p_import(s, t, i) } else { (None, i) };
    if r1 is Some {
        (r1, j1)
    } else {
        let (r2, j2) = if at_tag(t, j1, T_EXPORT) { p_export(s, t, j1) } else { (None, j1) };
        if r2 is Some {
            (r2, j2)
        } else {
            let (r3, j3) = if at_tag(t, j2, T_FUNCTION) { p_fn(s, t, j2, false) } else { (None, j2) };
            if r3 is Some {
                (Some(SpecItem::Fn(r3.unwrap())), j3)
            } else {
                (None, j3 + 1)
            }
        }
    }
}

pub proof fn lemma_module_step(s: Seq<char>, t: Toks, i: int)
    requires
        0 <= i < t.len(),
    ensures
        i < module_step(s, t, i).1 <= t.len() + 1,
{
    reveal(module_step);
    lemma_p_import(s, t, i);
    let j1 = if at_tag(t, i, T_IMPORT) { p_import(s, t, i).1 } else { i };
    if at_tag(t, j1, T_EXPORT) {
        lemma_p_export(s, t, j1);
    }
    let j2 = if at_tag(t, j1, T_EXPORT) { p_export(s, t, j1).1 } else { j1 };
    if at_tag(t, j2, T_FUNCTION) {
        lemma_p_fn(s, t, j2, false);
    }
}

/// The items of a module read from token position `i`, after `items`.
pub open spec fn p_module(s: Seq<char>, t: Toks, i: int, items: Seq<SpecItem>) -> Seq<SpecItem>
    decreases t.len() + 1 - i,
{
    if !(0 <= i < t.len()) {
        items
    } else {
        proof {
            lemma_module_step(s, t, i);
        }
        let (r, j) = module_step(s, t, i);
        p_module(
            s,
            t,
            j,
            match r {
                Some(x) => items.push(x),
                None => items,
            },
        )
    }
}

/// The module parsed from the source `s`.
pub open spec fn spec_parse_module(src: Seq<char>) -> Seq<SpecItem> {
    let s = byte_units(encode_utf8(src));
    p_module(s, tokenize_spec(s), 0, Seq::empty())
}


pub open spec fn opt_item_view(r: Option<Item>) -> Option<SpecItem> {
    match r {
        Some(x) => Some(x@),
        None => None,
    }
}

pub open spec fn opt_fn_view(r: Option<FnDecl>) -> Option<SpecFnDecl> {
    match r {
        Some(x) => Some(x@),
        None => None,
    }
}

pub open spec fn opt_arrow_view(r: Option<ArrowDecl>) -> Option<SpecArrowDecl> {
    match r {
        Some(x) => Some(x@),
        None => None,
    }
}

struct Parser<'a> {
    text: &'a str,
    src: Vec<char>,
    toks: Vec<Token>,
    i: usize,
}

impl<'a> Parser<'a> {
    spec fn t(&self) -> Toks {
        token_views(self.toks@)
    }

    spec fn inv(&self) -> bool {
        &&& self.i <= self.toks.len()
        &&& self.src@.len() <= usize::MAX
        &&& self.src@ == byte_units(self.text.spec_bytes())
        &&& forall|k: int|
            0 <= k < self.toks@.len() ==> (#[trigger] self.toks@[k]).span.start <= self.toks@[k].span.end
                <= self.src@.len()
        &&& forall|k: int|
            0 <= k < self.toks@.len() ==> ascii_at(self.src@, (#[trigger] self.toks@[k]).span.start as int) && (
            self.toks@[k].span.end == self.src@.len() || ascii_at(self.src@, self.toks@[k].span.end - 1))
    }

    spec fn same(&self, other: &Parser<'a>) -> bool {
        self.src@ == other.src@ && self.toks@ == other.toks@ && self.text@ == other.text@
    }

    fn at(&self, g: u8) -> (r: bool)
        requires
            self.inv(),
        ensures
            r == at_tag(self.t(), self.i as int, g),
    {
        self.i < self.toks.len() && tag(&self.toks[self.i].kind) == g
    }

    fn bump(&mut self)
        requires
            old(self).inv(),
        ensures
            final(self).inv(),
            final(self).same(old(self)),
            final(self).i == bumped(old(self).t(), old(self).i as int),
    {
        if self.i < self.toks.len() {
            self.i += 1;
        }
    }

    fn advance_tokens_to(&mut self, pos: usize)
        requires
            old(self).inv(),
        ensures
            final(self).inv(),
            final(self).same(old(self)),
            final(self).i == advance_to(old(self).t(), old(self).i as int, pos as int),
    {
        let ghost t = self.t();
        while self.i < self.toks.len() && self.toks[self.i].span.end <= pos
            invariant
                self.inv(),
                self.same(old(self)),
                t == self.t(),
                advance_to(t, old(self).i as int, pos as int) == advance_to(t, self.i as int, pos as int),
            decreases self.toks.len() - self.i,
        {
            self.i += 1;
        }
    }

    fn collect_raw_brace_block_from(&mut self, start: usize) -> (r: (String, usize))
        requires
            old(self).inv(),
            unit_cut(old(self).src@, start as int),
        ensures
            final(self).inv(),
            final(self).same(old(self)),
            (r.0@, r.1 as int, final(self).i as int) == raw_block(
                old(self).src@,
                old(self).t(),
                old(self).i as int,
                start as int,
            ),
    {
        let ghost s = self.src@;
        let mut depth: i128 = 1;
        let mut pos = start;
        while pos < self.src.len()
            invariant
                self.inv(),
                self.same(old(self)),
                s == self.src@,
                self.i == old(self).i,
                start <= pos <= s.len(),
                unit_cut(s, start as int),
                1 <= depth <= 1 + pos - start,
                brace_close(s, start as int, 1) == brace_close(s, pos as int, depth as int),
            decreases s.len() - pos,
        {
            let c = self.src[pos];
            if c == '{' {
                depth += 1;
            } else if c == '}' {
                if depth == 1 {
                    assert(brace_close(s, pos as int, 1) == Some(pos as int));
                    proof {
                        let bytes = self.text.spec_bytes();
                        encode_utf8_valid_utf8(self.text@);
                        assert(ascii_at(s, pos as int));
                        lemma_unit_cut(bytes, start as int);
                        lemma_unit_cut(bytes, pos as int);
                        lemma_unit_bytes(bytes, start as int, pos as int);
                    }
                    let text = trimmed_string(&slice_of(self.text, start, pos));
                    let end = pos + 1;
                    self.advance_tokens_to(end);
                    return (text, end);
                }
                depth -= 1;
            }
            pos += 1;
        }
        assert(brace_close(s, pos as int, depth as int) is None);
        (String::new(), start)
    }

    fn collect_raw_until_semicolon_from(&mut self, start: usize) -> (r: (String, usize))
        requires
            old(self).inv(),
            unit_cut(old(self).src@, start as int),
        ensures
            final(self).inv(),
            final(self).same(old(self)),
            (r.0@, r.1 as int, final(self).i as int) == raw_expr(
                old(self).src@,
                old(self).t(),
                old(self).i as int,
                start as int,
            ),
    {
        let ghost s = self.src@;
        let mut k = start;
        let mut end = self.src.len();
        while k < self.src.len()
            invariant_except_break
                end == s.len(),
                stmt_end(s, start as int) == stmt_end(s, k as int),
            invariant
                self.same(old(self)),
                s == self.src@,
                start <= k <= s.len(),
            ensures
                end == stmt_end(s, start as int),
                start <= end <= s.len(),
            decreases s.len() - k,
        {
            if self.src[k] == ';' {
                end = k + 1;
                break;
            }
            if self.src[k] == '\n' {
                end = k;
                break;
            }
            k += 1;
        }
        proof {
            let bytes = self.text.spec_bytes();
            encode_utf8_valid_utf8(self.text@);
            lemma_stmt_end_cut(s, start as int);
            lemma_unit_cut(bytes, start as int);
            lemma_unit_cut(bytes, end as int);
            lemma_unit_bytes(bytes, start as int, end as int);
        }
        let text = trimmed_string(&slice_of(self.text, start, end));
        self.advance_tokens_to(end);
        (text, end)
    }

    fn collect_until_paren_close(&mut self) -> (r: String)
        requires
            old(self).inv(),
        ensures
            final(self).inv(),
            final(self).same(old(self)),
            (r@, final(self).i as int) == paren_text(old(self).t(), old(self).i as int, 1, Seq::empty()),
    {
        let ghost t = self.t();
        let mut d: i128 = 1;
        let mut out = String::new();
        let ghost i0 = self.i as int;
        while self.i < self.toks.len()
            invariant
                self.inv(),
                self.same(old(self)),
                t == self.t(),
                t == old(self).t(),
                i0 == old(self).i,
                i0 <= self.i,
                1 <= d <= 1 + self.i - i0,
                paren_text(t, i0, 1, Seq::empty()) == paren_text(t, self.i as int, d as int, out@),
            decreases self.toks.len() - self.i,
        {
            let g = tag(&self.toks[self.i].kind);
            assert(self.toks@[self.i as int]@ == t[self.i as int]);
            let ghost k = t[self.i as int].0;
            assert(paren_text(t, self.i as int, d as int, out@) == if spec_tag(k) == T_LPAREN {
                paren_text(t, self.i + 1, d + 1, out@.push('('))
            } else if spec_tag(k) == T_RPAREN {
                if d - 1 == 0 {
                    (out@, self.i + 1)
                } else {
                    paren_text(t, self.i + 1, d - 1, out@.push(')'))
                }
            } else {
                paren_text(t, self.i + 1, d as int, out@ + tok_text(k))
            });
            if g == T_LPAREN {
                d += 1;
                push_char(&mut out, '(');
            } else if g == T_RPAREN {
                if d == 1 {
                    self.i += 1;
                    return out;
                }
                d -= 1;
                push_char(&mut out, ')');
            } else {
                push_tok_text(&mut out, &self.toks[self.i].kind);
            }
            self.i += 1;
        }
        out
    }

    fn collect_until(&mut self, g: u8) -> (r: String)
        requires
            old(self).inv(),
        ensures
            final(self).inv(),
            final(self).same(old(self)),
            (r@, final(self).i as int) == text_until(old(self).t(), old(self).i as int, g, Seq::empty()),
    {
        let ghost t = self.t();
        let mut out = String::new();
        let ghost i0 = self.i as int;
        while self.i < self.toks.len() && tag(&self.toks[self.i].kind) != g
            invariant
                self.inv(),
                self.same(old(self)),
                t == self.t(),
                t == old(self).t(),
                i0 == old(self).i,
                text_until(t, i0, g, Seq::empty()) == text_until(t, self.i as int, g, out@),
            decreases self.toks.len() - self.i,
        {
            assert(self.toks@[self.i as int]@ == t[self.i as int]);
            push_tok_text(&mut out, &self.toks[self.i].kind);
            self.i += 1;
        }
        out
    }

    fn collect_group(&mut self, end0: usize) -> (r: (String, usize))
        requires
            old(self).inv(),
        ensures
            final(self).inv(),
            final(self).same(old(self)),
            (r.0@, final(self).i as int, r.1 as int) == group_text(
                old(self).t(),
                old(self).i as int,
                1,
                Seq::empty(),
                end0 as int,
            ),
    {
        let ghost t = self.t();
        let mut d: i128 = 1;
        let mut out = String::new();
        let mut end = end0;
        let ghost i0 = self.i as int;
        while self.i < self.toks.len()
            invariant
                self.inv(),
                self.same(old(self)),
                t == self.t(),
                t == old(self).t(),
                i0 == old(self).i,
                i0 <= self.i,
                1 <= d <= 1 + self.i - i0,
                group_text(t, i0, 1, Seq::empty(), end0 as int) == group_text(
                    t,
                    self.i as int,
                    d as int,
                    out@,
                    end as int,
                ),
            decreases self.toks.len() - self.i,
        {
            assert(self.toks@[self.i as int]@ == t[self.i as int]);
            let ghost k = t[self.i as int].0;
            let ghost e = t[self.i as int].1.end as int;
            assert(group_text(t, self.i as int, d as int, out@, end as int) == if spec_tag(k) == T_LBRACE {
                group_text(t, self.i + 1, d + 1, out@.push('{'), e)
            } else if spec_tag(k) == T_RBRACE {
                if d - 1 == 0 {
                    (out@, self.i + 1, e)
                } else {
                    group_text(t, self.i + 1, d - 1, out@.push('}'), e)
                }
            } else {
                group_text(t, self.i + 1, d as int, out@ + tok_text(k), e)
            });
            end = self.toks[self.i].span.end;
            let g = tag(&self.toks[self.i].kind);
            if g == T_LBRACE {
                push_char(&mut out, '{');
                d += 1;
            } else if g == T_RBRACE {
                self.i += 1;
                if d == 1 {
                    return (out, end);
                }
                d -= 1;
                push_char(&mut out, '}');
                continue;
            } else {
                push_tok_text(&mut out, &self.toks[self.i].kind);
            }
            self.i += 1;
        }
        (out, end)
    }

    fn ident_here(&self) -> (r: Option<String>)
        requires
            self.inv(),
        ensures
            match ident_at(self.t(), self.i as int) {
                Some(x) => r matches Some(y) && y@ == x,
                None => r is None,
            },
    {
        if self.i < self.toks.len() {
            assert(self.toks@[self.i as int]@ == self.t()[self.i as int]);
            match &self.toks[self.i].kind {
                Tok::Ident(x) => Some(x.clone()),
                _ => None,
            }
        } else {
            None
        }
    }

    fn str_here(&self) -> (r: Option<String>)
        requires
            self.inv(),
        ensures
            match str_at(self.t(), self.i as int) {
                Some(x) => r matches Some(y) && y@ == x,
                None => r is None,
            },
    {
        if self.i < self.toks.len() {
            assert(self.toks@[self.i as int]@ == self.t()[self.i as int]);
            match &self.toks[self.i].kind {
                Tok::Str(x) => Some(x.clone()),
                _ => None,
            }
        } else {
            None
        }
    }

    fn parse_import(&mut self) -> (r: Option<Item>)
        requires
            old(self).inv(),
        ensures
            final(self).inv(),
            final(self).same(old(self)),
            (opt_item_view(r), final(self).i as int) == p_import(old(self).src@, old(self).t(), old(self).i as int),
    {
        reveal(p_import);
        let ghost t = self.t();
        if self.i >= self.toks.len() {
            return None;
        }
        let start = self.toks[self.i].span.start;
        assert(self.toks@[self.i as int]@ == t[self.i as int]);
        self.i += 1;
        if self.at(T_STAR) {
            self.i += 1;
            if !self.at(T_AS) {
                return None;
            }
            self.i += 1;
            let alias = match self.ident_here() {
                Some(a) => a,
                None => {
                    self.bump();
                    return None;
                },
            };
            self.i += 1;
            if !self.at(T_FROM) {
                return None;
            }
            self.i += 1;
            let path = match self.str_here() {
                Some(p) => p,
                None => {
                    self.bump();
                    return None;
                },
            };
            self.i += 1;
            let end = if self.i < self.toks.len() {
                assert(self.toks@[self.i as int]@ == t[self.i as int]);
                self.toks[self.i].span.end
            } else {
                start
            };
            let ghost av = alias@;
            let mut items: Vec<ImportItem> = Vec::new();
            items.push(ImportItem::StarAs(alias));
            assert(import_items_view(items@) =~= seq![SpecImportItem::StarAs(av)]);
            return Some(Item::Import(ImportDecl { items, from: path, span: Span { start, end } }));
        }
        if !self.at(T_LBRACE) {
            return None;
        }
        self.i += 1;
        let (raw, end) = self.collect_group(start);
        if self.at(T_RBRACE) {
            self.i += 1;
        }
        if !self.at(T_FROM) {
            return None;
        }
        self.i += 1;
        let path = match self.str_here() {
            Some(p) => p,
            None => {
                self.bump();
                return None;
            },
        };
        self.i += 1;
        let parts = split_items(raw.as_str());
        let ghost pv = strings_view(parts@);
        let mut items: Vec<ImportItem> = Vec::new();
        let mut k: usize = 0;
        while k < parts.len()
            invariant
                k <= parts@.len(),
                pv == strings_view(parts@),
                import_items_view(items@) == pv.take(k as int).map_values(|x: Seq<char>| spec_import_item(x)),
            decreases parts@.len() - k,
        {
            let ghost old_items = items@;
            items.push(parse_import_item(parts[k].clone()));
            assert(import_items_view(items@) =~= import_items_view(old_items).push(items@.last()@));
            assert(pv.take(k + 1) =~= pv.take(k as int).push(pv[k as int]));
            k += 1;
            assert(import_items_view(items@) =~= pv.take(k as int).map_values(|x: Seq<char>| spec_import_item(x)));
        }
        assert(pv.take(k as int) =~= pv);
        Some(Item::Import(ImportDecl { items, from: path, span: Span { start, end } }))
    }

    fn parse_fn(&mut self, exported: bool) -> (r: Option<FnDecl>)
        requires
            old(self).inv(),
        ensures
            final(self).inv(),
            final(self).same(old(self)),
            (opt_fn_view(r), final(self).i as int) == p_fn(old(self).src@, old(self).t(), old(self).i as int, exported),
    {
        reveal(p_fn);
        let ghost t = self.t();
        if self.i >= self.toks.len() {
            return None;
        }
        let start = self.toks[self.i].span.start;
        assert(self.toks@[self.i as int]@ == t[self.i as int]);
        self.i += 1;
        let name = match self.ident_here() {
            Some(n) => n,
            None => {
                self.bump();
                return None;
            },
        };
        self.i += 1;
        if self.at(T_LPAREN) {
            self.i += 1;
        }
        let params_src = self.collect_until_paren_close();
        let params = parse_params(params_src.as_str(), start);
        let mut ret: Option<TypeExpr> = None;
        if self.at(T_COLON) {
            self.i += 1;
            let ty = self.collect_until(T_LBRACE);
            let tv = chars_of(ty.as_str());
            let text = trimmed(&tv, 0, tv.len());
            assert(tv@.subrange(0, tv@.len() as int) =~= ty@);
            ret = Some(TypeExpr { text });
        }
        if self.i >= self.toks.len() {
            return None;
        }
        assert(self.toks@[self.i as int]@ == t[self.i as int]);
        if tag(&self.toks[self.i].kind) != T_LBRACE {
            self.i += 1;
            return None;
        }
        let lbrace_end = self.toks[self.i].span.end;
        self.i += 1;
        let (body, end) = self.collect_raw_brace_block_from(lbrace_end);
        Some(FnDecl { exported, name, params, ret, body_src: body, span: Span { start, end } })
    }

    fn parse_var_arrow(&mut self, is_exported: bool) -> (r: Option<ArrowDecl>)
        requires
            old(self).inv(),
        ensures
            final(self).inv(),
            final(self).same(old(self)),
            (opt_arrow_view(r), final(self).i as int) == p_var_arrow(
                old(self).src@,
                old(self).t(),
                old(self).i as int,
                is_exported,
            ),
    {
        reveal(p_var_arrow);
        let ghost t = self.t();
        if self.i >= self.toks.len() {
            return None;
        }
        let start = self.toks[self.i].span.start;
        assert(self.toks@[self.i as int]@ == t[self.i as int]);
        let g = tag(&self.toks[self.i].kind);
        self.i += 1;
        if !(g == T_CONST || g == T_LET) {
            return None;
        }
        let name = match self.ident_here() {
            Some(n) => n,
            None => {
                self.bump();
                return None;
            },
        };
        self.i += 1;
        if !self.at(T_EQ) {
            return None;
        }
        self.i += 1;
        let is_move = self.at(T_MOVE);
        if is_move {
            self.i += 1;
        }
        if !self.at(T_LPAREN) {
            return None;
        }
        self.i += 1;
        let params_src = self.collect_until_paren_close();
        let params = parse_params(params_src.as_str(), start);
        if !self.at(T_COLON) {
            return None;
        }
        self.i += 1;
        let rt = self.collect_until(T_FAT_ARROW);
        let rtv = chars_of(rt.as_str());
        let ret_text = trimmed(&rtv, 0, rtv.len());
        assert(rtv@.subrange(0, rtv@.len() as int) =~= rt@);
        let ret = TypeExpr { text: ret_text };
        if self.at(T_FAT_ARROW) {
            self.i += 1;
        }
        if self.at(T_LBRACE) {
            assert(self.toks@[self.i as int]@ == t[self.i as int]);
            let lbrace_end = self.toks[self.i].span.end;
            self.i += 1;
            let (body, end) = self.collect_raw_brace_block_from(lbrace_end);
            Some(ArrowDecl {
                name,
                params,
                ret,
                body: ArrowBody::Block(body),
                is_exported,
                is_move,
                span: Span { start, end },
            })
        } else {
            let from = if self.i < self.toks.len() {
                assert(self.toks@[self.i as int]@ == t[self.i as int]);
                self.toks[self.i].span.start
            } else {
                self.src.len()
            };
            let (body, end) = self.collect_raw_until_semicolon_from(from);
            Some(ArrowDecl {
                name,
                params,
                ret,
                body: ArrowBody::Expr(body),
                is_exported,
                is_move,
                span: Span { start, end },
            })
        }
    }

    fn parse_export(&mut self) -> (r: Option<Item>)
        requires
            old(self).inv(),
        ensures
            final(self).inv(),
            final(self).same(old(self)),
            (opt_item_view(r), final(self).i as int) == p_export(old(self).src@, old(self).t(), old(self).i as int),
    {
        reveal(p_export);
        self.bump();
        if self.at(T_CONST) || self.at(T_LET) {
            if let Some(a) = self.parse_var_arrow(true) {
                return Some(Item::ExportedArrow(a));
            }
        }
        if self.at(T_FUNCTION) {
            let f = self.parse_fn(true);
            return match f {
                Some(f) => {
                    let mut f = f;
                    f.exported = true;
                    Some(Item::ExportedFn(f))
                },
                None => None,
            };
        }
        let star = self.at(T_STAR);
        if star {
            self.i += 1;
        }
        if star && self.at(T_FROM) {
            self.i += 1;
            let p = match self.str_here() {
                Some(p) => p,
                None => {
                    self.bump();
                    return None;
                },
            };
            self.i += 1;
            return Some(Item::ExportStar(ExportStar { from: p, span: Span { start: 0, end: 0 } }));
        }
        if self.at(T_LBRACE) {
            self.i += 1;
            let (raw, _end) = self.collect_group(0);
            let items = split_items(raw.as_str());
            if self.at(T_FROM) {
                self.i += 1;
                let p = match self.str_here() {
                    Some(p) => p,
                    None => {
                        self.bump();
                        return None;
                    },
                };
                self.i += 1;
                return Some(Item::ReExport(ReExportDecl { items, from: p, span: Span { start: 0, end: 0 } }));
            } else {
                return Some(Item::ReExportLocal(ExportLocal { items, span: Span { start: 0, end: 0 } }));
            }
        }
        if self.at(T_CONST) || self.at(T_LET) {
            return match self.parse_var_arrow(true) {
                Some(a) => Some(Item::ExportedArrow(a)),
                None => None,
            };
        }
        None
    }

    fn step(&mut self) -> (r: Option<Item>)
        requires
            old(self).inv(),
            old(self).i < old(self).toks.len(),
        ensures
            final(self).inv(),
            final(self).same(old(self)),
            ({
                let (x, j) = module_step(old(self).src@, old(self).t(), old(self).i as int);
                &&& opt_item_view(r) == x
                &&& (final(self).i as int == j || (j == old(self).t().len() + 1 && final(self).i == old(self).toks.len()))
            }),
    {
        reveal(module_step);
        if self.at(T_IMPORT) {
            if let Some(it) = self.parse_import() {
                return Some(it);
            }
        }
        if self.at(T_EXPORT) {
            if let Some(it) = self.parse_export() {
                return Some(it);
            }
        }
        if self.at(T_FUNCTION) {
            if let Some(f) = self.parse_fn(false) {
                return Some(Item::Fn(f));
            }
        }
        if self.i < self.toks.len() {
            self.i += 1;
        }
        None
    }

    fn parse_module(&mut self) -> (m: Module)
        requires
            old(self).inv(),
        ensures
            items_view(m.items@) == p_module(old(self).src@, old(self).t(), old(self).i as int, Seq::empty()),
    {
        let ghost s = self.src@;
        let ghost t = self.t();
        let mut items: Vec<Item> = Vec::new();
        let ghost i0 = self.i as int;
        assert(items_view(items@) =~= Seq::<SpecItem>::empty());
        while self.i < self.toks.len()
            invariant
                self.inv(),
                s == self.src@,
                t == self.t(),
                p_module(s, t, i0, Seq::empty()) == p_module(s, t, self.i as int, items_view(items@)),
            decreases self.toks.len() - self.i,
        {
            let ghost before = self.i as int;
            let ghost iv = items_view(items@);
            proof {
                lemma_module_step(s, t, before);
            }
            let ghost (x, j) = module_step(s, t, before);
            let ghost next = match x {
                Some(y) => iv.push(y),
                None => iv,
            };
            assert(p_module(s, t, before, iv) == p_module(s, t, j, next));
            let r = self.step();
            match r {
                Some(it) => {
                    items.push(it);
                    assert(items_view(items@) =~= iv.push(items@.last()@));
                },
                None => {},
            }
            assert(items_view(items@) == next);
            proof {
                if self.i as int != j {
                    assert(p_module(s, t, j, next) == next);
                    assert(p_module(s, t, self.i as int, next) == next);
                }
            }
        }
        Module { items }
    }
}

/// Parses tsrust source text into its module items.
pub fn parse_module(src: &str) -> (m: Module)
    ensures
        items_view(m.items@) == spec_parse_module(src@),
{
    let toks = Lexer::new(src).tokenize();
    let units = units_of(src);
    let ghost s = byte_units(src.spec_bytes());
    assert(s.len() == units.len());
    proof {
        lemma_token_spans(s, 0);
        lemma_token_ascii(s, 0);
    }
    let mut p = Parser { text: src, src: units, toks, i: 0 };
    assert(p.t() =~= tokenize_spec(s));
    assert forall|k: int| 0 <= k < p.toks@.len() implies (#[trigger] p.toks@[k]).span.start <= p.toks@[k].span.end
        <= p.src@.len() by {
        assert(p.toks@[k]@ == p.t()[k]);
    }
    assert forall|k: int| 0 <= k < p.toks@.len() implies ascii_at(p.src@, (#[trigger] p.toks@[k]).span.start as int)
        && (p.toks@[k].span.end == p.src@.len() || ascii_at(p.src@, p.toks@[k].span.end - 1)) by {
        assert(p.toks@[k]@ == p.t()[k]);
    }
    p.parse_module()
}

} // verus!
