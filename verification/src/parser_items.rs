//! Pieces of the parser that work on plain text: import lists, import items and parameters.
use vstd::prelude::*;
use vstd::string::*;
use crate::ast::{ImportItem, Param, ParamKind, Span, SpecImportItem, SpecParam, SpecParamKind, params_view, strings_view};
use crate::text::{chars_of, eq_lit, find_from, find_lit, lemma_find_from, matches_at, replace_all, replace_lit, starts_at, string_of_range, trim, trim_bounds, trimmed};

verus! {

pub open spec fn push_nonempty(out: Seq<Seq<char>>, t: Seq<char>) -> Seq<Seq<char>> {
    if t.len() > 0 {
        out.push(t)
    } else {
        out
    }
}

/// Reading `s` left to right: items finished so far, the item being read, brace depth.
pub open spec fn split_state(s: Seq<char>) -> (Seq<Seq<char>>, Seq<char>, int)
    decreases s.len(),
{
    if s.len() == 0 {
        (Seq::empty(), Seq::empty(), 0)
    } else {
        let (out, cur, d) = split_state(s.drop_last());
        let c = s.last();
        if c == '{' {
            (out, cur.push(c), d + 1)
        } else if c == '}' {
            (out, cur.push(c), d - 1)
        } else if c == ',' && d == 0 {
            (push_nonempty(out, trim(cur)), Seq::empty(), d)
        } else {
            (out, cur.push(c), d)
        }
    }
}

/// The comma-separated items of `s` outside braces, trimmed, without empty ones.
pub open spec fn spec_split_items(s: Seq<char>) -> Seq<Seq<char>> {
    let (out, cur, d) = split_state(s);
    push_nonempty(out, trim(cur))
}

fn push_trimmed_nonempty(out: &mut Vec<String>, cur: &Vec<char>)
    ensures
        strings_view(final(out)@) == push_nonempty(strings_view(old(out)@), trim(cur@)),
{
    let t = trimmed(cur, 0, cur.len());
    assert(cur@.subrange(0, cur@.len() as int) =~= cur@);
    if t.unicode_len() > 0 {
        let ghost o = out@;
        out.push(t);
        assert(strings_view(out@) =~= strings_view(o).push(t@));
    }
}

/// Splits an import or export list on top-level commas.
pub fn split_items(raw: &str) -> (v: Vec<String>)
    ensures
        strings_view(v@) == spec_split_items(raw@),
{
    let s = chars_of(raw);
    let mut out: Vec<String> = Vec::new();
    let mut cur: Vec<char> = Vec::new();
    let mut d: i128 = 0;
    let mut i: usize = 0;
    while i < s.len()
        invariant
            s@ == raw@,
            i <= s@.len(),
            -(i as int) <= d <= i,
            ({
                let (o, c, dd) = split_state(s@.subrange(0, i as int));
                &&& strings_view(out@) == o
                &&& cur@ == c
                &&& d == dd
            }),
        decreases s@.len() - i,
    {
        let c = s[i];
        assert(s@.subrange(0, i + 1).drop_last() =~= s@.subrange(0, i as int));
        if c == '{' {
            cur.push(c);
            d += 1;
        } else if c == '}' {
            cur.push(c);
            d -= 1;
        } else if c == ',' && d == 0 {
            push_trimmed_nonempty(&mut out, &cur);
            cur = Vec::new();
        } else {
            cur.push(c);
        }
        i += 1;
    }
    assert(s@.subrange(0, i as int) =~= raw@);
    push_trimmed_nonempty(&mut out, &cur);
    out
}

pub open spec fn lit_star_as() -> Seq<char> {
    seq!['*', ' ', 'a', 's', ' ']
}

pub open spec fn lit_nested() -> Seq<char> {
    seq![':', ':', '{']
}

pub open spec fn lit_nested_spaced() -> Seq<char> {
    seq![':', ':', ' ', '{']
}

pub open spec fn lit_as() -> Seq<char> {
    seq![' ', 'a', 's', ' ']
}

/// The meaning of one entry of an import list.
pub open spec fn spec_import_item(s: Seq<char>) -> SpecImportItem {
    let t = trim(s);
    if t =~= seq!['*'] {
        SpecImportItem::Star
    } else if starts_at(t, 0, lit_star_as()) {
        SpecImportItem::StarAs(trim(t.skip(5)))
    } else if find_from(t, lit_nested(), 0) is Some || find_from(t, lit_nested_spaced(), 0) is Some {
        SpecImportItem::Nested { path: replace_all(t, lit_nested_spaced(), lit_nested()) }
    } else {
        match find_from(t, lit_as(), 0) {
            Some(k) => SpecImportItem::Aliased { name: trim(t.take(k)), alias: trim(t.skip(k + 4)) },
            None => SpecImportItem::Simple(t),
        }
    }
}

/// Classifies one import-list entry: `*`, `* as x`, a nested group, `a as b`, or a name.
pub fn parse_import_item(s: String) -> (it: ImportItem)
    ensures
        it@ == spec_import_item(s@),
{
    let all = chars_of(s.as_str());
    let t = trimmed(&all, 0, all.len());
    assert(all@.subrange(0, all@.len() as int) =~= s@);
    let v = chars_of(t.as_str());
    proof {
        reveal_strlit("*");
        reveal_strlit("* as ");
        reveal_strlit("::{");
        reveal_strlit(":: {");
        reveal_strlit(" as ");
    }
    assert("*"@ =~= seq!['*']);
    assert("* as "@ =~= lit_star_as());
    assert("::{"@ =~= lit_nested());
    assert(":: {"@ =~= lit_nested_spaced());
    assert(" as "@ =~= lit_as());
    if eq_lit(&v, "*") {
        return ImportItem::Star;
    }
    if matches_at(&v, 0, "* as ") {
        let r = trimmed(&v, 5, v.len());
        assert(v@.subrange(5, v@.len() as int) =~= v@.skip(5));
        return ImportItem::StarAs(r);
    }
    if find_lit(&v, 0, "::{").is_some() || find_lit(&v, 0, ":: {").is_some() {
        let p = replace_lit(&v, ":: {", "::{");
        return ImportItem::Nested { path: p };
    }
    match find_lit(&v, 0, " as ") {
        Some(k) => {
            proof {
                lemma_find_from(v@, lit_as(), 0);
            }
            let a = trimmed(&v, 0, k);
            let b = trimmed(&v, k + 4, v.len());
            assert(v@.subrange(0, k as int) =~= v@.take(k as int));
            assert(v@.subrange(k + 4, v@.len() as int) =~= v@.skip(k + 4));
            ImportItem::Aliased { name: a, alias: b }
        },
        None => ImportItem::Simple(t),
    }
}

/// `s` without its trailing `c` characters.
pub open spec fn trim_end_char(s: Seq<char>, c: char) -> Seq<char>
    decreases s.len(),
{
    if s.len() > 0 && s.last() == c {
        trim_end_char(s.drop_last(), c)
    } else {
        s
    }
}

/// `trim(trim_end_char(trim(s), '?'))`: a type with optional markers removed.
pub open spec fn clean_ty(s: Seq<char>) -> Seq<char> {
    trim(trim_end_char(trim(s), '?'))
}

pub open spec fn lit_q() -> Seq<char> {
    seq!['?']
}

pub open spec fn lit_eq() -> Seq<char> {
    seq!['=']
}

pub open spec fn lit_colon() -> Seq<char> {
    seq![':']
}

pub open spec fn lit_unit() -> Seq<char> {
    seq!['(', ')']
}

pub open spec fn sat_add(a: int, b: int) -> usize {
    if a + b > usize::MAX {
        usize::MAX
    } else {
        (a + b) as usize
    }
}

/// The parameter written as `s` (trimmed), positioned at `base`; `None` when blank.
///
/// `name?: T` is optional when the `?` comes before any `=`; `name: T = d` has a
/// default; `name: T?` is optional; `name: T` is plain; a bare `name` has type `()`.
pub open spec fn spec_param(s0: Seq<char>, base: usize) -> Option<SpecParam> {
    let s = trim(s0);
    if s.len() == 0 {
        None
    } else {
        let span = Span { start: base, end: sat_add(base as int, vstd::utf8::encode_utf8(s).len() as int) };
        let q = find_from(s, lit_q(), 0);
        let e = find_from(s, lit_eq(), 0);
        if q matches Some(qp) && (e matches Some(ep) ==> qp < ep) && find_from(s.skip(qp), lit_colon(), 0) is Some {
            let qp = q.unwrap();
            let after = s.skip(qp);
            let cp = find_from(after, lit_colon(), 0).unwrap();
            Some(SpecParam {
                name: trim(s.take(qp)),
                ty: clean_ty(after.skip(cp + 1)),
                kind: SpecParamKind::Optional,
                span,
            })
        } else {
            match find_from(s, lit_colon(), 0) {
                Some(k) => {
                    let rest = trim(s.skip(k + 1));
                    match find_from(rest, lit_eq(), 0) {
                        Some(dp) => Some(SpecParam {
                            name: trim(s.take(k)),
                            ty: clean_ty(rest.take(dp)),
                            kind: SpecParamKind::Defaulted(trim(rest.skip(dp + 1))),
                            span,
                        }),
                        None => Some(SpecParam {
                            name: trim(s.take(k)),
                            ty: trim(trim_end_char(rest, '?')),
                            kind: if rest.len() > 0 && rest.last() == '?' {
                                SpecParamKind::Optional
                            } else {
                                SpecParamKind::Normal
                            },
                            span,
                        }),
                    }
                },
                None => Some(SpecParam { name: s, ty: lit_unit(), kind: SpecParamKind::Normal, span }),
            }
        }
    }
}

/// Bounds of `trim_end_char(v[a..b], c)` within `v`.
fn trim_end_char_bound(v: &Vec<char>, a: usize, b: usize, c: char) -> (r: usize)
    requires
        a <= b <= v@.len(),
    ensures
        a <= r <= b,
        v@.subrange(a as int, r as int) == trim_end_char(v@.subrange(a as int, b as int), c),
{
    let mut j = b;
    while j > a && v[j - 1] == c
        invariant
            a <= j <= b <= v@.len(),
            trim_end_char(v@.subrange(a as int, b as int), c) == trim_end_char(v@.subrange(a as int, j as int), c),
        decreases j,
    {
        assert(v@.subrange(a as int, j as int).drop_last() =~= v@.subrange(a as int, j - 1));
        j -= 1;
    }
    j
}

/// `clean_ty(v[a..b])` as a string.
fn clean_ty_exec(v: &Vec<char>, a: usize, b: usize) -> (r: String)
    requires
        a <= b <= v@.len(),
    ensures
        r@ == clean_ty(v@.subrange(a as int, b as int)),
{
    let (x, y) = trim_bounds(v, a, b);
    let z = trim_end_char_bound(v, x, y, '?');
    trimmed(v, x, z)
}

/// The first form of `spec_param`: `name?: T` with the `?` before any `=`.
fn optional_form(v: &Vec<char>, span: Span) -> (r: Option<Param>)
    requires
        v@.len() > 0,
    ensures
        ({
            let s = v@;
            let q = find_from(s, lit_q(), 0);
            let e = find_from(s, lit_eq(), 0);
            if q matches Some(qp) && (e matches Some(ep) ==> qp < ep) && find_from(s.skip(qp), lit_colon(), 0) is Some {
                let qp = q.unwrap();
                let after = s.skip(qp);
                let cp = find_from(after, lit_colon(), 0).unwrap();
                r matches Some(p) && p@ == SpecParam {
                    name: trim(s.take(qp)),
                    ty: clean_ty(after.skip(cp + 1)),
                    kind: SpecParamKind::Optional,
                    span,
                }
            } else {
                r is None
            }
        }),
{
    let ghost sv = v@;
    let n = v.len();
    proof {
        reveal_strlit("?");
        reveal_strlit("=");
        reveal_strlit(":");
        lemma_find_from(sv, lit_q(), 0);
    }
    assert("?"@ =~= lit_q());
    assert("="@ =~= lit_eq());
    assert(":"@ =~= lit_colon());
    let q = find_lit(v, 0, "?");
    assert(q matches Some(qp) ==> find_from(sv, lit_q(), 0) == Some(qp as int));
    assert(q is None ==> find_from(sv, lit_q(), 0) is None);
    if let Some(qp) = q {
        let e = find_lit(v, 0, "=");
        assert(e matches Some(ep) ==> find_from(sv, lit_eq(), 0) == Some(ep as int));
        assert(e is None ==> find_from(sv, lit_eq(), 0) is None);
        let before_eq = match e {
            Some(ep) => qp < ep,
            None => true,
        };
        if before_eq {
            let cp = find_lit(v, qp, ":");
            proof {
                lemma_find_from(sv.skip(qp as int), lit_colon(), 0);
                lemma_find_skip(sv, lit_colon(), qp as int, 0);
            }
            assert(cp is None <==> find_from(sv.skip(qp as int), lit_colon(), 0) is None);
            if let Some(cp) = cp {
                assert(find_from(sv.skip(qp as int), lit_colon(), 0) == Some(cp - qp));
                let name = trimmed(v, 0, qp);
                let ty = clean_ty_exec(v, cp + 1, n);
                assert(v@.subrange(0, qp as int) =~= sv.take(qp as int));
                assert(v@.subrange(cp + 1, n as int) =~= sv.skip(qp as int).skip(cp - qp + 1));
                return Some(Param { name, ty, kind: ParamKind::Optional, span });
            }
        }
    }
    None
}

/// The remaining forms of `spec_param`, for a non-blank trimmed `v` not of the first form.
fn other_forms(v: &Vec<char>, span: Span) -> (p: Param)
    requires
        v@.len() > 0,
    ensures
        ({
            let s = v@;
            p@ == match find_from(s, lit_colon(), 0) {
                Some(k) => {
                    let rest = trim(s.skip(k + 1));
                    match find_from(rest, lit_eq(), 0) {
                        Some(dp) => SpecParam {
                            name: trim(s.take(k)),
                            ty: clean_ty(rest.take(dp)),
                            kind: SpecParamKind::Defaulted(trim(rest.skip(dp + 1))),
                            span,
                        },
                        None => SpecParam {
                            name: trim(s.take(k)),
                            ty: trim(trim_end_char(rest, '?')),
                            kind: if rest.len() > 0 && rest.last() == '?' {
                                SpecParamKind::Optional
                            } else {
                                SpecParamKind::Normal
                            },
                            span,
                        },
                    }
                },
                None => SpecParam { name: s, ty: lit_unit(), kind: SpecParamKind::Normal, span },
            }
        }),
{
    let ghost sv = v@;
    let n = v.len();
    proof {
        reveal_strlit("=");
        reveal_strlit(":");
        reveal_strlit("()");
    }
    assert("="@ =~= lit_eq());
    assert(":"@ =~= lit_colon());
    assert("()"@ =~= lit_unit());
    if let Some(k) = find_lit(v, 0, ":") {
        proof {
            lemma_find_from(sv, lit_colon(), 0);
        }
        let (rx, ry) = trim_bounds(v, k + 1, n);
        let ghost rest = trim(sv.skip(k + 1));
        assert(v@.subrange(k + 1, n as int) =~= sv.skip(k + 1));
        let name = trimmed(v, 0, k);
        assert(v@.subrange(0, k as int) =~= sv.take(k as int));
        let rv = {
            let r = string_of_range(v, rx, ry);
            chars_of(r.as_str())
        };
        assert(rv@ == rest);
        proof {
            lemma_find_from(rest, lit_eq(), 0);
        }
        if let Some(dp) = find_lit(&rv, 0, "=") {
            let ty = clean_ty_exec(&rv, 0, dp);
            let def = trimmed(&rv, dp + 1, rv.len());
            assert(rv@.subrange(0, dp as int) =~= rest.take(dp as int));
            assert(rv@.subrange(dp + 1, rv@.len() as int) =~= rest.skip(dp + 1));
            return Param { name, ty, kind: ParamKind::Defaulted(def), span };
        }
        let is_opt = rv.len() > 0 && rv[rv.len() - 1] == '?';
        let z = trim_end_char_bound(&rv, 0, rv.len(), '?');
        let ty = trimmed(&rv, 0, z);
        assert(rv@.subrange(0, rv@.len() as int) =~= rest);
        return Param { name, ty, kind: if is_opt { ParamKind::Optional } else { ParamKind::Normal }, span };
    }
    let name = string_of_range(v, 0, n);
    assert(v@.subrange(0, n as int) =~= sv);
    Param { name, ty: String::from_str("()"), kind: ParamKind::Normal, span }
}

/// Parses one parameter and appends it to `out` unless it is blank.
pub fn push_param(out: &mut Vec<Param>, s: &str, base: usize)
    ensures
        params_view(final(out)@) == match spec_param(s@, base) {
            Some(p) => params_view(old(out)@).push(p),
            None => params_view(old(out)@),
        },
{
    let all = chars_of(s);
    let (x, y) = trim_bounds(&all, 0, all.len());
    assert(all@.subrange(0, all@.len() as int) =~= s@);
    let t = string_of_range(&all, x, y);
    let v = chars_of(t.as_str());
    assert(v@ == trim(s@));
    let n = v.len();
    if n == 0 {
        return;
    }
    let nb = t.as_str().as_bytes().len();
    let span = Span { start: base, end: base.saturating_add(nb) };
    let ghost old_out = out@;
    let p = match optional_form(&v, span) {
        Some(p) => p,
        None => other_forms(&v, span),
    };
    out.push(p);
    assert(params_view(out@) =~= params_view(old_out).push(out@.last()@));
}

/// Searching `s` from `k` equals searching `s.skip(k)` from the start, shifted.
pub proof fn lemma_find_skip(s: Seq<char>, pat: Seq<char>, k: int, j: int)
    requires
        0 <= k <= s.len(),
        0 <= j,
    ensures
        find_from(s, pat, k + j) == match find_from(s.skip(k), pat, j) {
            Some(x) => Some(x + k),
            None => None,
        },
    decreases s.len() - k - j,
{
    if k + j + pat.len() <= s.len() {
        assert(starts_at(s, k + j, pat) == starts_at(s.skip(k), j, pat)) by {
            assert(s.subrange(k + j, k + j + pat.len()) =~= s.skip(k).subrange(j, j + pat.len()));
        }
        if !starts_at(s, k + j, pat) {
            lemma_find_skip(s, pat, k, j + 1);
        }
    }
}

/// Reading a parameter list: parameters so far, the one being read, paren depth.
pub open spec fn param_state(s: Seq<char>, base: usize) -> (Seq<SpecParam>, Seq<char>, int)
    decreases s.len(),
{
    if s.len() == 0 {
        (Seq::empty(), Seq::empty(), 0)
    } else {
        let (out, cur, d) = param_state(s.drop_last(), base);
        let c = s.last();
        if c == '(' {
            (out, cur.push(c), d + 1)
        } else if c == ')' {
            (out, cur.push(c), d - 1)
        } else if c == ',' && d == 0 {
            (push_spec_param(out, trim(cur), base), Seq::empty(), d)
        } else {
            (out, cur.push(c), d)
        }
    }
}

pub open spec fn push_spec_param(out: Seq<SpecParam>, s: Seq<char>, base: usize) -> Seq<SpecParam> {
    match spec_param(s, base) {
        Some(p) => out.push(p),
        None => out,
    }
}

/// The parameters written in `s`, separated by commas outside parentheses.
pub open spec fn spec_parse_params(s: Seq<char>, base: usize) -> Seq<SpecParam> {
    let (out, cur, d) = param_state(s, base);
    push_spec_param(out, trim(cur), base)
}

/// Parses a parameter list; every parameter is positioned at `base`.
pub fn parse_params(src: &str, base: usize) -> (v: Vec<Param>)
    ensures
        params_view(v@) == spec_parse_params(src@, base),
{
    let s = chars_of(src);
    let mut out: Vec<Param> = Vec::new();
    let mut cur: Vec<char> = Vec::new();
    let mut d: i128 = 0;
    let mut i: usize = 0;
    while i < s.len()
        invariant
            s@ == src@,
            i <= s@.len(),
            -(i as int) <= d <= i,
            ({
                let (o, c, dd) = param_state(s@.subrange(0, i as int), base);
                &&& params_view(out@) == o
                &&& cur@ == c
                &&& d == dd
            }),
        decreases s@.len() - i,
    {
        let c = s[i];
        assert(s@.subrange(0, i + 1).drop_last() =~= s@.subrange(0, i as int));
        if c == '(' {
            cur.push(c);
            d += 1;
        } else if c == ')' {
            cur.push(c);
            d -= 1;
        } else if c == ',' && d == 0 {
            let t = trimmed(&cur, 0, cur.len());
            assert(cur@.subrange(0, cur@.len() as int) =~= cur@);
            push_param(&mut out, t.as_str(), base);
            cur = Vec::new();
        } else {
            cur.push(c);
        }
        i += 1;
    }
    assert(s@.subrange(0, i as int) =~= src@);
    let t = trimmed(&cur, 0, cur.len());
    assert(cur@.subrange(0, cur@.len() as int) =~= cur@);
    push_param(&mut out, t.as_str(), base);
    out
}

} // verus!
