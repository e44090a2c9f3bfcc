//! Properties of the library as a whole.
use vstd::prelude::*;
use crate::ast::SpecItem;
use crate::diagnostics::{all_digits, digits_value, number_or_one};
use crate::lexer::{lemma_next_tok, next_tok, tokens_from};
use crate::linemap::{expand_tabs, slashed, spec_gen_suffix};
use crate::lowering::spec_lower_items;
use crate::paths::{colons, contains_seq, crate_prefix, dot_dot_slash, dot_slash, is_sep, join, piece_state, pieces, spec_normalize_path, strip_parents, underscore};
use crate::pattern::{Rule, bslice, regex_captures, rule_applied, rule_pattern};
use crate::rewrite::{lit_break, lit_return, lit_switch, strip_breaks_from, strip_return_from, switch_step, switches_upto};
use crate::text::{find_from, lemma_find_from, starts_at};
use crate::transpile::{decimal, digit_char, first_unmarked, needs_marker, spec_transpile};

verus! {

broadcast use vstd::utf8::group_utf8_lib;

/// A specifier that already is a Rust path (it holds `::`) keeps its text, but
/// for its hyphens, which become underscores.
pub proof fn law_rust_paths_respelled(p: Seq<char>)
    requires
        contains_seq(p, colons()),
    ensures
        spec_normalize_path(p) == underscore(p),
{
}

/// The tokens of a source come in source order, each span inside the source and
/// not overlapping the next.
pub proof fn law_token_spans_ordered(s: Seq<char>, i: int)
    requires
        0 <= i <= s.len(),
        s.len() <= usize::MAX,
    ensures
        forall|k: int|
            0 <= k < tokens_from(s, i).len() ==> i <= (#[trigger] tokens_from(s, i)[k]).1.start
                <= tokens_from(s, i)[k].1.end <= s.len(),
        forall|k: int, j: int|
            0 <= k < j < tokens_from(s, i).len() ==> (#[trigger] tokens_from(s, i)[k]).1.end
                <= (#[trigger] tokens_from(s, i)[j]).1.start,
    decreases s.len() - i,
{
    crate::lexer::lemma_token_spans(s, i);
    lemma_next_tok(s, i);
    match next_tok(s, i) {
        Some((t, e)) => {
            law_token_spans_ordered(s, e);
            crate::lexer::lemma_token_spans(s, e);
            let r = tokens_from(s, e);
            assert forall|k: int, j: int| 0 <= k < j < tokens_from(s, i).len() implies (#[trigger] tokens_from(
                s,
                i,
            )[k]).1.end <= (#[trigger] tokens_from(s, i)[j]).1.start by {
                assert(tokens_from(s, i)[j] == r[j - 1]);
                if k > 0 {
                    assert(tokens_from(s, i)[k] == r[k - 1]);
                } else {
                    assert(tokens_from(s, i)[0] == t);
                }
            }
        },
        None => {},
    }
}

/// Lowering a module is lowering its items one after the other: the text for
/// `a + b` is the text for `a` followed by the text for `b`.
pub proof fn law_lowering_concatenates(a: Seq<SpecItem>, b: Seq<SpecItem>, hs: Seq<Seq<char>>)
    requires
        hs.len() == a.len() + b.len(),
    ensures
        spec_lower_items(a + b, hs) == spec_lower_items(a, hs.take(a.len() as int)) + spec_lower_items(
            b,
            hs.skip(a.len() as int),
        ),
    decreases b.len(),
{
    lemma_lower_items_prefix(a, hs, hs.take(a.len() as int));
    if b.len() == 0 {
        assert(a + b =~= a);
        assert(spec_lower_items(b, hs.skip(a.len() as int)) =~= Seq::<char>::empty());
    } else {
        let hs2 = hs.take(hs.len() - 1);
        assert((a + b).drop_last() =~= a + b.drop_last());
        law_lowering_concatenates(a, b.drop_last(), hs2);
        lemma_lower_items_prefix(a + b.drop_last(), hs, hs2);
        lemma_lower_items_prefix(a, hs.take(a.len() as int), hs2.take(a.len() as int));
        assert(hs2.take(a.len() as int) =~= hs.take(a.len() as int));
        lemma_lower_items_prefix(b.drop_last(), hs.skip(a.len() as int), hs2.skip(a.len() as int));
        assert(hs.skip(a.len() as int)[b.len() - 1] == hs[a.len() + b.len() - 1]);
    }
}

/// Only the first `items.len()` hook results matter.
proof fn lemma_lower_items_prefix(items: Seq<SpecItem>, hs: Seq<Seq<char>>, hs2: Seq<Seq<char>>)
    requires
        hs.len() >= items.len(),
        hs2.len() >= items.len(),
        forall|j: int| 0 <= j < items.len() ==> hs[j] == hs2[j],
    ensures
        spec_lower_items(items, hs) == spec_lower_items(items, hs2),
    decreases items.len(),
{
    if items.len() > 0 {
        lemma_lower_items_prefix(items.drop_last(), hs, hs2);
    }
}

/// A function's declared non-unit return with no value at the end of its body.
pub open spec fn has_unmarked(items: Seq<SpecItem>) -> bool {
    exists|k: int|
        0 <= k < items.len() && match #[trigger] items[k] {
            SpecItem::ExportedFn(f) => needs_marker(f),
            SpecItem::Fn(f) => needs_marker(f),
            _ => false,
        }
}

proof fn lemma_first_unmarked(items: Seq<SpecItem>)
    ensures
        first_unmarked(items) is Some <==> has_unmarked(items),
    decreases items.len(),
{
    if items.len() > 0 {
        lemma_first_unmarked(items.drop_first());
        if has_unmarked(items.drop_first()) {
            let k = choose|k: int|
                0 <= k < items.drop_first().len() && match #[trigger] items.drop_first()[k] {
                    SpecItem::ExportedFn(f) => needs_marker(f),
                    SpecItem::Fn(f) => needs_marker(f),
                    _ => false,
                };
            assert(items[k + 1] == items.drop_first()[k]);
        }
        if has_unmarked(items) {
            let k = choose|k: int|
                0 <= k < items.len() && match #[trigger] items[k] {
                    SpecItem::ExportedFn(f) => needs_marker(f),
                    SpecItem::Fn(f) => needs_marker(f),
                    _ => false,
                };
            if k > 0 {
                assert(items.drop_first()[k - 1] == items[k]);
            }
        }
    }
}

/// Transpiling fails exactly when some function with a non-unit return type does
/// not end its body with a value (`return EXPR;` or `(EXPR)`).
pub proof fn law_transpile_fails_iff_unmarked(input: Seq<char>, hint: Seq<char>)
    ensures
        spec_transpile(input, hint) is Err <==> has_unmarked(crate::parser::spec_parse_module(input)),
{
    lemma_first_unmarked(crate::parser::spec_parse_module(input));
}

/// A body without the word `switch` is left as it is by the `switch` rewrite.
pub proof fn law_no_switch_unchanged(s: Seq<char>, fuel: nat)
    requires
        !contains_seq(s, lit_switch()),
    ensures
        switches_upto(s, fuel) == s,
{
    lemma_find_from(s, lit_switch(), 0);
    if find_from(s, lit_switch(), 0) is Some {
        let k = find_from(s, lit_switch(), 0).unwrap();
        assert(starts_at(s, k, lit_switch()));
    }
    assert(switch_step(s) is None);
}

proof fn lemma_no_break_from(s: Seq<char>, i: int, dp: int, db: int)
    requires
        0 <= i <= s.len(),
        !contains_seq(s, lit_break()),
    ensures
        strip_breaks_from(s, i, dp, db) == s.subrange(i, s.len() as int),
    decreases s.len() - i,
{
    if i < s.len() {
        assert(!starts_at(s, i, lit_break()));
        let c = s[i];
        lemma_no_break_from(
            s,
            i + 1,
            if c == '(' { dp + 1 } else if c == ')' { dp - 1 } else { dp },
            if c == '{' { db + 1 } else if c == '}' { db - 1 } else { db },
        );
        assert(s.subrange(i, s.len() as int) =~= seq![c] + s.subrange(i + 1, s.len() as int));
    } else {
        assert(s.subrange(i, s.len() as int) =~= Seq::<char>::empty());
    }
}

/// A case body without the word `break` is left as it is by `break` removal.
pub proof fn law_no_break_unchanged(s: Seq<char>)
    requires
        !contains_seq(s, lit_break()),
    ensures
        strip_breaks_from(s, 0, 0, 0) == s,
{
    lemma_no_break_from(s, 0, 0, 0);
    assert(s.subrange(0, s.len() as int) =~= s);
}

proof fn lemma_no_return_from(s: Seq<char>, i: int)
    requires
        0 <= i <= s.len(),
        !contains_seq(s, lit_return()),
    ensures
        strip_return_from(s, i) == s.subrange(i, s.len() as int),
    decreases s.len() - i,
{
    if i < s.len() {
        assert(!starts_at(s, i, lit_return()));
        lemma_no_return_from(s, i + 1);
        assert(s.subrange(i, s.len() as int) =~= seq![s[i]] + s.subrange(i + 1, s.len() as int));
    } else {
        assert(s.subrange(i, s.len() as int) =~= Seq::<char>::empty());
    }
}

/// A body without the word `return` is left as it is by the `return (e)` rewrite.
pub proof fn law_no_return_unchanged(s: Seq<char>)
    requires
        !contains_seq(s, lit_return()),
    ensures
        strip_return_from(s, 0) == s,
{
    lemma_no_return_from(s, 0);
    assert(s.subrange(0, s.len() as int) =~= s);
}

/// A rule whose pattern finds nothing leaves the text as it is.
pub proof fn law_no_match_unchanged(r: Rule, t: Seq<char>)
    requires
        regex_captures(rule_pattern(r), t) == Some(Seq::<Seq<Option<(usize, usize)>>>::empty()),
    ensures
        rule_applied(r, t) == t,
{
    let b = vstd::utf8::encode_utf8(t);
    assert(b.subrange(0, b.len() as int) =~= b);
    assert(bslice(t, 0, b.len() as int) == t);
}

/// Expanding tabs leaves no tab.
pub proof fn law_expanded_has_no_tabs(s: Seq<char>, w: nat)
    requires
        w > 0,
    ensures
        !expand_tabs(s, w).contains('\t'),
    decreases s.len(),
{
    if s.len() > 0 {
        law_expanded_has_no_tabs(s.drop_last(), w);
        let prev = expand_tabs(s.drop_last(), w);
        let r = expand_tabs(s, w);
        if r.contains('\t') {
            let i = choose|i: int| 0 <= i < r.len() && r[i] == '\t';
            if i < prev.len() {
                assert(r[i] == prev[i]);
            }
        }
    }
}

/// Expanding tabs keeps every character that is not a tab, and each tab ends on a
/// multiple of `w` columns: the whole line ends on one when it ends with a tab.
pub proof fn law_tab_stops(s: Seq<char>, w: nat)
    requires
        w > 0,
        s.len() > 0,
        s.last() == '\t',
    ensures
        expand_tabs(s, w).len() % w == 0,
{
    let prev = expand_tabs(s.drop_last(), w);
    let l = prev.len() as int;
    let wi = w as int;
    vstd::arithmetic::div_mod::lemma_fundamental_div_mod(l, wi);
    vstd::arithmetic::div_mod::lemma_mod_bound(l, wi);
    assert(l + (wi - l % wi) == wi * (l / wi + 1)) by (nonlinear_arith)
        requires
            l == wi * (l / wi) + l % wi,
    ;
    vstd::arithmetic::div_mod::lemma_mod_multiples_vanish(l / wi + 1, 0, wi);
    vstd::arithmetic::div_mod::lemma_small_mod(0, w);
}

proof fn lemma_decimal_digits(n: nat)
    ensures
        decimal(n).len() > 0,
        all_digits(decimal(n)),
        digits_value(decimal(n)) == n,
    decreases n,
{
    if n >= 10 {
        lemma_decimal_digits(n / 10);
        let d = decimal(n / 10);
        let r = decimal(n);
        assert(r.drop_last() =~= d);
        assert forall|i: int| 0 <= i < r.len() implies '0' <= #[trigger] r[i] <= '9' by {
            if i < d.len() {
                assert(r[i] == d[i]);
            }
        }
        assert((digit_char(n % 10) as int) - ('0' as int) == n % 10);
        vstd::arithmetic::div_mod::lemma_fundamental_div_mod(n as int, 10);
        assert(r.last() == digit_char(n % 10));
        assert(digits_value(r) == digits_value(d) * 10 + (r.last() as int - '0' as int));
        assert(((n / 10) as int) * 10 == 10 * ((n / 10) as int)) by (nonlinear_arith);
        assert(digits_value(d) == n / 10);
        assert(digits_value(r) == n);
    } else {
        assert((digit_char(n) as int) - ('0' as int) == n);
        assert(decimal(n).drop_last() =~= Seq::<char>::empty());
        assert(digits_value(decimal(n)) == digits_value(decimal(n).drop_last()) * 10 + (decimal(n).last() as int - '0' as int));
    }
}

/// Reading back a printed line or column number gives the number.
pub proof fn law_number_round_trip(n: usize)
    ensures
        number_or_one(decimal(n as nat)) == n,
{
    lemma_decimal_digits(n as nat);
}

/// The part of a location after `tsrust_gen/` uses `/` only.
pub proof fn law_gen_suffix_slashes(p: Seq<char>)
    ensures
        spec_gen_suffix(p) matches Some(x) ==> !x.contains('\\'),
{
    let n = slashed(p);
    lemma_last_at_or_before(n, crate::linemap::lit_gen_dir(), n.len() - 11);
    match crate::linemap::last_at_or_before(n, crate::linemap::lit_gen_dir(), n.len() - 11) {
        Some(k) => {
            let x = n.skip(k + 11);
            if x.contains('\\') {
                let i = choose|i: int| 0 <= i < x.len() && x[i] == '\\';
                assert(x[i] == n[k + 11 + i]);
                assert(n[k + 11 + i] == (if p[k + 11 + i] == '\\' { '/' } else { p[k + 11 + i] }));
            }
        },
        None => {},
    }
}

proof fn lemma_last_at_or_before(s: Seq<char>, pat: Seq<char>, k: int)
    ensures
        crate::linemap::last_at_or_before(s, pat, k) matches Some(j) ==> 0 <= j <= k && starts_at(s, j, pat),
    decreases k + 1,
{
    if k >= 0 && !starts_at(s, k, pat) {
        lemma_last_at_or_before(s, pat, k - 1);
    }
}

/// Properties of the segments read so far: none holds a separator, each is a
/// stretch of `s` (the open one ends `s`), so none holds `::` when `s` does not.
proof fn lemma_piece_state(s: Seq<char>, slash: bool)
    ensures
        ({
            let (acc, cur) = piece_state(s, slash);
            &&& forall|j: int, i: int| 0 <= j < acc.len() && 0 <= i < acc[j].len() ==> !is_sep(#[trigger] acc[j][i], slash)
            &&& forall|i: int| 0 <= i < cur.len() ==> !is_sep(#[trigger] cur[i], slash)
            &&& cur.len() <= s.len()
            &&& cur == s.subrange(s.len() - cur.len(), s.len() as int)
            &&& !contains_seq(s, colons()) ==> (forall|j: int| 0 <= j < acc.len() ==> !contains_seq(#[trigger] acc[j], colons()))
            &&& !contains_seq(s, colons()) ==> !contains_seq(cur, colons())
        }),
    decreases s.len(),
{
    if s.len() > 0 {
        let d = s.drop_last();
        lemma_piece_state(d, slash);
        let (acc0, cur0) = piece_state(d, slash);
        let (acc, cur) = piece_state(s, slash);
        assert(!contains_seq(s, colons()) ==> !contains_seq(d, colons())) by {
            if contains_seq(d, colons()) {
                let i = choose|i: int| 0 <= i && #[trigger] starts_at(d, i, colons());
                assert(d.subrange(i, i + 2) =~= s.subrange(i, i + 2));
                assert(starts_at(s, i, colons()));
            }
        }
        if is_sep(s.last(), slash) {
            assert(cur =~= s.subrange(s.len() as int, s.len() as int));
            assert(!contains_seq(cur, colons())) by {
                if contains_seq(cur, colons()) {
                    let i = choose|i: int| 0 <= i && #[trigger] starts_at(cur, i, colons());
                }
            }
        } else {
            assert(cur == cur0.push(s.last()));
            assert(cur =~= s.subrange(s.len() - cur.len(), s.len() as int)) by {
                assert forall|i: int| 0 <= i < cur.len() implies cur[i] == s.subrange(s.len() - cur.len(), s.len() as int)[i] by {
                    if i < cur0.len() {
                        assert(cur0[i] == d.subrange(d.len() - cur0.len(), d.len() as int)[i]);
                    }
                }
            }
            if !contains_seq(s, colons()) && contains_seq(cur, colons()) {
                let i = choose|i: int| 0 <= i && #[trigger] starts_at(cur, i, colons());
                let off = s.len() - cur.len();
                assert(cur.subrange(i, i + 2) =~= s.subrange(off + i, off + i + 2)) by {
                    assert forall|q: int| 0 <= q < 2 implies #[trigger] cur.subrange(i, i + 2)[q] == s.subrange(off + i, off + i + 2)[q] by {
                        assert(cur[i + q] == s.subrange(off, s.len() as int)[i + q]);
                    }
                }
                assert(starts_at(s, off + i, colons()));
            }
        }
    }
}

pub proof fn lemma_pieces(s: Seq<char>, slash: bool)
    ensures
        forall|j: int, i: int|
            0 <= j < pieces(s, slash).len() && 0 <= i < pieces(s, slash)[j].len() ==> !is_sep(#[trigger] pieces(s, slash)[j][i], slash),
        !contains_seq(s, colons()) ==> forall|j: int|
            0 <= j < pieces(s, slash).len() ==> !contains_seq(#[trigger] pieces(s, slash)[j], colons()),
{
    lemma_piece_state(s, slash);
    let (acc, cur) = piece_state(s, slash);
    if cur.len() > 0 {
        assert forall|j: int| 0 <= j < acc.push(cur).len() implies acc.push(cur)[j] == (if j < acc.len() { acc[j] } else { cur }) by {}
    }
}

proof fn lemma_underscore_twice(s: Seq<char>)
    ensures
        underscore(underscore(s)) == underscore(s),
{
    assert(underscore(underscore(s)) =~= underscore(s));
}

proof fn lemma_underscore_keeps_colons(s: Seq<char>)
    requires
        contains_seq(s, colons()),
    ensures
        contains_seq(underscore(s), colons()),
{
    let i = choose|i: int| 0 <= i && #[trigger] starts_at(s, i, colons());
    assert(s.subrange(i, i + 2)[0] == ':' && s.subrange(i, i + 2)[1] == ':');
    assert(s[i] == ':' && s[i + 1] == ':');
    assert(underscore(s).subrange(i, i + 2) =~= colons());
    assert(starts_at(underscore(s), i, colons()));
}

proof fn lemma_underscore_colons(s: Seq<char>)
    ensures
        contains_seq(underscore(s), colons()) ==> contains_seq(s, colons()),
        underscore(s).len() == s.len(),
        forall|i: int| 0 <= i < s.len() ==> (underscore(s)[i] == '.' <==> #[trigger] s[i] == '.'),
{
    if contains_seq(underscore(s), colons()) {
        let i = choose|i: int| 0 <= i && #[trigger] starts_at(underscore(s), i, colons());
        assert(underscore(s).subrange(i, i + 2)[0] == ':');
        assert(underscore(s).subrange(i, i + 2)[1] == ':');
        assert(s[i] == ':' && s[i + 1] == ':');
        assert(s.subrange(i, i + 2) =~= colons());
        assert(starts_at(s, i, colons()));
    }
}

proof fn lemma_join_has_colons(parts: Seq<Seq<char>>)
    requires
        parts.len() >= 2,
    ensures
        contains_seq(join(parts, colons()), colons()),
{
    let j0 = join(parts.drop_last(), colons());
    let r = join(parts, colons());
    assert(r == j0 + colons() + parts.last());
    assert(r.subrange(j0.len() as int, j0.len() + 2int) =~= colons());
    assert(starts_at(r, j0.len() as int, colons()));
}

proof fn lemma_crate_prefix(k: nat)
    ensures
        k > 0 ==> contains_seq(crate_prefix(k), colons()),
        k == 0 ==> crate_prefix(k) == seq!['c', 'r', 'a', 't', 'e'],
        !crate_prefix(k).contains('-'),
    decreases k,
{
    if k > 0 {
        lemma_crate_prefix((k - 1) as nat);
        let a = crate_prefix((k - 1) as nat);
        let r = crate_prefix(k);
        assert(r.subrange(a.len() as int, a.len() + 2int) =~= colons());
        assert(starts_at(r, a.len() as int, colons()));
        if r.contains('-') {
            let i = choose|i: int| 0 <= i < r.len() && r[i] == '-';
            if i < a.len() {
                assert(r[i] == a[i]);
            }
        }
    }
}

/// A path without `.` and without `::` is only re-spelled: normalizing it again
/// changes nothing.
proof fn lemma_plain_segment(q: Seq<char>)
    requires
        forall|i: int| 0 <= i < q.len() ==> #[trigger] q[i] != '.',
        !contains_seq(q, colons()),
    ensures
        spec_normalize_path(underscore(q)) == underscore(q),
{
    let u = underscore(q);
    lemma_underscore_colons(q);
    lemma_underscore_twice(q);
    assert(!starts_at(u, 0, dot_slash()) && !starts_at(u, 0, dot_dot_slash())) by {
        if u.len() > 0 {
            assert(u[0] != '.');
            if starts_at(u, 0, dot_slash()) {
                assert(u.subrange(0, 2)[0] == u[0]);
            }
            if starts_at(u, 0, dot_dot_slash()) {
                assert(u.subrange(0, 3)[0] == u[0]);
            }
        }
    }
    assert(!u.contains('.')) by {
        if u.contains('.') {
            let i = choose|i: int| 0 <= i < u.len() && u[i] == '.';
            assert(q[i] == '.');
        }
    }
}

/// Normalizing a module path twice gives what normalizing once gives.
pub proof fn law_normalize_idempotent(p: Seq<char>)
    ensures
        spec_normalize_path(spec_normalize_path(p)) == spec_normalize_path(p),
{
    let n = spec_normalize_path(p);
    law_normalized_has_no_hyphen(p);
    assert(underscore(n) =~= n) by {
        assert forall|i: int| 0 <= i < n.len() implies n[i] != '-' by {
            if n[i] == '-' {
                assert(n.contains('-'));
            }
        }
    }
    if contains_seq(p, colons()) {
        lemma_underscore_keeps_colons(p);
        lemma_underscore_twice(p);
        assert(n == underscore(p));
        assert(contains_seq(n, colons()));
        assert(spec_normalize_path(n) == underscore(n));
    } else if starts_at(p, 0, dot_slash()) || starts_at(p, 0, dot_dot_slash()) {
        let (k, r0) = strip_parents(p);
        let r = if starts_at(r0, 0, dot_slash()) {
            r0.skip(2)
        } else {
            r0
        };
        let parts = pieces(r, true);
        lemma_crate_prefix(k);
        if parts.len() == 0 {
            if k == 0 {
                let c = seq!['c', 'r', 'a', 't', 'e'];
                assert(n == c);
                assert(!contains_seq(c, colons())) by {
                    if contains_seq(c, colons()) {
                        let i = choose|i: int| 0 <= i && #[trigger] starts_at(c, i, colons());
                        assert(c.subrange(i, i + 2)[0] == ':');
                    }
                }
                assert forall|i: int| 0 <= i < c.len() implies #[trigger] c[i] != '.' by {}
                lemma_plain_segment(c);
                assert(underscore(c) =~= c);
            }
        } else {
            let cp = crate_prefix(k);
            assert(n.subrange(cp.len() as int, cp.len() + 2int) =~= colons());
            assert(starts_at(n, cp.len() as int, colons()));
        }
    } else if p.contains('.') {
        let ps = pieces(p, false);
        let us = ps.map_values(|q: Seq<char>| underscore(q));
        if ps.len() >= 2 {
            lemma_join_has_colons(us);
        } else if ps.len() == 1 {
            lemma_pieces(p, false);
            assert(n == us[0]);
            assert(us[0] == underscore(ps[0]));
            assert forall|i: int| 0 <= i < ps[0].len() implies #[trigger] ps[0][i] != '.' by {
                assert(!is_sep(ps[0][i], false));
            }
            lemma_plain_segment(ps[0]);
        } else {
            assert(n =~= Seq::<char>::empty());
            assert(!contains_seq(n, colons())) by {
                if contains_seq(n, colons()) {
                    let i = choose|i: int| 0 <= i && #[trigger] starts_at(n, i, colons());
                }
            }
            assert(underscore(n) =~= n);
        }
    } else {
        assert forall|i: int| 0 <= i < p.len() implies #[trigger] p[i] != '.' by {
            if p[i] == '.' {
                assert(p.contains('.'));
            }
        }
        lemma_plain_segment(p);
    }
}

proof fn lemma_join_no_char(parts: Seq<Seq<char>>, sep: Seq<char>, c: char)
    requires
        !sep.contains(c),
        forall|j: int| 0 <= j < parts.len() ==> !(#[trigger] parts[j]).contains(c),
    ensures
        !join(parts, sep).contains(c),
    decreases parts.len(),
{
    if parts.len() >= 2 {
        lemma_join_no_char(parts.drop_last(), sep, c);
        let a = join(parts.drop_last(), sep);
        let r = join(parts, sep);
        assert(!parts.last().contains(c)) by {
            assert(parts.last() == parts[parts.len() - 1]);
        }
        if r.contains(c) {
            let i = choose|i: int| 0 <= i < r.len() && r[i] == c;
            if i < a.len() {
                assert(r[i] == a[i]);
            } else if i < a.len() + sep.len() {
                assert(r[i] == sep[i - a.len()]);
            } else {
                assert(r[i] == parts.last()[i - a.len() - sep.len()]);
            }
        }
    } else if parts.len() == 1 {
        assert(join(parts, sep) == parts[0]);
    }
}

proof fn lemma_underscore_no_hyphen(s: Seq<char>)
    ensures
        !underscore(s).contains('-'),
{
    if underscore(s).contains('-') {
        let i = choose|i: int| 0 <= i < underscore(s).len() && underscore(s)[i] == '-';
    }
}

/// Module paths come out without `-`: every hyphen of a segment becomes `_`.
pub proof fn law_normalized_has_no_hyphen(p: Seq<char>)
    ensures
        !spec_normalize_path(p).contains('-'),
{
    let n = spec_normalize_path(p);
    assert(!colons().contains('-')) by {
        if colons().contains('-') {
            let i = choose|i: int| 0 <= i < colons().len() && colons()[i] == '-';
        }
    }
    if contains_seq(p, colons()) {
        lemma_underscore_no_hyphen(p);
    } else if starts_at(p, 0, dot_slash()) || starts_at(p, 0, dot_dot_slash()) {
        let (k, r0) = strip_parents(p);
        let r = if starts_at(r0, 0, dot_slash()) {
            r0.skip(2)
        } else {
            r0
        };
        let parts = pieces(r, true);
        lemma_crate_prefix(k);
        if parts.len() > 0 {
            let us = parts.map_values(|q: Seq<char>| underscore(q));
            assert forall|j: int| 0 <= j < us.len() implies !(#[trigger] us[j]).contains('-') by {
                lemma_underscore_no_hyphen(parts[j]);
            }
            lemma_join_no_char(us, colons(), '-');
            let cp = crate_prefix(k);
            let jn = join(us, colons());
            if n.contains('-') {
                let i = choose|i: int| 0 <= i < n.len() && n[i] == '-';
                if i < cp.len() {
                    assert(n[i] == cp[i]);
                } else if i < cp.len() + 2 {
                    assert(n[i] == colons()[i - cp.len()]);
                } else {
                    assert(n[i] == jn[i - cp.len() - 2]);
                }
            }
        }
    } else if p.contains('.') {
        let us = pieces(p, false).map_values(|q: Seq<char>| underscore(q));
        assert forall|j: int| 0 <= j < us.len() implies !(#[trigger] us[j]).contains('-') by {
            lemma_underscore_no_hyphen(pieces(p, false)[j]);
        }
        lemma_join_no_char(us, colons(), '-');
    } else {
        lemma_underscore_no_hyphen(p);
    }
}

/// Within one function, distances between generated lines are kept: two lines
/// mapped through the same function start keep their distance in the source
/// (when no line number reaches `usize::MAX`).
pub proof fn law_mapping_keeps_distances(f: crate::linemap::SpecFileLine, l1: usize, l2: usize)
    requires
        f.fns.len() > 0,
        crate::linemap::best_fn(f.fns, l1, f.fns.len() as int) is Some,
        crate::linemap::best_fn(f.fns, l1, f.fns.len() as int) == crate::linemap::best_fn(f.fns, l2, f.fns.len() as int),
        ({
            let b = crate::linemap::best_fn(f.fns, l1, f.fns.len() as int).unwrap();
            f.fns[b].src_start + l2 - f.fns[b].gen_start <= usize::MAX && f.fns[b].src_start + l1 - f.fns[b].gen_start
                <= usize::MAX
        }),
    ensures
        crate::linemap::map_in_file(f, l2).1 - crate::linemap::map_in_file(f, l1).1 == l2 - l1,
{
    let b = crate::linemap::best_fn(f.fns, l1, f.fns.len() as int).unwrap();
    crate::linemap::lemma_best_fn(f.fns, l1, f.fns.len() as int);
    crate::linemap::lemma_best_fn(f.fns, l2, f.fns.len() as int);
}

/// The carets never go left of the reported column: a token column found at or
/// after `min` is at least `min`.
pub proof fn law_caret_not_left_of_column(l: Seq<char>, tok: Seq<char>, blen: int, min: int, p: int, col: int)
    ensures
        crate::linemap::token_col_from(l, tok, blen, min, p, col) matches Some(c) ==> c >= min,
    decreases l.len() + 1 - p,
{
    if !(tok.len() == 0 || p < 0 || p > l.len()) {
        lemma_find_from(l, tok, p);
        match find_from(l, tok, p) {
            Some(k) => {
                let c = col + (k - p);
                if c < min {
                    law_caret_not_left_of_column(l, tok, blen, min, k + tok.len(), c + blen);
                }
            },
            None => {},
        }
    }
}

proof fn lemma_item_messages_len(
    file: Seq<char>,
    line_no: nat,
    line: Seq<char>,
    miss: Seq<Seq<char>>,
    spec: Seq<char>,
    shows: Seq<Seq<Seq<char>>>,
)
    requires
        shows.len() >= miss.len(),
    ensures
        crate::exports::item_messages(file, line_no, line, miss, spec, shows).len() == miss.len(),
    decreases miss.len(),
{
    if miss.len() > 0 {
        lemma_item_messages_len(file, line_no, line, miss.drop_last(), spec, shows);
    }
}

proof fn lemma_lines_messages_empty(
    file: Seq<char>,
    lines: Seq<Seq<char>>,
    n: int,
    keys: Seq<Seq<char>>,
    idx: Seq<(Seq<char>, Seq<Seq<char>>)>,
    shows: Seq<Seq<Seq<Seq<char>>>>,
)
    requires
        0 <= n <= lines.len(),
        crate::exports::lines_fit(lines, keys, idx, shows),
    ensures
        crate::exports::lines_messages(file, lines, n, keys, idx, shows).len() == 0 <==> forall|i: int|
            0 <= i < n ==> #[trigger] crate::exports::line_missing(lines[i], keys[i], idx).len() == 0,
    decreases n,
{
    if n > 0 {
        lemma_lines_messages_empty(file, lines, n - 1, keys, idx, shows);
        let i = n - 1;
        assert(crate::exports::shows_fit(crate::exports::line_missing(lines[i], keys[i], idx), idx, shows[i]));
        match crate::exports::relative_import(lines[i]) {
            Some((items, spec)) => {
                lemma_item_messages_len(
                    file,
                    (i + 1) as nat,
                    lines[i],
                    crate::exports::missing_items(items, crate::exports::lookup(idx, keys[i])),
                    spec,
                    shows[i],
                );
            },
            None => {},
        }
    }
}

proof fn lemma_files_messages_empty(
    files: Seq<(Seq<char>, Seq<char>, Seq<char>)>,
    n: int,
    keys: Seq<Seq<Seq<char>>>,
    idx: Seq<(Seq<char>, Seq<Seq<char>>)>,
    shows: Seq<Seq<Seq<Seq<Seq<char>>>>>,
)
    requires
        0 <= n <= files.len(),
        crate::exports::files_fit(files, keys, idx, shows),
    ensures
        crate::exports::files_messages(files, n, keys, idx, shows).len() == 0 <==> forall|k: int, i: int|
            0 <= k < n && 0 <= i < crate::exports::std_lines(files[k].2).len() ==> #[trigger] crate::exports::line_missing(
                crate::exports::std_lines(files[k].2)[i],
                keys[k][i],
                idx,
            ).len() == 0,
    decreases n,
{
    if n > 0 {
        lemma_files_messages_empty(files, n - 1, keys, idx, shows);
        let lines = crate::exports::std_lines(files[n - 1].2);
        assert(crate::exports::lines_fit(lines, keys[n - 1], idx, shows[n - 1]));
        lemma_lines_messages_empty(files[n - 1].0, lines, lines.len() as int, keys[n - 1], idx, shows[n - 1]);
    }
}

/// Checking imports succeeds exactly when no relative import line names an item
/// that its target module does not export.
pub proof fn law_imports_ok_iff_all_exported(
    files: Seq<(Seq<char>, Seq<char>, Seq<char>)>,
    keys: Seq<Seq<Seq<char>>>,
    idx: Seq<(Seq<char>, Seq<Seq<char>>)>,
    shows: Seq<Seq<Seq<Seq<Seq<char>>>>>,
)
    requires
        crate::exports::files_fit(files, keys, idx, shows),
    ensures
        crate::exports::spec_join_errors(crate::exports::files_messages(files, files.len() as int, keys, idx, shows))
            is Ok <==> forall|k: int, i: int|
            0 <= k < files.len() && 0 <= i < crate::exports::std_lines(files[k].2).len()
                ==> #[trigger] crate::exports::line_missing(crate::exports::std_lines(files[k].2)[i], keys[k][i], idx).len()
                == 0,
{
    lemma_files_messages_empty(files, files.len() as int, keys, idx, shows);
}

/// Every relative import of every file resolves alike on every platform.
pub open spec fn imports_determined(files: Seq<(Seq<char>, Seq<char>, Seq<char>)>, root: Seq<char>) -> bool {
    forall|k: int, i: int|
        0 <= k < files.len() && 0 <= i < crate::exports::std_lines(files[k].2).len() ==> match crate::exports::relative_import(
            #[trigger] crate::exports::std_lines(files[k].2)[i],
        ) {
            Some((items, spec)) => crate::exports::key_determined(files[k].1, spec, root),
            None => true,
        }
}

/// Every relatively imported binding is exported by the module its specifier
/// names from the importing file's directory.
pub open spec fn all_imports_exported(
    files: Seq<(Seq<char>, Seq<char>, Seq<char>)>,
    idx: Seq<(Seq<char>, Seq<Seq<char>>)>,
    root: Seq<char>,
) -> bool {
    forall|k: int, i: int|
        0 <= k < files.len() && 0 <= i < crate::exports::std_lines(files[k].2).len() ==> match crate::exports::relative_import(
            #[trigger] crate::exports::std_lines(files[k].2)[i],
        ) {
            Some((items, spec)) => crate::exports::missing_items(
                items,
                crate::exports::lookup(idx, crate::exports::target_spec(files[k].1, spec, root)),
            ).len() == 0,
            None => true,
        }
}

/// Where every import resolves alike, checking imports succeeds exactly when
/// every relatively imported binding is exported by the module its specifier
/// names from the importing file's directory.
pub proof fn law_imports_ok_iff_resolved_exported(
    files: Seq<(Seq<char>, Seq<char>, Seq<char>)>,
    keys: Seq<Seq<Seq<char>>>,
    idx: Seq<(Seq<char>, Seq<Seq<char>>)>,
    shows: Seq<Seq<Seq<Seq<Seq<char>>>>>,
    root: Seq<char>,
)
    requires
        crate::exports::files_fit(files, keys, idx, shows),
        crate::exports::keys_resolved(files, keys, root),
        imports_determined(files, root),
    ensures
        crate::exports::spec_join_errors(crate::exports::files_messages(files, files.len() as int, keys, idx, shows))
            is Ok <==> all_imports_exported(files, idx, root),
{
    law_imports_ok_iff_all_exported(files, keys, idx, shows);
    let ok = crate::exports::spec_join_errors(crate::exports::files_messages(files, files.len() as int, keys, idx, shows)) is Ok;
    assert forall|k: int, i: int|
        0 <= k < files.len() && 0 <= i < crate::exports::std_lines(files[k].2).len() implies (
        #[trigger] crate::exports::line_missing(crate::exports::std_lines(files[k].2)[i], keys[k][i], idx).len() == 0
            <==> match crate::exports::relative_import(crate::exports::std_lines(files[k].2)[i]) {
            Some((items, spec)) => crate::exports::missing_items(
                items,
                crate::exports::lookup(idx, crate::exports::target_spec(files[k].1, spec, root)),
            ).len() == 0,
            None => true,
        }) by {
        let line = crate::exports::std_lines(files[k].2)[i];
        assert(crate::exports::line_key_ok(line, keys[k][i], files[k].1, root));
        match crate::exports::relative_import(line) {
            Some((items, spec)) => {
                assert(crate::exports::key_determined(files[k].1, spec, root));
            },
            None => {},
        }
    }
    if ok {
        assert forall|k: int, i: int|
            0 <= k < files.len() && 0 <= i < crate::exports::std_lines(files[k].2).len() implies match crate::exports::relative_import(
            #[trigger] crate::exports::std_lines(files[k].2)[i],
        ) {
            Some((items, spec)) => crate::exports::missing_items(
                items,
                crate::exports::lookup(idx, crate::exports::target_spec(files[k].1, spec, root)),
            ).len() == 0,
            None => true,
        } by {
            assert(crate::exports::line_missing(crate::exports::std_lines(files[k].2)[i], keys[k][i], idx).len() == 0);
        }
    }
    if all_imports_exported(files, idx, root) {
        assert forall|k: int, i: int|
            0 <= k < files.len() && 0 <= i < crate::exports::std_lines(files[k].2).len() implies #[trigger] crate::exports::line_missing(
            crate::exports::std_lines(files[k].2)[i],
            keys[k][i],
            idx,
        ).len() == 0 by {
            let line = crate::exports::std_lines(files[k].2)[i];
            assert(match crate::exports::relative_import(line) {
                Some((items, spec)) => crate::exports::missing_items(
                    items,
                    crate::exports::lookup(idx, crate::exports::target_spec(files[k].1, spec, root)),
                ).len() == 0,
                None => true,
            });
        }
    }
}

} // verus!
