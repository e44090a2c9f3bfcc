//! Properties of the lexer, the body rewrites, diagnostics and import checking,
//! stated over all inputs.
use vstd::prelude::*;
use crate::lexer::{Tok, ident_end, skip_trivia, str_scan, tokenize_spec, tokens_from, ws_end, next_tok};
use crate::diagnostics::{Ctx, culprit_from, display_loc, read_lines, stored, strip_eol};
use crate::exports::{import_message, item_messages, missing_items, spec_find_col};
use crate::pattern::{Rule, gtext, rule_rep};
use crate::rewrite::{switch_step, switches_upto};
use crate::switch_count::{lemma_s_count_le_len, lemma_switches_reach_end};
use crate::text::{find_from, is_ident_char, lemma_find_from, starts_at, trim};

verus! {

// ----- the lexer -----

/// Reading a run `p` of plain characters (neither the quote `q` nor a backslash)
/// adds them to the literal.
proof fn lemma_scan_run(s: Seq<char>, start: int, p: Seq<char>, q: char, acc: Seq<char>, k: int)
    requires
        0 <= start,
        start + p.len() <= s.len(),
        s.subrange(start, start + p.len()) == p,
        forall|x: int| 0 <= x < p.len() ==> p[x] != q && p[x] != '\\',
        0 <= k <= p.len(),
    ensures
        str_scan(s, start + k, q, false, acc + p.take(k)) == str_scan(s, start + p.len(), q, false, acc + p),
    decreases p.len() - k,
{
    if k == p.len() {
        assert(p.take(k) =~= p);
    } else {
        assert(s[start + k] == p[k]) by {
            assert(s.subrange(start, start + p.len())[k] == s[start + k]);
        }
        assert((acc + p.take(k)).push(p[k]) =~= acc + p.take(k + 1));
        lemma_scan_run(s, start, p, q, acc, k + 1);
    }
}

/// A string literal reads alike whichever quote opens it: in `from 'p'` and in
/// `from "p"` (for a body `p` with neither that quote nor a backslash) the
/// tokens are `From` and then one `Str` token holding `p`, starting at the quote.
#[verifier::rlimit(30)]
pub proof fn law_quoted_literal(p: Seq<char>, q: char)
    requires
        q == '\'' || q == '"',
        forall|x: int| 0 <= x < p.len() ==> p[x] != q && p[x] != '\\',
    ensures
        ({
            let s = seq!['f', 'r', 'o', 'm', ' ', q] + p + seq![q];
            &&& tokenize_spec(s).len() == 2
            &&& tokenize_spec(s)[0].0 == Tok::<Seq<char>>::From
            &&& tokenize_spec(s)[1].0 == Tok::<Seq<char>>::Str(p)
            &&& tokenize_spec(s)[1].1.start == 5
        }),
{
    let s = seq!['f', 'r', 'o', 'm', ' ', q] + p + seq![q];
    let n = s.len() as int;
    assert(s[0] == 'f' && s[1] == 'r' && s[2] == 'o' && s[3] == 'm' && s[4] == ' ' && s[5] == q);
    assert(s[n - 1] == q);
    // the keyword
    assert(ws_end(s, 0) == 0);
    assert(!starts_at(s, 0, crate::lexer::slash_slash()));
    assert(!starts_at(s, 0, crate::lexer::slash_star()));
    assert(skip_trivia(s, 0) == 0);
    assert(ident_end(s, 4) == 4);
    assert(ident_end(s, 3) == 4);
    assert(ident_end(s, 2) == 4);
    assert(ident_end(s, 1) == 4);
    assert(ident_end(s, 0) == 4);
    assert(s.subrange(0, 4) =~= seq!['f', 'r', 'o', 'm']);
    assert(next_tok(s, 0) == Some(((Tok::<Seq<char>>::From, crate::lexer::mk_span(0, 4)), 4int)));
    // the literal
    assert(ws_end(s, 5) == 5);
    assert(ws_end(s, 4) == 5);
    assert(!starts_at(s, 5, crate::lexer::slash_slash()));
    assert(!starts_at(s, 5, crate::lexer::slash_star()));
    assert(skip_trivia(s, 4) == 5);
    assert(s.subrange(6, 6 + p.len() as int) =~= p);
    lemma_scan_run(s, 6, p, q, Seq::empty(), 0);
    assert(Seq::<char>::empty() + p.take(0) =~= Seq::<char>::empty());
    assert(Seq::<char>::empty() + p =~= p);
    assert(s[6 + p.len() as int] == q);
    assert(str_scan(s, 6, q, false, Seq::empty()) == (p, n));
    assert(next_tok(s, 4) == Some(((Tok::<Seq<char>>::Str(p), crate::lexer::mk_span(5, n)), n)));
    // the end
    assert(ws_end(s, n) == n);
    assert(skip_trivia(s, n) == n);
    assert(next_tok(s, n) is None);
    assert(tokens_from(s, n) =~= Seq::empty());
    assert(tokens_from(s, 4) =~= seq![(Tok::<Seq<char>>::Str(p), crate::lexer::mk_span(5, n))]);
    assert(tokens_from(s, 0) =~= seq![
        (Tok::<Seq<char>>::From, crate::lexer::mk_span(0, 4)),
        (Tok::<Seq<char>>::Str(p), crate::lexer::mk_span(5, n)),
    ]);
}


/// A backslash in a string literal takes the next character as it is, a quote
/// included: `from 'a\'b'` (or with `"`) gives `From` and then `Str(a'b)`; in
/// general `p1`, the escaped character `c` and `p2`, for runs `p1`, `p2` without
/// the quote or a backslash.
#[verifier::rlimit(30)]
pub proof fn law_escaped_character(p1: Seq<char>, c: char, p2: Seq<char>, q: char)
    requires
        q == '\'' || q == '"',
        forall|x: int| 0 <= x < p1.len() ==> p1[x] != q && p1[x] != '\\',
        forall|x: int| 0 <= x < p2.len() ==> p2[x] != q && p2[x] != '\\',
    ensures
        ({
            let s = seq!['f', 'r', 'o', 'm', ' ', q] + p1 + seq!['\\', c] + p2 + seq![q];
            &&& tokenize_spec(s).len() == 2
            &&& tokenize_spec(s)[0].0 == Tok::<Seq<char>>::From
            &&& tokenize_spec(s)[1].0 == Tok::<Seq<char>>::Str(p1.push(c) + p2)
        }),
{
    let s = seq!['f', 'r', 'o', 'm', ' ', q] + p1 + seq!['\\', c] + p2 + seq![q];
    let n = s.len() as int;
    let a = 6 + p1.len() as int;
    assert(s[0] == 'f' && s[1] == 'r' && s[2] == 'o' && s[3] == 'm' && s[4] == ' ' && s[5] == q);
    assert(s[n - 1] == q);
    assert(s[a] == '\\' && s[a + 1] == c);
    assert(ws_end(s, 0) == 0);
    assert(!starts_at(s, 0, crate::lexer::slash_slash()));
    assert(!starts_at(s, 0, crate::lexer::slash_star()));
    assert(skip_trivia(s, 0) == 0);
    assert(ident_end(s, 4) == 4);
    assert(ident_end(s, 3) == 4);
    assert(ident_end(s, 2) == 4);
    assert(ident_end(s, 1) == 4);
    assert(ident_end(s, 0) == 4);
    assert(s.subrange(0, 4) =~= seq!['f', 'r', 'o', 'm']);
    assert(next_tok(s, 0) == Some(((Tok::<Seq<char>>::From, crate::lexer::mk_span(0, 4)), 4int)));
    assert(ws_end(s, 5) == 5);
    assert(ws_end(s, 4) == 5);
    assert(!starts_at(s, 5, crate::lexer::slash_slash()));
    assert(!starts_at(s, 5, crate::lexer::slash_star()));
    assert(skip_trivia(s, 4) == 5);
    // the run before the backslash, the escape, the run after it, the closing quote
    assert(s.subrange(6, a) =~= p1);
    lemma_scan_run(s, 6, p1, q, Seq::empty(), 0);
    assert(Seq::<char>::empty() + p1.take(0) =~= Seq::<char>::empty());
    assert(Seq::<char>::empty() + p1 =~= p1);
    assert(str_scan(s, a + 1, q, true, p1) == str_scan(s, a + 2, q, false, p1.push(c)));
    assert(str_scan(s, a, q, false, p1) == str_scan(s, a + 1, q, true, p1));
    assert(s.subrange(a + 2, a + 2 + p2.len()) =~= p2);
    lemma_scan_run(s, a + 2, p2, q, p1.push(c), 0);
    assert(p1.push(c) + p2.take(0) =~= p1.push(c));
    assert(s[a + 2 + p2.len()] == q);
    assert(str_scan(s, a + 2 + p2.len(), q, false, p1.push(c) + p2) == (p1.push(c) + p2, n));
    assert(str_scan(s, 6, q, false, Seq::empty()) == (p1.push(c) + p2, n));
    assert(next_tok(s, 4) == Some(((Tok::<Seq<char>>::Str(p1.push(c) + p2), crate::lexer::mk_span(5, n)), n)));
    assert(ws_end(s, n) == n);
    assert(skip_trivia(s, n) == n);
    assert(next_tok(s, n) is None);
    assert(tokens_from(s, n) =~= Seq::empty());
    assert(tokens_from(s, 4) =~= seq![(Tok::<Seq<char>>::Str(p1.push(c) + p2), crate::lexer::mk_span(5, n))]);
}

// ----- local arrows -----

proof fn lemma_prefix_of_concat(a: Seq<char>, b: Seq<char>)
    ensures
        a.is_prefix_of(a + b),
{
    assert((a + b).subrange(0, a.len() as int) =~= a);
}

/// A local arrow becomes the same closure whether its body is an expression or a
/// block; the closure begins `let NAME = move |` when the arrow says `move`
/// (group 2), `let NAME = |` when it does not, and ends with ` };`.
pub proof fn law_arrow_closure_keeps_move(t: Seq<char>, m: Seq<Option<(usize, usize)>>)
    ensures
        rule_rep(Rule::ArrowExpr, t, m) == rule_rep(Rule::ArrowBlock, t, m),
        trim(gtext(t, m, 2)).len() > 0 ==> ("let "@ + trim(gtext(t, m, 1)) + " = move |"@).is_prefix_of(
            rule_rep(Rule::ArrowExpr, t, m),
        ),
        trim(gtext(t, m, 2)).len() == 0 ==> ("let "@ + trim(gtext(t, m, 1)) + " = |"@).is_prefix_of(
            rule_rep(Rule::ArrowExpr, t, m),
        ),
        " };"@.is_suffix_of(rule_rep(Rule::ArrowExpr, t, m)),
{
    let name = trim(gtext(t, m, 1));
    let mv = trim(gtext(t, m, 2));
    let params = trim(gtext(t, m, 3));
    let ret = trim(gtext(t, m, 4));
    let body = trim(gtext(t, m, 5));
    let r = rule_rep(Rule::ArrowExpr, t, m);
    let head = "let "@ + name + " = "@ + (if mv.len() == 0 {
        Seq::empty()
    } else {
        "move "@
    }) + "|"@;
    let rest = params + "| -> "@ + ret + " { "@ + body;
    assert(r =~= head + rest + " };"@);
    lemma_prefix_of_concat(head, rest + " };"@);
    assert(head + (rest + " };"@) =~= r);
    reveal_strlit(" = ");
    reveal_strlit(" = |");
    reveal_strlit(" = move |");
    reveal_strlit("move ");
    reveal_strlit("|");
    if mv.len() == 0 {
        assert(head =~= "let "@ + name + " = |"@);
    } else {
        assert(head =~= "let "@ + name + " = move |"@);
    }
    reveal_strlit(" };");
    let tail = " };"@;
    let front = head + rest;
    assert(tail.len() == 3);
    assert(r.subrange(front.len() as int, r.len() as int) =~= tail);
    assert(r.len() == front.len() + 3);
}


// ----- import checking -----

/// The names of `items` that `exported` (the target module's exports; `None` when
/// the module is unknown) does not hold, in order.
pub open spec fn unexported(items: Seq<Seq<char>>, exported: Option<Seq<Seq<char>>>) -> Seq<Seq<char>> {
    items.filter(|x: Seq<char>| !(exported matches Some(e) && e.contains(x)))
}

proof fn lemma_missing_is_unexported(items: Seq<Seq<char>>, exported: Option<Seq<Seq<char>>>)
    ensures
        missing_items(items, exported) == unexported(items, exported),
    decreases items.len(),
{
    reveal(Seq::filter);
    let f = |x: Seq<char>| !(exported matches Some(e) && e.contains(x));
    assert(unexported(items, exported) == items.filter(f));
    if items.len() > 0 {
        lemma_missing_is_unexported(items.drop_last(), exported);
        assert(unexported(items.drop_last(), exported) == items.drop_last().filter(f));
        assert(items.filter(f) == if f(items.last()) {
            items.drop_last().filter(f).push(items.last())
        } else {
            items.drop_last().filter(f)
        });
    } else {
        assert(items.filter(f) =~= Seq::<Seq<char>>::empty());
    }
}

proof fn lemma_item_messages_each(
    file: Seq<char>,
    line_no: nat,
    line: Seq<char>,
    miss: Seq<Seq<char>>,
    spec: Seq<char>,
    shows: Seq<Seq<Seq<char>>>,
)
    requires
        shows.len() >= miss.len(),
    ensures
        item_messages(file, line_no, line, miss, spec, shows).len() == miss.len(),
        forall|k: int|
            0 <= k < miss.len() ==> #[trigger] item_messages(file, line_no, line, miss, spec, shows)[k]
                == import_message(file, line_no, spec_find_col(line, miss[k]) as nat, miss[k], spec, shows[k]),
    decreases miss.len(),
{
    if miss.len() > 0 {
        lemma_item_messages_each(file, line_no, line, miss.drop_last(), spec, shows);
        let prev = item_messages(file, line_no, line, miss.drop_last(), spec, shows);
        assert forall|k: int| 0 <= k < miss.len() implies #[trigger] item_messages(
            file,
            line_no,
            line,
            miss,
            spec,
            shows,
        )[k] == import_message(file, line_no, spec_find_col(line, miss[k]) as nat, miss[k], spec, shows[k]) by {
            if k < miss.len() - 1 {
                assert(item_messages(file, line_no, line, miss, spec, shows)[k] == prev[k]);
                assert(miss.drop_last()[k] == miss[k]);
            }
        }
    }
}

/// Checking one import line reports each imported name that the target module
/// does not export (each name when the target is unknown), once and in the
/// order of the line: there are as many messages as such names, and the `k`-th
/// message names the `k`-th of them, with its column on the line and the `k`-th
/// hint list.
pub proof fn law_one_message_per_unexported_name(
    file: Seq<char>,
    line_no: nat,
    line: Seq<char>,
    items: Seq<Seq<char>>,
    exported: Option<Seq<Seq<char>>>,
    spec: Seq<char>,
    shows: Seq<Seq<Seq<char>>>,
)
    requires
        shows.len() == unexported(items, exported).len(),
    ensures
        item_messages(file, line_no, line, missing_items(items, exported), spec, shows).len() == unexported(
            items,
            exported,
        ).len(),
        forall|k: int|
            0 <= k < unexported(items, exported).len() ==> #[trigger] item_messages(
                file,
                line_no,
                line,
                missing_items(items, exported),
                spec,
                shows,
            )[k] == import_message(
                file,
                line_no,
                spec_find_col(line, unexported(items, exported)[k]) as nat,
                unexported(items, exported)[k],
                spec,
                shows[k],
            ),
{
    lemma_missing_is_unexported(items, exported);
    lemma_item_messages_each(file, line_no, line, unexported(items, exported), spec, shows);
}


// ----- diagnostics -----

/// Line `n` (1-based) of `t`, without its line ending.
pub open spec fn nth_line(t: Seq<char>, n: int) -> Seq<char> {
    strip_eol(read_lines(t)[n - 1])
}

proof fn lemma_first_at(l: Seq<char>, tok: Seq<char>, k: int)
    requires
        starts_at(l, k, tok),
        forall|j: int| 0 <= j < k ==> !#[trigger] starts_at(l, j, tok),
    ensures
        find_from(l, tok, 0) == Some(k),
{
    lemma_find_from(l, tok, 0);
}

proof fn lemma_culprit_ahead(t: Seq<char>, ml: usize, tok: Seq<char>, d: int, k: int, i: int)
    requires
        1 <= ml,
        ml + 4 <= usize::MAX,
        tok.len() > 0,
        0 <= i <= d <= 4,
        ml - 1 + d < read_lines(t).len(),
        starts_at(nth_line(t, ml + d), k, tok),
        forall|j: int| 0 <= j < k ==> !#[trigger] starts_at(nth_line(t, ml + d), j, tok),
        forall|e: int, j: int| 0 <= e < d ==> !#[trigger] starts_at(nth_line(t, ml + e), j, tok),
    ensures
        culprit_from(t, ml, tok, 4, i as nat) == Some(((ml + d) as usize, k, nth_line(t, ml + d))),
    decreases d - i,
{
    let l = nth_line(t, ml + i);
    assert(l == strip_eol(read_lines(t)[ml - 1 + i]));
    if i == d {
        lemma_first_at(l, tok, k);
        assert(l.len() > 0);
    } else {
        lemma_culprit_ahead(t, ml, tok, d, k, i + 1);
        if l.len() > 0 {
            lemma_find_from(l, tok, 0);
            assert(find_from(l, tok, 0) is None) by {
                if let Some(k2) = find_from(l, tok, 0) {
                    assert(!starts_at(nth_line(t, ml + i), k2, tok));
                }
            }
        }
    }
}

/// A diagnostic whose culprit token is found on the mapped source line or on one
/// of the four lines after it points at the first such line: the shown location is
/// that line and one past the token's first column on it, and the snippet shows
/// that line.
pub proof fn law_culprit_found_ahead(
    ctx: Ctx,
    mp: Seq<char>,
    ml: usize,
    col: usize,
    tok: Seq<char>,
    t: Seq<char>,
    d: int,
    k: int,
)
    requires
        stored(ctx.files, mp) == Some(t),
        1 <= ml,
        ml + 4 <= usize::MAX,
        tok.len() > 0,
        0 <= d <= 4,
        ml - 1 + d < read_lines(t).len(),
        k < usize::MAX,
        starts_at(nth_line(t, ml + d), k, tok),
        forall|j: int| 0 <= j < k ==> !#[trigger] starts_at(nth_line(t, ml + d), j, tok),
        forall|e: int, j: int| 0 <= e < d ==> !#[trigger] starts_at(nth_line(t, ml + e), j, tok),
    ensures
        display_loc(ctx, mp, ml, col, Some(tok)) == ((ml + d) as usize, (k + 1) as usize, Some(nth_line(t, ml + d))),
{
    lemma_culprit_ahead(t, ml, tok, d, k, 0);
}



// ----- `switch` statements -----

/// Rewriting `switch` statements leaves none behind: no `switch (e) { ... }` of
/// the result can still be rewritten, so rewriting the result again, any number
/// of times, gives it back unchanged.
pub proof fn law_switch_rewrite_complete(s: Seq<char>, again: nat)
    ensures
        switch_step(switches_upto(s, (s.len() + 1) as nat)) is None,
        switches_upto(switches_upto(s, (s.len() + 1) as nat), again) == switches_upto(s, (s.len() + 1) as nat),
{
    lemma_s_count_le_len(s);
    lemma_switches_reach_end(s, (s.len() + 1) as nat);
}

} // verus!
