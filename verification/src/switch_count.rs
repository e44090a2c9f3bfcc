//! Why rewriting `switch` statements comes to an end: every rewrite removes the
//! `s` of one `switch` keyword and writes no `s` of its own, so a text holds at
//! most as many rewrites as `s` characters.
use vstd::prelude::*;
use crate::lexer::{lemma_ws_end, ws_end};
use crate::paths::join;
use crate::rewrite::{
    SpecArm, arm_body, arm_end, arm_text, arms_from, arms_text, balanced_from, case_ws, labels_from,
    lemma_arm_end, lemma_balanced_from, lemma_case_ws, lemma_labels_from, lemma_pat_end, lemma_switch_kw_from,
    lit_switch, match_text, pat_end, strip_breaks_from, switch_kw_from, switch_step, switches_upto,
};
use crate::text::{is_ws, lead_ws, lemma_trail_ws_bound, starts_at, trail_ws, trim};

verus! {

/// The number of `s` characters of `t`.
pub open spec fn s_count(t: Seq<char>) -> nat
    decreases t.len(),
{
    if t.len() == 0 {
        0
    } else {
        s_count(t.drop_last()) + if t.last() == 's' {
            1nat
        } else {
            0nat
        }
    }
}

pub proof fn lemma_s_count_add(a: Seq<char>, b: Seq<char>)
    ensures
        s_count(a + b) == s_count(a) + s_count(b),
    decreases b.len(),
{
    if b.len() == 0 {
        assert(a + b =~= a);
    } else {
        assert((a + b).drop_last() =~= a + b.drop_last());
        assert((a + b).last() == b.last());
        lemma_s_count_add(a, b.drop_last());
    }
}

pub proof fn lemma_s_count_le_len(t: Seq<char>)
    ensures
        s_count(t) <= t.len(),
    decreases t.len(),
{
    if t.len() > 0 {
        lemma_s_count_le_len(t.drop_last());
    }
}

/// A text without `s` counts none.
pub proof fn lemma_s_count_none(t: Seq<char>)
    requires
        forall|i: int| 0 <= i < t.len() ==> t[i] != 's',
    ensures
        s_count(t) == 0,
    decreases t.len(),
{
    if t.len() > 0 {
        lemma_s_count_none(t.drop_last());
    }
}

/// Cutting `t[a..c]` at `b` splits its count.
pub proof fn lemma_s_count_split(t: Seq<char>, a: int, b: int, c: int)
    requires
        0 <= a <= b <= c <= t.len(),
    ensures
        s_count(t.subrange(a, c)) == s_count(t.subrange(a, b)) + s_count(t.subrange(b, c)),
{
    assert(t.subrange(a, c) =~= t.subrange(a, b) + t.subrange(b, c));
    lemma_s_count_add(t.subrange(a, b), t.subrange(b, c));
}

/// A stretch inside another counts no more.
pub proof fn lemma_s_count_inner(t: Seq<char>, a: int, c: int, d: int, b: int)
    requires
        0 <= a <= c <= d <= b <= t.len(),
    ensures
        s_count(t.subrange(c, d)) <= s_count(t.subrange(a, b)),
{
    lemma_s_count_split(t, a, c, b);
    lemma_s_count_split(t, c, d, b);
}

pub proof fn lemma_s_count_whole(t: Seq<char>)
    ensures
        t.subrange(0, t.len() as int) == t,
{
    assert(t.subrange(0, t.len() as int) =~= t);
}

proof fn lemma_lead_ws(s: Seq<char>)
    ensures
        lead_ws(s) <= s.len(),
        lead_ws(s) < s.len() ==> !is_ws(s[lead_ws(s) as int]),
    decreases s.len(),
{
    if s.len() > 0 && is_ws(s[0]) {
        lemma_lead_ws(s.drop_first());
        if lead_ws(s) < s.len() {
            assert(s[lead_ws(s) as int] == s.drop_first()[lead_ws(s.drop_first()) as int]);
        }
    }
}

/// Trimming only drops characters.
pub proof fn lemma_s_count_trim(x: Seq<char>)
    ensures
        s_count(trim(x)) <= s_count(x),
{
    let a = lead_ws(x);
    lemma_lead_ws(x);
    if a < x.len() {
        lemma_trail_ws_bound(x, a as int);
        lemma_s_count_whole(x);
        lemma_s_count_inner(x, 0, a as int, x.len() - trail_ws(x), x.len() as int);
    }
}

/// Removing `break`s only drops characters.
pub proof fn lemma_s_count_strip(s: Seq<char>, i: int, dp: int, db: int)
    requires
        0 <= i <= s.len(),
    ensures
        s_count(strip_breaks_from(s, i, dp, db)) <= s_count(s.subrange(i, s.len() as int)),
    decreases s.len() - i,
{
    if i < s.len() {
        if dp == 0 && db == 0 && starts_at(s, i, crate::rewrite::lit_break()) && (i == 0
            || !crate::text::is_ident_char(s[i - 1])) && crate::rewrite::boundary(s, i + 5) {
            let j = ws_end(s, i + 5);
            lemma_ws_end(s, i + 5);
            let j2 = if j < s.len() && s[j] == ';' {
                j + 1
            } else {
                j
            };
            lemma_s_count_strip(s, j2, dp, db);
            lemma_s_count_inner(s, i, j2, s.len() as int, s.len() as int);
        } else {
            let c = s[i];
            let dp2 = if c == '(' {
                dp + 1
            } else if c == ')' {
                dp - 1
            } else {
                dp
            };
            let db2 = if c == '{' {
                db + 1
            } else if c == '}' {
                db - 1
            } else {
                db
            };
            lemma_s_count_strip(s, i + 1, dp2, db2);
            lemma_s_count_add(seq![c], strip_breaks_from(s, i + 1, dp2, db2));
            lemma_s_count_split(s, i, i + 1, s.len() as int);
            assert(s.subrange(i, i + 1) =~= seq![c]);
            assert(seq![c].drop_last() =~= Seq::<char>::empty());
        }
    }
}

/// A case body as written in an arm counts no more than its source.
pub proof fn lemma_s_count_arm_body(s: Seq<char>, a: int, e: int)
    requires
        0 <= a <= e <= s.len(),
    ensures
        s_count(arm_body(s, a, e)) <= s_count(s.subrange(a, e)),
{
    let sub = s.subrange(a, e);
    lemma_s_count_strip(sub, 0, 0, 0);
    lemma_s_count_whole(sub);
    lemma_s_count_trim(strip_breaks_from(sub, 0, 0, 0));
}

/// The total count of a list of texts.
pub open spec fn s_count_all(ps: Seq<Seq<char>>) -> nat
    decreases ps.len(),
{
    if ps.len() == 0 {
        0
    } else {
        s_count_all(ps.drop_last()) + s_count(ps.last())
    }
}

/// The total count of the labels and bodies of a list of arms.
pub open spec fn s_count_arms(arms: Seq<SpecArm>) -> nat
    decreases arms.len(),
{
    if arms.len() == 0 {
        0
    } else {
        s_count_arms(arms.drop_last()) + s_count_all(arms.last().patterns) + s_count(arms.last().body)
    }
}

/// The labels read from `j` count no more than the text they were read from.
pub proof fn lemma_s_count_labels(s: Seq<char>, j: int, acc: Seq<Seq<char>>)
    requires
        0 <= j <= s.len(),
    ensures
        j <= labels_from(s, j, acc).1 <= s.len(),
        s_count_all(labels_from(s, j, acc).0) <= s_count_all(acc) + s_count(s.subrange(j, labels_from(s, j, acc).1)),
    decreases s.len() - j,
{
    if j + 4 <= s.len() {
        lemma_case_ws(s, j + 4);
        let j1 = case_ws(s, j + 4);
        lemma_pat_end(s, j1, 0);
        let pe = pat_end(s, j1, 0);
        let pat = trim(s.subrange(j1, pe));
        let j2 = if pe < s.len() && s[pe] == ':' {
            pe + 1
        } else {
            pe
        };
        lemma_case_ws(s, j2);
        let j3 = case_ws(s, j2);
        lemma_s_count_trim(s.subrange(j1, pe));
        assert(acc.push(pat).drop_last() =~= acc);
        if crate::rewrite::kw_at(s, j3, crate::rewrite::lit_case()) {
            lemma_s_count_labels(s, j3, acc.push(pat));
            let e = labels_from(s, j3, acc.push(pat)).1;
            lemma_s_count_inner(s, j, j1, pe, e);
            lemma_s_count_split(s, j, j3, e);
            lemma_s_count_split(s, j, pe, j3);
            lemma_s_count_split(s, j, j1, pe);
        } else {
            lemma_s_count_split(s, j, pe, j3);
            lemma_s_count_split(s, j, j1, pe);
        }
    } else {
        assert(s.subrange(j, j) =~= Seq::<char>::empty());
    }
}

/// The arms read from `j` count no more than the text they were read from.
pub proof fn lemma_s_count_arms_from(s: Seq<char>, j: int, acc: Seq<SpecArm>)
    requires
        0 <= j <= s.len(),
    ensures
        s_count_arms(arms_from(s, j, acc)) <= s_count_arms(acc) + s_count(s.subrange(j, s.len() as int)),
    decreases s.len() - j,
{
    if j < s.len() {
        lemma_case_ws(s, j);
        let j1 = case_ws(s, j);
        if j1 < s.len() {
            if crate::rewrite::kw_at(s, j1, crate::rewrite::lit_default()) {
                lemma_case_ws(s, j1 + 7);
                let j2 = case_ws(s, j1 + 7);
                let j3 = if j2 < s.len() && s[j2] == ':' {
                    j2 + 1
                } else {
                    j2
                };
                lemma_arm_end(s, j3, 0, 0);
                let e = arm_end(s, j3, 0, 0);
                let arm = SpecArm { patterns: Seq::empty(), body: arm_body(s, j3, e), is_default: true };
                lemma_s_count_arm_body(s, j3, e);
                assert(acc.push(arm).drop_last() =~= acc);
                lemma_s_count_arms_from(s, e, acc.push(arm));
                lemma_s_count_inner(s, j, j3, e, s.len() as int);
                lemma_s_count_split(s, j, e, s.len() as int);
                lemma_s_count_split(s, j, j3, e);
            } else if crate::rewrite::kw_at(s, j1, crate::rewrite::lit_case()) {
                lemma_labels_from(s, j1, Seq::empty());
                lemma_s_count_labels(s, j1, Seq::empty());
                let (labels, j3) = labels_from(s, j1, Seq::empty());
                lemma_arm_end(s, j3, 0, 0);
                let e = arm_end(s, j3, 0, 0);
                let arm = SpecArm { patterns: labels, body: arm_body(s, j3, e), is_default: false };
                lemma_s_count_arm_body(s, j3, e);
                assert(acc.push(arm).drop_last() =~= acc);
                lemma_s_count_arms_from(s, e, acc.push(arm));
                lemma_s_count_split(s, j, e, s.len() as int);
                lemma_s_count_split(s, j, j3, e);
                lemma_s_count_split(s, j, j1, j3);
            }
        }
    }
}

/// No `s` in the literal pieces of a `match`.
proof fn lemma_literals()
    ensures
        s_count("    "@) == 0,
        s_count("_"@) == 0,
        s_count(" | "@) == 0,
        s_count(" => "@) == 0,
        s_count(",\n"@) == 0,
        s_count(" => {\n"@) == 0,
        s_count("\n    },\n"@) == 0,
        s_count(" => { "@) == 0,
        s_count(" },\n"@) == 0,
        s_count("match "@) == 0,
        s_count(" {\n"@) == 0,
        s_count("}"@) == 0,
{
    reveal_strlit("    ");
    reveal_strlit("_");
    reveal_strlit(" | ");
    reveal_strlit(" => ");
    reveal_strlit(",\n");
    reveal_strlit(" => {\n");
    reveal_strlit("\n    },\n");
    reveal_strlit(" => { ");
    reveal_strlit(" },\n");
    reveal_strlit("match ");
    reveal_strlit(" {\n");
    reveal_strlit("}");
    lemma_s_count_none("    "@);
    lemma_s_count_none("_"@);
    lemma_s_count_none(" | "@);
    lemma_s_count_none(" => "@);
    lemma_s_count_none(",\n"@);
    lemma_s_count_none(" => {\n"@);
    lemma_s_count_none("\n    },\n"@);
    lemma_s_count_none(" => { "@);
    lemma_s_count_none(" },\n"@);
    lemma_s_count_none("match "@);
    lemma_s_count_none(" {\n"@);
    lemma_s_count_none("}"@);
}

/// Joining with a separator that has no `s` adds none.
proof fn lemma_s_count_join(ps: Seq<Seq<char>>, sep: Seq<char>)
    requires
        s_count(sep) == 0,
    ensures
        s_count(join(ps, sep)) == s_count_all(ps),
    decreases ps.len(),
{
    if ps.len() == 0 {
        assert(s_count(Seq::<char>::empty()) == 0);
    } else if ps.len() == 1 {
        assert(ps.drop_last() =~= Seq::<Seq<char>>::empty());
        assert(s_count_all(ps.drop_last()) == 0);
        assert(ps.last() == ps[0]);
        assert(join(ps, sep) == ps[0]);
    } else {
        assert(join(ps, sep) == join(ps.drop_last(), sep) + sep + ps.last());
        lemma_s_count_join(ps.drop_last(), sep);
        lemma_s_count_add(join(ps.drop_last(), sep), sep);
        lemma_s_count_add(join(ps.drop_last(), sep) + sep, ps.last());
    }
}

proof fn lemma_s_count_all_trim(ps: Seq<Seq<char>>)
    ensures
        s_count_all(ps.map_values(|p: Seq<char>| trim(p))) <= s_count_all(ps),
    decreases ps.len(),
{
    if ps.len() > 0 {
        lemma_s_count_all_trim(ps.drop_last());
        assert(ps.map_values(|p: Seq<char>| trim(p)).drop_last() =~= ps.drop_last().map_values(|p: Seq<char>| trim(p)));
        lemma_s_count_trim(ps.last());
    }
}

proof fn lemma_s_count_arm_text(a: SpecArm)
    ensures
        s_count(arm_text(a)) <= s_count_all(a.patterns) + s_count(a.body),
{
    lemma_literals();
    let pj = if a.is_default {
        "_"@
    } else {
        join(a.patterns.map_values(|p: Seq<char>| trim(p)), " | "@)
    };
    if !a.is_default {
        lemma_s_count_join(a.patterns.map_values(|p: Seq<char>| trim(p)), " | "@);
        lemma_s_count_all_trim(a.patterns);
    }
    let b = trim(a.body);
    lemma_s_count_trim(a.body);
    lemma_s_count_add("    "@, pj);
    if b.len() > 0 && b[0] == '{' && b.last() == '}' {
        lemma_s_count_add(" => "@, b);
        lemma_s_count_add(" => "@ + b, ",\n"@);
        lemma_s_count_add("    "@ + pj, " => "@ + b + ",\n"@);
        assert(arm_text(a) =~= "    "@ + pj + (" => "@ + b + ",\n"@));
    } else if crate::rewrite::spec_needs_block(b) {
        lemma_s_count_add(" => {\n"@, b);
        lemma_s_count_add(" => {\n"@ + b, "\n    },\n"@);
        lemma_s_count_add("    "@ + pj, " => {\n"@ + b + "\n    },\n"@);
        assert(arm_text(a) =~= "    "@ + pj + (" => {\n"@ + b + "\n    },\n"@));
    } else {
        lemma_s_count_add(" => { "@, b);
        lemma_s_count_add(" => { "@ + b, " },\n"@);
        lemma_s_count_add("    "@ + pj, " => { "@ + b + " },\n"@);
        assert(arm_text(a) =~= "    "@ + pj + (" => { "@ + b + " },\n"@));
    }
}

proof fn lemma_s_count_arms_text(arms: Seq<SpecArm>)
    ensures
        s_count(arms_text(arms)) <= s_count_arms(arms),
    decreases arms.len(),
{
    if arms.len() > 0 {
        lemma_s_count_arms_text(arms.drop_last());
        lemma_s_count_arm_text(arms.last());
        lemma_s_count_add(arms_text(arms.drop_last()), arm_text(arms.last()));
    }
}

proof fn lemma_s_count_match_text(discrim: Seq<char>, arms: Seq<SpecArm>)
    ensures
        s_count(match_text(discrim, arms)) <= s_count(discrim) + s_count_arms(arms),
{
    lemma_literals();
    lemma_s_count_arms_text(arms);
    lemma_s_count_add("match "@, discrim);
    lemma_s_count_add("match "@ + discrim, " {\n"@);
    lemma_s_count_add("match "@ + discrim + " {\n"@, arms_text(arms));
    lemma_s_count_add("match "@ + discrim + " {\n"@ + arms_text(arms), "}"@);
}

/// The count of a rewritten text, cut where the `switch` statement stood.
proof fn lemma_s_count_rewritten(s: Seq<char>, pos: int, i: int, rp: int, i2: int, rb: int)
    requires
        0 <= pos < i < rp < i2 < rb < s.len(),
        s[pos] == 's',
    ensures
        s_count(
            s.subrange(0, pos) + match_text(
                trim(s.subrange(i + 1, rp)),
                arms_from(s.subrange(i2 + 1, rb), 0, Seq::empty()),
            ) + s.subrange(rb + 1, s.len() as int),
        ) < s_count(s),
{
    let discrim = trim(s.subrange(i + 1, rp));
    let body = s.subrange(i2 + 1, rb);
    let arms = arms_from(body, 0, Seq::empty());
    let n = s.len() as int;
    lemma_s_count_arms_from(body, 0, Seq::empty());
    lemma_s_count_whole(body);
    lemma_s_count_trim(s.subrange(i + 1, rp));
    lemma_s_count_match_text(discrim, arms);
    lemma_s_count_add(s.subrange(0, pos), match_text(discrim, arms));
    lemma_s_count_add(s.subrange(0, pos) + match_text(discrim, arms), s.subrange(rb + 1, n));
    lemma_s_count_whole(s);
    lemma_s_count_split(s, 0, pos, n);
    lemma_s_count_split(s, pos, rb + 1, n);
    lemma_s_count_split(s, pos, pos + 1, rb + 1);
    lemma_s_count_split(s, pos + 1, i + 1, rb + 1);
    lemma_s_count_split(s, i + 1, rp, rb + 1);
    lemma_s_count_inner(s, rp, i2 + 1, rb, rb + 1);
    assert(s.subrange(pos, pos + 1).drop_last() =~= Seq::<char>::empty());
    assert(s.subrange(pos, pos + 1).last() == s[pos]);
}

/// Each `switch` rewrite removes an `s`.
pub proof fn lemma_switch_step_shrinks(s: Seq<char>)
    ensures
        switch_step(s) matches Some(t) ==> s_count(t) < s_count(s),
{
    if let Some(t) = switch_step(s) {
        let pos = switch_kw_from(s, 0).unwrap();
        lemma_switch_kw_from(s, 0);
        assert(s.subrange(pos, pos + 6) =~= lit_switch());
        assert(s[pos] == s.subrange(pos, pos + 6)[0]);
        let i = ws_end(s, pos + 6);
        lemma_ws_end(s, pos + 6);
        let rp = balanced_from(s, i, 0, '(', ')').unwrap();
        lemma_balanced_from(s, i, 0, '(', ')');
        let i2 = ws_end(s, rp + 1);
        lemma_ws_end(s, rp + 1);
        let rb = balanced_from(s, i2, 0, '{', '}').unwrap();
        lemma_balanced_from(s, i2, 0, '{', '}');
        lemma_s_count_rewritten(s, pos, i, rp, i2, rb);
    }
}

/// With more rewrites allowed than the text has `s` characters, rewriting stops
/// because no `switch` statement is left to rewrite.
pub proof fn lemma_switches_reach_end(s: Seq<char>, fuel: nat)
    requires
        fuel > s_count(s),
    ensures
        switch_step(switches_upto(s, fuel)) is None,
    decreases fuel,
{
    lemma_switch_step_shrinks(s);
    if let Some(t) = switch_step(s) {
        lemma_switches_reach_end(t, (fuel - 1) as nat);
    }
}

} // verus!
