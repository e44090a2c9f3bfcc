//! The rewrites applied to every function body, in order.
use vstd::prelude::*;
use crate::pattern::{Rule, apply_rule, rule_applied, same_text};
use crate::rewrite::{rewrite_switches, strip_return_from, strip_return_wrapping_parens, switches_upto};

verus! {

/// Local arrow functions with a block body, then with an expression body, into closures.
pub open spec fn spec_local_arrows(t: Seq<char>) -> Seq<char> {
    rule_applied(Rule::ArrowExpr, rule_applied(Rule::ArrowBlock, t))
}

/// `let f = (x: T): R => { ... };` and `let f = (x: T): R => (e);` become
/// `let f = |x: T| -> R { ... };` (keeping a leading `move`).
pub fn rewrite_local_arrows(s: &str) -> (r: String)
    ensures
        r@ == spec_local_arrows(s@),
{
    let out = apply_rule(Rule::ArrowBlock, s);
    apply_rule(Rule::ArrowExpr, out.as_str())
}

/// `for (x of xs)` becomes `for x in xs`.
pub fn rewrite_for_of(s: &str) -> (r: String)
    ensures
        r@ == rule_applied(Rule::ForOf, s@),
{
    apply_rule(Rule::ForOf, s)
}

/// `{ ( expr ) }` becomes `{ expr }`.
pub fn rewrite_paren_tail_inline(s: &str) -> (r: String)
    ensures
        r@ == rule_applied(Rule::ParenTailInline, s@),
{
    apply_rule(Rule::ParenTailInline, s)
}

/// A line holding only `( expr )` becomes `expr`.
pub fn rewrite_paren_tail_line(s: &str) -> (r: String)
    ensures
        r@ == rule_applied(Rule::ParenTailLine, s@),
{
    apply_rule(Rule::ParenTailLine, s)
}

/// `( expr ) }` at the start of a line becomes `expr }`.
pub fn rewrite_paren_tail_before_brace(s: &str) -> (r: String)
    ensures
        r@ == rule_applied(Rule::ParenTailBeforeBrace, s@),
{
    apply_rule(Rule::ParenTailBeforeBrace, s)
}

/// `return;` becomes `return ;`.
pub fn rewrite_return_unit(s: &str) -> (r: String)
    ensures
        r@ == rule_applied(Rule::ReturnUnit, s@),
{
    apply_rule(Rule::ReturnUnit, s)
}

/// Applies `rule` until the text stops changing, at most `fuel + 1` times.
pub open spec fn repeat_rule(rule: Rule, t: Seq<char>, fuel: nat) -> Seq<char>
    decreases fuel,
{
    let next = rule_applied(rule, t);
    if next == t || fuel == 0 {
        next
    } else {
        repeat_rule(rule, next, (fuel - 1) as nat)
    }
}

/// `lhs ?? rhs` becomes `(lhs).unwrap_or(rhs)`, repeated for chains, then a bare
/// name before `.unwrap_or` is put in parentheses and `( x )` tightened to `(x)`.
pub open spec fn spec_coalesce(t: Seq<char>) -> Seq<char> {
    rule_applied(Rule::TightParen, rule_applied(Rule::WrapIdent, repeat_rule(Rule::Coalesce, t, t.len())))
}

pub fn rewrite_coalesce(out: String) -> (r: String)
    ensures
        r@ == spec_coalesce(out@),
{
    let ghost t0 = out@;
    let mut cur = out;
    let mut fuel: usize = cur.unicode_len();
    loop
        invariant_except_break
            repeat_rule(Rule::Coalesce, t0, t0.len()) == repeat_rule(Rule::Coalesce, cur@, fuel as nat),
        ensures
            repeat_rule(Rule::Coalesce, t0, t0.len()) == cur@,
        decreases fuel,
    {
        let next = apply_rule(Rule::Coalesce, cur.as_str());
        if same_text(&next, &cur) || fuel == 0 {
            cur = next;
            break;
        }
        cur = next;
        fuel -= 1;
    }
    let w = apply_rule(Rule::WrapIdent, cur.as_str());
    apply_rule(Rule::TightParen, w.as_str())
}

/// One round of optional chaining: roots first, then continued chains.
pub open spec fn opt_chain_step(t: Seq<char>) -> Seq<char> {
    rule_applied(Rule::OptChainNext, rule_applied(Rule::OptChainRoot, t))
}

/// Rounds of `opt_chain_step` until the text stops changing, at most `fuel + 1`.
pub open spec fn opt_chain_upto(t: Seq<char>, fuel: nat) -> Seq<char>
    decreases fuel,
{
    let next = opt_chain_step(t);
    if next == t || fuel == 0 {
        next
    } else {
        opt_chain_upto(next, (fuel - 1) as nat)
    }
}

/// `a?.b(c)` becomes `(a).as_ref().map(|__v| __v.b(c))`, following chains.
pub fn rewrite_opt_chain(out: String) -> (r: String)
    ensures
        r@ == opt_chain_upto(out@, out@.len()),
{
    let ghost t0 = out@;
    let mut cur = out;
    let mut fuel: usize = cur.unicode_len();
    loop
        invariant
            t0 == out@,
            opt_chain_upto(t0, t0.len()) == opt_chain_upto(cur@, fuel as nat),
        decreases fuel,
    {
        let step1 = apply_rule(Rule::OptChainRoot, cur.as_str());
        let step2 = apply_rule(Rule::OptChainNext, step1.as_str());
        if same_text(&step2, &cur) || fuel == 0 {
            return step2;
        }
        cur = step2;
        fuel -= 1;
    }
}

/// All body rewrites, in the order they are applied.
pub open spec fn spec_rewrite_body(t: Seq<char>) -> Seq<char> {
    let s1 = spec_local_arrows(t);
    let s2 = switches_upto(s1, (s1.len() + 1) as nat);
    let s3 = rule_applied(Rule::ForOf, s2);
    let s4 = rule_applied(Rule::ParenTailSemi, s3);
    let s5 = rule_applied(
        Rule::ParenTailBeforeBrace,
        rule_applied(Rule::ParenTailLine, rule_applied(Rule::ParenTailInline, s4)),
    );
    let s6 = spec_coalesce(s5);
    let s7 = opt_chain_upto(s6, s6.len());
    let s8 = strip_return_from(s7, 0);
    rule_applied(Rule::ReturnUnit, s8)
}

/// Rewrites a TSRust function body into Rust: local arrows, `switch`, `for ... of`,
/// parenthesised tails, `??`, `?.`, `return (e)` and `return;`.
/// Where a `return` keyword ends the text, the `return (e)` step leaves it as it is.
pub fn rewrite_body_tsrust(original: &str) -> (r: String)
    ensures
        r@ == spec_rewrite_body(original@),
{
    let s1 = rewrite_local_arrows(original);
    let s2 = rewrite_switches(s1.as_str());
    let s3 = rewrite_for_of(s2.as_str());
    let s4 = apply_rule(Rule::ParenTailSemi, s3.as_str());
    let s5a = rewrite_paren_tail_inline(s4.as_str());
    let s5b = rewrite_paren_tail_line(s5a.as_str());
    let s5 = rewrite_paren_tail_before_brace(s5b.as_str());
    let s6 = rewrite_coalesce(s5);
    let s7 = rewrite_opt_chain(s6);
    let s8 = strip_return_wrapping_parens(s7.as_str());
    rewrite_return_unit(s8.as_str())
}

} // verus!
