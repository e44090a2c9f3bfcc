//! Whole-file transpilation: the check that non-unit functions end in a value, then
//! lowering with the body rewrites and path normalization.
use vstd::prelude::*;
use crate::ast::{Item, SpecFnDecl, SpecItem, items_view, strings_view};
use crate::body::{rewrite_body_tsrust, spec_rewrite_body};
use crate::lowering::{LowerOptions, hook_input, hook_result, lower_to_rust, spec_lower_items};
use crate::parser::{parse_module, spec_parse_module};
use crate::paths::{normalize_path, spec_normalize_path};
use crate::pattern::{Rule, rule_is_match, rule_matches};
use crate::rewrite::lit_switch;
use crate::text::{
    chars_of, eq_lit, find_from, find_lit, is_ws, matches_at, push_char, push_str, starts_at,
    trail_ws, trim, trimmed, unicode_ws,
};

verus! {

/// `s` cut at every occurrence of `c` (`str::split`): one more piece than there are `c`s.
pub open spec fn split_on(s: Seq<char>, c: char) -> Seq<Seq<char>>
    decreases s.len(),
{
    if s.len() == 0 {
        seq![Seq::empty()]
    } else {
        let prev = split_on(s.drop_last(), c);
        if s.last() == c {
            prev.push(Seq::empty())
        } else {
            prev.update(prev.len() - 1, prev.last().push(s.last()))
        }
    }
}

pub proof fn lemma_split_on_len(s: Seq<char>, c: char)
    ensures
        split_on(s, c).len() >= 1,
    decreases s.len(),
{
    if s.len() > 0 {
        lemma_split_on_len(s.drop_last(), c);
    }
}

/// The pieces of `s` between occurrences of `c` (`str::split`).
pub fn split_at_char(s: &str, c: char) -> (r: Vec<String>)
    ensures
        strings_view(r@) == split_on(s@, c),
{
    let v = chars_of(s);
    let mut lines: Vec<String> = Vec::new();
    let mut cur = String::new();
    let mut k: usize = 0;
    while k < v.len()
        invariant
            k <= v@.len(),
            v@ == s@,
            strings_view(lines@).push(cur@) == split_on(v@.take(k as int), c),
        decreases v@.len() - k,
    {
        let ghost before = strings_view(lines@).push(cur@);
        assert(v@.take(k + 1).drop_last() =~= v@.take(k as int));
        proof {
            lemma_split_on_len(v@.take(k as int), c);
        }
        if v[k] == c {
            let done = cur;
            lines.push(done);
            cur = String::new();
            assert(strings_view(lines@).push(cur@) =~= before.push(Seq::empty()));
        } else {
            push_char(&mut cur, v[k]);
            assert(strings_view(lines@).push(cur@) =~= before.update(
                before.len() - 1,
                before.last().push(v@[k as int]),
            ));
        }
        k += 1;
    }
    assert(v@.take(k as int) =~= v@);
    lines.push(cur);
    lines
}

/// The pieces of `s` between line feeds.
pub fn split_lines(s: &str) -> (r: Vec<String>)
    ensures
        strings_view(r@) == split_on(s@, '\n'),
{
    split_at_char(s, '\n')
}

/// A line that starts a `//` comment.
pub open spec fn comment_line(t: Seq<char>) -> bool {
    starts_at(t, 0, "//"@)
}

/// The last line of `lines` that, trimmed, is neither empty nor a comment; trimmed.
pub open spec fn last_meaningful(lines: Seq<Seq<char>>) -> Option<Seq<char>>
    decreases lines.len(),
{
    if lines.len() == 0 {
        None
    } else {
        let t = trim(lines.last());
        if t.len() == 0 || comment_line(t) {
            last_meaningful(lines.drop_last())
        } else {
            Some(t)
        }
    }
}

/// The last line of `s` that is neither blank nor a `//` comment, trimmed.
pub fn last_meaningful_line(s: &str) -> (r: Option<String>)
    ensures
        match last_meaningful(split_on(s@, '\n')) {
            Some(t) => r matches Some(x) && x@ == t,
            None => r is None,
        },
{
    let lines = split_lines(s);
    let ghost lv = strings_view(lines@);
    let mut k = lines.len();
    assert(lv.take(k as int) =~= lv);
    while k > 0
        invariant
            k <= lines@.len(),
            lv == strings_view(lines@),
            lv == split_on(s@, '\n'),
            last_meaningful(lv) == last_meaningful(lv.take(k as int)),
        decreases k,
    {
        let v = chars_of(lines[k - 1].as_str());
        let t = trimmed(&v, 0, v.len());
        assert(v@.subrange(0, v@.len() as int) =~= v@);
        assert(lv.take(k as int).last() == lines@[k - 1]@);
        assert(lv.take(k as int).drop_last() =~= lv.take(k - 1));
        let tv = chars_of(t.as_str());
        if tv.len() > 0 && !matches_at(&tv, 0, "//") {
            return Some(t);
        }
        k -= 1;
    }
    None
}

/// The last meaningful line starts with the word `return`.
pub open spec fn return_marker(line: Seq<char>) -> bool {
    starts_at(line, 0, "return"@) && (line.len() == 6 || is_ws(line[6]) || line[6] == '(' || line[6] == ';')
}

/// `s` without trailing whitespace.
pub open spec fn trim_end(s: Seq<char>) -> Seq<char> {
    s.subrange(0, s.len() - trail_ws(s))
}

/// The body, without trailing whitespace, ends in `}` and holds a `switch`.
pub open spec fn switch_tail(body: Seq<char>) -> bool {
    let t = trim_end(body);
    t.len() > 0 && t.last() == '}' && find_from(t, lit_switch(), 0) is Some
}

/// The body ends in a value: its last meaningful line is a `return`, or a
/// parenthesised expression, or the body ends with a `switch` block.
pub open spec fn spec_has_terminal_marker(body: Seq<char>) -> bool {
    match last_meaningful(split_on(body, '\n')) {
        None => false,
        Some(line) => return_marker(line) || rule_matches(Rule::TerminalParen, line) || switch_tail(body),
    }
}

fn trim_end_of(s: &str) -> (r: Vec<char>)
    ensures
        r@ == trim_end(s@),
{
    let v = chars_of(s);
    let mut e = v.len();
    assert(v@.subrange(0, e as int) =~= v@);
    while e > 0 && unicode_ws(v[e - 1])
        invariant
            e <= v@.len(),
            v@ == s@,
            trail_ws(v@) == (v@.len() - e) + trail_ws(v@.subrange(0, e as int)),
        decreases e,
    {
        assert(v@.subrange(0, e as int).drop_last() =~= v@.subrange(0, e - 1));
        e -= 1;
    }
    proof {
        let p = v@.subrange(0, e as int);
        if e > 0 {
            assert(!is_ws(p.last()));
        }
        assert(trail_ws(p) == 0);
    }
    let mut r: Vec<char> = Vec::new();
    let mut k: usize = 0;
    while k < e
        invariant
            e <= v@.len(),
            k <= e,
            r@ == v@.subrange(0, k as int),
        decreases e - k,
    {
        r.push(v[k]);
        assert(r@ =~= v@.subrange(0, k + 1));
        k += 1;
    }
    r
}

pub fn has_terminal_marker(body: &str) -> (r: bool)
    ensures
        r == spec_has_terminal_marker(body@),
{
    proof {
        reveal_strlit("return");
        reveal_strlit("switch");
    }
    assert("switch"@ =~= lit_switch());
    match last_meaningful_line(body) {
        None => false,
        Some(line) => {
            let lv = chars_of(line.as_str());
            if matches_at(&lv, 0, "return") {
                if lv.len() == 6 {
                    return true;
                }
                let c = lv[6];
                if unicode_ws(c) || c == '(' || c == ';' {
                    return true;
                }
            }
            if rule_is_match(Rule::TerminalParen, line.as_str()) {
                return true;
            }
            let t = trim_end_of(body);
            t.len() > 0 && t[t.len() - 1] == '}' && find_lit(&t, 0, "switch").is_some()
        },
    }
}

/// The error of a failed transpilation.
#[derive(Debug, Clone)]
pub struct TranspileError {
    pub text: String,
}

impl TranspileError {
    /// The error message.
    pub fn message(&self) -> (r: String)
        ensures
            r@ == self.text@,
    {
        let mut r = String::new();
        push_str(&mut r, self.text.as_str());
        r
    }
}

/// The decimal digits of `n`.
pub open spec fn decimal(n: nat) -> Seq<char>
    decreases n,
{
    if n < 10 {
        seq![digit_char(n)]
    } else {
        decimal(n / 10).push(digit_char(n % 10))
    }
}

pub open spec fn digit_char(d: nat) -> char {
    if d == 0 {
        '0'
    } else if d == 1 {
        '1'
    } else if d == 2 {
        '2'
    } else if d == 3 {
        '3'
    } else if d == 4 {
        '4'
    } else if d == 5 {
        '5'
    } else if d == 6 {
        '6'
    } else if d == 7 {
        '7'
    } else if d == 8 {
        '8'
    } else {
        '9'
    }
}

fn digit_of(d: u128) -> (c: char)
    requires
        d < 10,
    ensures
        c == digit_char(d as nat),
{
    if d == 0 {
        '0'
    } else if d == 1 {
        '1'
    } else if d == 2 {
        '2'
    } else if d == 3 {
        '3'
    } else if d == 4 {
        '4'
    } else if d == 5 {
        '5'
    } else if d == 6 {
        '6'
    } else if d == 7 {
        '7'
    } else if d == 8 {
        '8'
    } else {
        '9'
    }
}

/// Appends the decimal digits of `n`.
pub fn push_decimal(out: &mut String, n: u128)
    ensures
        final(out)@ == old(out)@ + decimal(n as nat),
    decreases n,
{
    if n >= 10 {
        push_decimal(out, n / 10);
    }
    push_char(out, digit_of(n % 10));
    proof {
        if n >= 10 {
            assert(old(out)@ + decimal(n as nat) =~= old(out)@ + decimal((n / 10) as nat) + seq![digit_char((n % 10) as nat)]);
        }
    }
}

/// A function with a declared, non-unit return type whose body does not end in a value.
pub open spec fn needs_marker(f: SpecFnDecl) -> bool {
    match f.ret {
        Some(r) => {
            let t = trim(r);
            t.len() > 0 && t != "()"@ && !spec_has_terminal_marker(f.body_src)
        },
        None => false,
    }
}

/// The first function of `items` that fails the check.
pub open spec fn first_unmarked(items: Seq<SpecItem>) -> Option<SpecFnDecl>
    decreases items.len(),
{
    if items.len() == 0 {
        None
    } else {
        match items[0] {
            SpecItem::ExportedFn(f) => if needs_marker(f) {
                Some(f)
            } else {
                first_unmarked(items.drop_first())
            },
            SpecItem::Fn(f) => if needs_marker(f) {
                Some(f)
            } else {
                first_unmarked(items.drop_first())
            },
            _ => first_unmarked(items.drop_first()),
        }
    }
}

/// Lines before the first one that holds `needle`.
pub open spec fn lines_before(lines: Seq<Seq<char>>, needle: Seq<char>) -> nat
    decreases lines.len(),
{
    if lines.len() == 0 || find_from(lines[0], needle, 0) is Some {
        0
    } else {
        1 + lines_before(lines.drop_first(), needle)
    }
}

/// The 1-based line reported for function `name`: the first line holding
/// `function <name>` (or one past the last line).
pub open spec fn error_line(input: Seq<char>, name: Seq<char>) -> nat {
    lines_before(split_on(input, '\n'), "function "@ + name) + 1
}

pub open spec fn error_message(hint: Seq<char>, line: nat, name: Seq<char>) -> Seq<char> {
    hint + ":"@ + decimal(line) + ":1: Non-unit function '"@ + name
        + "' must end with `return EXPR;` or `(EXPR)`"@
}

/// The hook result each item is lowered with: the rewritten body, or the
/// normalized module path.
pub open spec fn hook_of(it: SpecItem) -> Seq<char> {
    match hook_input(it) {
        Some((is_body, x)) => if is_body {
            spec_rewrite_body(x)
        } else {
            spec_normalize_path(x)
        },
        None => Seq::empty(),
    }
}

pub open spec fn hooks_of(items: Seq<SpecItem>) -> Seq<Seq<char>> {
    items.map_values(|it: SpecItem| hook_of(it))
}

/// The result of transpiling `input`.
pub open spec fn spec_transpile(input: Seq<char>, hint: Seq<char>) -> Result<Seq<char>, Seq<char>> {
    let items = spec_parse_module(input);
    match first_unmarked(items) {
        Some(f) => Err(error_message(hint, error_line(input, f.name), f.name)),
        None => Ok(spec_lower_items(items, hooks_of(items))),
    }
}

fn error_line_of(input: &str, name: &String) -> (r: u128)
    ensures
        r == error_line(input@, name@),
{
    let mut needle = String::new();
    push_str(&mut needle, "function ");
    push_str(&mut needle, name.as_str());
    let lines = split_lines(input);
    let ghost lv = strings_view(lines@);
    let mut k: usize = 0;
    assert(lv.skip(0) =~= lv);
    while k < lines.len()
        invariant
            k <= lines@.len(),
            lv == strings_view(lines@),
            lv == split_on(input@, '\n'),
            needle@ == "function "@ + name@,
            lines_before(lv, needle@) == k + lines_before(lv.skip(k as int), needle@),
        decreases lines@.len() - k,
    {
        let v = chars_of(lines[k].as_str());
        assert(lv.skip(k as int)[0] == lines@[k as int]@);
        assert(lv.skip(k as int).drop_first() =~= lv.skip(k + 1));
        if find_lit(&v, 0, needle.as_str()).is_some() {
            return k as u128 + 1;
        }
        k += 1;
    }
    k as u128 + 1
}

/// Transpiles a TSRust source file to Rust. Fails, naming `file_path_hint` and a
/// line, when a function with a non-unit return type does not end its body with
/// `return EXPR;` or `(EXPR)`.
pub fn transpile_str(input: &str, file_path_hint: &str) -> (r: Result<String, TranspileError>)
    ensures
        match spec_transpile(input@, file_path_hint@) {
            Ok(t) => r matches Ok(s) && s@ == t,
            Err(e) => r matches Err(x) && x.text@ == e,
        },
{
    let m = parse_module(input);
    let ghost iv = items_view(m.items@);
    let mut k: usize = 0;
    assert(iv.skip(0) =~= iv);
    while k < m.items.len()
        invariant
            k <= m.items@.len(),
            iv == items_view(m.items@),
            iv == spec_parse_module(input@),
            first_unmarked(iv) == first_unmarked(iv.skip(k as int)),
        decreases m.items@.len() - k,
    {
        assert(iv.skip(k as int)[0] == m.items@[k as int]@);
        assert(iv.skip(k as int).drop_first() =~= iv.skip(k + 1));
        let f = match &m.items[k] {
            Item::ExportedFn(f) => Some(f),
            Item::Fn(f) => Some(f),
            _ => None,
        };
        if let Some(f) = f {
            if let Some(ret) = &f.ret {
                let rv = chars_of(ret.text.as_str());
                let t = trimmed(&rv, 0, rv.len());
                assert(rv@.subrange(0, rv@.len() as int) =~= rv@);
                let tv = chars_of(t.as_str());
                if tv.len() > 0 && !eq_lit(&tv, "()") && !has_terminal_marker(f.body_src.as_str()) {
                    let line = error_line_of(input, &f.name);
                    let mut msg = String::new();
                    push_str(&mut msg, file_path_hint);
                    push_str(&mut msg, ":");
                    push_decimal(&mut msg, line);
                    push_str(&mut msg, ":1: Non-unit function '");
                    push_str(&mut msg, f.name.as_str());
                    push_str(&mut msg, "' must end with `return EXPR;` or `(EXPR)`");
                    return Err(TranspileError { text: msg });
                }
            }
        }
        k += 1;
    }
    let opts = LowerOptions { rewrite_body: rewrite_body_tsrust, normalize_path: normalize_path };
    let out = lower_to_rust(input, &opts);
    proof {
        let items = spec_parse_module(input@);
        let hs = choose|hs: Seq<Seq<char>>|
            {
                &&& hs.len() == items.len()
                &&& forall|j: int| 0 <= j < hs.len() ==> hook_result(&opts, items[j], #[trigger] hs[j])
                &&& out@ == spec_lower_items(items, hs)
            };
        assert forall|j: int| 0 <= j < hs.len() implies hs[j] == hooks_of(items)[j] by {
            assert(hook_result(&opts, items[j], hs[j]));
        }
        assert(hs =~= hooks_of(items));
    }
    Ok(out)
}

} // verus!
