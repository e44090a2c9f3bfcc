//! Text rewrites of function bodies that need no pattern engine.
use vstd::prelude::*;
use vstd::string::*;
use crate::lexer::{block_end, lemma_block_end, lemma_ws_end, ws_end};
use crate::paths::join;
use crate::ast::strings_view;
use crate::text::{alpha, ascii_ws, chars_of, find_from, find_lit, ident_char, is_alpha, is_ident_char, lemma_find_from, matches_at, push_char, push_range, push_str, starts_at, string_of_range, trim, trim_bounds, trimmed};
use crate::lowering::push_joined;

verus! {

/// Position `idx` of `s` does not continue an identifier.
pub open spec fn boundary(s: Seq<char>, idx: int) -> bool {
    idx >= s.len() || !is_ident_char(s[idx])
}

/// `idx` is past the end of `s` or holds a character that cannot continue an identifier.
pub fn is_ident_boundary(s: &Vec<char>, idx: usize) -> (r: bool)
    ensures
        r == boundary(s@, idx as int),
{
    if idx >= s.len() {
        return true;
    }
    !ident_char(s[idx])
}

/// Position of the `close` that brings the nesting depth `d` (counted from `i` on) back to zero.
pub open spec fn balanced_from(s: Seq<char>, i: int, d: int, open: char, close: char) -> Option<int>
    decreases s.len() - i,
{
    if i < 0 || i >= s.len() {
        None
    } else if s[i] == open {
        balanced_from(s, i + 1, d + 1, open, close)
    } else if s[i] == close {
        if d - 1 == 0 {
            Some(i)
        } else {
            balanced_from(s, i + 1, d - 1, open, close)
        }
    } else {
        balanced_from(s, i + 1, d, open, close)
    }
}

pub proof fn lemma_balanced_from(s: Seq<char>, i: int, d: int, open: char, close: char)
    requires
        0 <= i,
    ensures
        balanced_from(s, i, d, open, close) matches Some(k) ==> i <= k < s.len() && s[k] == close,
    decreases s.len() - i,
{
    if i < s.len() {
        lemma_balanced_from(s, i + 1, d + 1, open, close);
        lemma_balanced_from(s, i + 1, d - 1, open, close);
        lemma_balanced_from(s, i + 1, d, open, close);
    }
}

/// Position of the `close` matching the first `open` at or after `start`.
pub fn find_balanced(s: &Vec<char>, start: usize, open: char, close: char) -> (r: Option<usize>)
    ensures
        match balanced_from(s@, start as int, 0, open, close) {
            Some(k) => r == Some(k as usize),
            None => r is None,
        },
{
    proof {
        lemma_balanced_from(s@, start as int, 0, open, close);
    }
    let mut i = start;
    let mut d: i128 = 0;
    while i < s.len()
        invariant
            start <= i,
            -(i - start) <= d <= i - start,
            balanced_from(s@, start as int, 0, open, close) == balanced_from(s@, i as int, d as int, open, close),
        decreases s@.len() - i,
    {
        let ch = s[i];
        if ch == open {
            d += 1;
        } else if ch == close {
            d -= 1;
            if d == 0 {
                return Some(i);
            }
        }
        i += 1;
    }
    None
}

/// Depth-aware scan used by `needs_block`: a `;` outside all brackets.
pub open spec fn top_semi(s: Seq<char>, i: int, d: nat) -> bool
    decreases s.len() - i,
{
    if i < 0 || i >= s.len() {
        false
    } else {
        let c = s[i];
        if c == '{' || c == '(' {
            top_semi(s, i + 1, d + 1)
        } else if c == '}' || c == ')' {
            top_semi(s, i + 1, if d > 0 { (d - 1) as nat } else { 0 })
        } else if c == ';' && d == 0 {
            true
        } else {
            top_semi(s, i + 1, d)
        }
    }
}

pub open spec fn lit_let_sp() -> Seq<char> {
    seq!['l', 'e', 't', ' ']
}

pub open spec fn lit_return() -> Seq<char> {
    seq!['r', 'e', 't', 'u', 'r', 'n']
}

/// A case body that needs braces: it starts with `let ` or `return`, spans lines, or
/// holds a `;` outside brackets.
pub open spec fn spec_needs_block(body: Seq<char>) -> bool {
    let b = trim(body);
    starts_at(b, 0, lit_let_sp()) || starts_at(b, 0, lit_return()) || b.contains('\n') || top_semi(b, 0, 0)
}

pub fn needs_block(body: &str) -> (r: bool)
    ensures
        r == spec_needs_block(body@),
{
    let all = chars_of(body);
    let (x, y) = trim_bounds(&all, 0, all.len());
    assert(all@.subrange(0, all@.len() as int) =~= body@);
    let b = {
        let t = crate::text::string_of_range(&all, x, y);
        chars_of(t.as_str())
    };
    proof {
        reveal_strlit("let ");
        reveal_strlit("return");
    }
    assert("let "@ =~= lit_let_sp());
    assert("return"@ =~= lit_return());
    assert(b@ == trim(body@));
    if matches_at(&b, 0, "let ") || matches_at(&b, 0, "return") {
        return true;
    }
    let mut k: usize = 0;
    while k < b.len()
        invariant
            k <= b@.len(),
            b@ == trim(body@),
            forall|j: int| 0 <= j < k ==> b@[j] != '\n',
        decreases b@.len() - k,
    {
        if b[k] == '\n' {
            assert(b@[k as int] == '\n');
            assert(b@.contains('\n'));
            return true;
        }
        k += 1;
    }
    let mut depth: usize = 0;
    let mut i: usize = 0;
    while i < b.len()
        invariant
            i <= b@.len(),
            depth <= i,
            b@ == trim(body@),
            !b@.contains('\n'),
            !starts_at(b@, 0, lit_let_sp()),
            !starts_at(b@, 0, lit_return()),
            top_semi(b@, 0, 0) == top_semi(b@, i as int, depth as nat),
        decreases b@.len() - i,
    {
        let ch = b[i];
        if ch == '{' || ch == '(' {
            depth += 1;
        } else if ch == '}' || ch == ')' {
            depth = if depth > 0 { depth - 1 } else { 0 };
        } else if ch == ';' && depth == 0 {
            assert(top_semi(b@, i as int, depth as nat));
            return true;
        }
        i += 1;
    }
    false
}

pub open spec fn lit_break() -> Seq<char> {
    seq!['b', 'r', 'e', 'a', 'k']
}

/// `s` from position `i` on with `break` statements at bracket depth zero removed;
/// `dp` and `db` are the paren and brace depths reached so far.
pub open spec fn strip_breaks_from(s: Seq<char>, i: int, dp: int, db: int) -> Seq<char>
    decreases s.len() - i,
{
    if i < 0 || i >= s.len() {
        Seq::empty()
    } else if dp == 0 && db == 0 && starts_at(s, i, lit_break()) && (i == 0 || !is_ident_char(s[i - 1]))
        && boundary(s, i + 5) {
        let j = ws_end(s, i + 5);
        proof {
            lemma_ws_end(s, i + 5);
        }
        let j2 = if j < s.len() && s[j] == ';' { j + 1 } else { j };
        strip_breaks_from(s, j2, dp, db)
    } else {
        let c = s[i];
        seq![c] + strip_breaks_from(
            s,
            i + 1,
            if c == '(' { dp + 1 } else if c == ')' { dp - 1 } else { dp },
            if c == '{' { db + 1 } else if c == '}' { db - 1 } else { db },
        )
    }
}

/// Removes `break;` statements that stand at the top level of a case body; the
/// rest of the text is copied as it is.
pub fn strip_top_level_breaks(s: String) -> (r: String)
    ensures
        r@ == strip_breaks_from(s@, 0, 0, 0),
{
    let v = chars_of(s.as_str());
    let mut out = String::new();
    let mut i: usize = 0;
    let mut dp: i128 = 0;
    let mut db: i128 = 0;
    proof {
        reveal_strlit("break");
    }
    assert("break"@ =~= lit_break());
    assert(out@ + strip_breaks_from(v@, 0, 0, 0) =~= strip_breaks_from(v@, 0, 0, 0));
    while i < v.len()
        invariant
            v@ == s@,
            i <= v@.len(),
            -(i as int) <= dp <= i,
            -(i as int) <= db <= i,
            "break"@ =~= lit_break(),
            out@ + strip_breaks_from(v@, i as int, dp as int, db as int) == strip_breaks_from(v@, 0, 0, 0),
        decreases v@.len() - i,
    {
        if dp == 0 && db == 0 && matches_at(&v, i, "break") {
            let before_ok = i == 0 || !ident_char(v[i - 1]);
            let after = i + 5;
            let after_ok = is_ident_boundary(&v, after);
            if before_ok && after_ok {
                let mut j = after;
                while j < v.len() && ascii_ws(v[j])
                    invariant
                        after <= j <= v@.len(),
                        ws_end(v@, after as int) == ws_end(v@, j as int),
                    decreases v@.len() - j,
                {
                    j += 1;
                }
                proof {
                    lemma_ws_end(v@, after as int);
                }
                if j < v.len() && v[j] == ';' {
                    j += 1;
                }
                i = j;
                continue;
            }
        }
        let c = v[i];
        push_char(&mut out, c);
        if c == '(' {
            dp += 1;
        } else if c == ')' {
            dp -= 1;
        } else if c == '{' {
            db += 1;
        } else if c == '}' {
            db -= 1;
        }
        i += 1;
    }
    assert(out@ + Seq::<char>::empty() =~= out@);
    out
}


/// Position of the `)` that closes the group whose depth is `d` at `m` (a `)` at
/// depth zero is ignored).
pub open spec fn paren_close(s: Seq<char>, m: int, d: nat) -> Option<int>
    decreases s.len() - m,
{
    if m < 0 || m >= s.len() {
        None
    } else if s[m] == '(' {
        paren_close(s, m + 1, d + 1)
    } else if s[m] == ')' {
        if d > 0 {
            if d == 1 {
                Some(m)
            } else {
                paren_close(s, m + 1, (d - 1) as nat)
            }
        } else {
            paren_close(s, m + 1, d)
        }
    } else {
        paren_close(s, m + 1, d)
    }
}

pub proof fn lemma_paren_close(s: Seq<char>, m: int, d: nat)
    requires
        0 <= m,
    ensures
        paren_close(s, m, d) matches Some(k) ==> m <= k < s.len() && s[k] == ')',
    decreases s.len() - m,
{
    if m < s.len() {
        lemma_paren_close(s, m + 1, d + 1);
        lemma_paren_close(s, m + 1, d);
        if d > 1 {
            lemma_paren_close(s, m + 1, (d - 1) as nat);
        }
    }
}

/// A `,` outside parentheses in `s[k..end]`.
pub open spec fn top_comma(s: Seq<char>, k: int, end: int, d: nat) -> bool
    decreases end - k,
{
    if k < 0 || k >= end || k >= s.len() {
        false
    } else if s[k] == '(' {
        top_comma(s, k + 1, end, d + 1)
    } else if s[k] == ')' {
        top_comma(s, k + 1, end, if d > 0 { (d - 1) as nat } else { 0 })
    } else if s[k] == ',' && d == 0 {
        true
    } else {
        top_comma(s, k + 1, end, d)
    }
}

/// `return (e)` written as `return e` from position `i` on, unless the parentheses
/// hold a tuple; all other text is copied as it is. Where a `return` keyword is
/// followed only by whitespace up to the end, that rest is kept unchanged.
pub open spec fn strip_return_from(s: Seq<char>, i: int) -> Seq<char>
    decreases s.len() - i,
{
    if i < 0 || i >= s.len() {
        Seq::empty()
    } else if is_alpha(s[i]) && starts_at(s, i, lit_return()) && (i == 0 || !is_ident_char(s[i - 1]))
        && boundary(s, i + 6) {
        let j = ws_end(s, i + 6);
        proof {
            lemma_ws_end(s, i + 6);
        }
        if j < s.len() && s[j] == '(' && paren_close(s, j, 0) is Some && !top_comma(
            s,
            j + 1,
            paren_close(s, j, 0).unwrap(),
            0,
        ) {
            let m = paren_close(s, j, 0).unwrap();
            proof {
                lemma_paren_close(s, j, 0);
            }
            lit_return() + seq![' '] + s.subrange(j + 1, m) + strip_return_from(s, m + 1)
        } else if j >= s.len() {
            s.subrange(i, s.len() as int)
        } else {
            lit_return() + (if j > i + 6 { seq![' '] } else { Seq::empty() }) + seq![s[j]] + strip_return_from(s, j + 1)
        }
    } else {
        seq![s[i]] + strip_return_from(s, i + 1)
    }
}

/// Rewrites `return (expr)` to `return expr` (tuples keep their parentheses);
/// everything else is copied as it is.
#[verifier::rlimit(40)]
pub fn strip_return_wrapping_parens(src: &str) -> (r: String)
    ensures
        r@ == strip_return_from(src@, 0),
{
    let v = chars_of(src);
    let n = v.len();
    let mut out = String::new();
    let mut i: usize = 0;
    proof {
        reveal_strlit("return");
    }
    assert("return"@ =~= lit_return());
    assert(out@ =~= Seq::<char>::empty());
    while i < n
        invariant
            v@ == src@,
            n == v@.len(),
            i <= n,
            "return"@ =~= lit_return(),
            strip_return_from(v@, 0) == out@ + strip_return_from(v@, i as int),
        decreases n - i,
    {
        let ghost s = v@;
        if alpha(v[i]) && matches_at(&v, i, "return") {
            let before_ok = i == 0 || !ident_char(v[i - 1]);
            let after = i + 6;
            let after_ok = is_ident_boundary(&v, after);
            if before_ok && after_ok {
                let mut j = after;
                let mut had_ws = false;
                while j < n && ascii_ws(v[j])
                    invariant
                        n == v@.len(),
                        after <= j <= n,
                        had_ws == (j > after),
                        ws_end(v@, after as int) == ws_end(v@, j as int),
                    decreases n - j,
                {
                    had_ws = true;
                    j += 1;
                }
                proof {
                    lemma_ws_end(v@, after as int);
                }
                if j < n && v[j] == '(' {
                    let mut depth: usize = 0;
                    let mut m = j;
                    while m < n
                        invariant_except_break
                            paren_close(v@, j as int, 0) == paren_close(v@, m as int, depth as nat),
                        invariant
                            n == v@.len(),
                            j < n,
                            v@[j as int] == '(',
                            j <= m <= n,
                            depth <= m - j,
                            depth > 0 || m == j,
                        ensures
                            m < n ==> paren_close(v@, j as int, 0) == Some(m as int) && m > j,
                            m >= n ==> paren_close(v@, j as int, 0) is None,
                        decreases n - m,
                    {
                        let c = v[m];
                        if c == '(' {
                            depth += 1;
                        } else if c == ')' {
                            if depth > 0 {
                                if depth == 1 {
                                    break;
                                }
                                depth -= 1;
                            }
                        }
                        m += 1;
                    }
                    proof {
                        lemma_paren_close(v@, j as int, 0);
                    }
                    if m < n {
                        let mut k = j + 1;
                        let mut d2: usize = 0;
                        let mut comma = false;
                        while k < m
                            invariant_except_break
                                !comma,
                                top_comma(v@, j + 1, m as int, 0) == top_comma(v@, k as int, m as int, d2 as nat),
                            invariant
                                n == v@.len(),
                                j + 1 <= k <= m < n,
                                d2 <= k,
                            ensures
                                comma == top_comma(v@, j + 1, m as int, 0),
                            decreases m - k,
                        {
                            let c = v[k];
                            if c == '(' {
                                d2 += 1;
                            } else if c == ')' {
                                d2 = if d2 > 0 { d2 - 1 } else { 0 };
                            } else if c == ',' && d2 == 0 {
                                comma = true;
                                break;
                            }
                            k += 1;
                        }
                        if !comma {
                            push_str(&mut out, "return");
                            push_char(&mut out, ' ');
                            push_range(&mut out, &v, j + 1, m);
                            i = m + 1;
                            proof {
                                let r = strip_return_from(s, i as int);
                                assert(out@ + r =~= old_out_plus(s, i as int, out@, r));
                            }
                            continue;
                        }
                    } else {
                        assert(paren_close(v@, j as int, 0) is None);
                    }
                }
                if j >= n {
                    push_range(&mut out, &v, i, n);
                    return out;
                }
                push_str(&mut out, "return");
                if had_ws {
                    push_char(&mut out, ' ');
                }
                push_char(&mut out, v[j]);
                i = j + 1;
                continue;
            }
        }
        push_char(&mut out, v[i]);
        i += 1;
    }
    assert(out@ + Seq::<char>::empty() =~= out@);
    out
}

spec fn old_out_plus(s: Seq<char>, i: int, out: Seq<char>, r: Seq<char>) -> Seq<char> {
    out + r
}


// ----- `switch` statements -----

pub open spec fn lit_switch() -> Seq<char> {
    seq!['s', 'w', 'i', 't', 'c', 'h']
}

pub open spec fn lit_case() -> Seq<char> {
    seq!['c', 'a', 's', 'e']
}

pub open spec fn lit_default() -> Seq<char> {
    seq!['d', 'e', 'f', 'a', 'u', 'l', 't']
}

/// `w` starts at `j` as a whole word (nothing identifier-like follows it).
pub open spec fn kw_at(s: Seq<char>, j: int, w: Seq<char>) -> bool {
    starts_at(s, j, w) && boundary(s, j + w.len())
}

/// Position of the first line feed at or after `k` (or the end).
pub open spec fn line_stop(s: Seq<char>, k: int) -> int
    decreases s.len() - k,
{
    if k < 0 || k >= s.len() || s[k] == '\n' {
        k
    } else {
        line_stop(s, k + 1)
    }
}

pub proof fn lemma_line_stop(s: Seq<char>, k: int)
    requires
        0 <= k <= s.len(),
    ensures
        k <= line_stop(s, k) <= s.len(),
    decreases s.len() - k,
{
    if k < s.len() && s[k] != '\n' {
        lemma_line_stop(s, k + 1);
    }
}

/// First position at or after `k` past whitespace and comments.
pub open spec fn case_ws(s: Seq<char>, k: int) -> int
    decreases s.len() - k,
{
    if k < 0 || k >= s.len() {
        k
    } else if crate::text::is_ascii_ws(s[k]) {
        case_ws(s, k + 1)
    } else if k + 1 < s.len() && s[k] == '/' && s[k + 1] == '/' {
        proof {
            lemma_line_stop(s, k + 2);
        }
        case_ws(s, line_stop(s, k + 2))
    } else if k + 1 < s.len() && s[k] == '/' && s[k + 1] == '*' {
        proof {
            lemma_block_end(s, k + 2);
        }
        case_ws(s, block_end(s, k + 2))
    } else {
        k
    }
}

pub proof fn lemma_case_ws(s: Seq<char>, k: int)
    requires
        0 <= k <= s.len(),
    ensures
        k <= case_ws(s, k) <= s.len(),
    decreases s.len() - k,
{
    if k < s.len() {
        if crate::text::is_ascii_ws(s[k]) {
            lemma_case_ws(s, k + 1);
        } else if k + 1 < s.len() && s[k] == '/' && s[k + 1] == '/' {
            lemma_line_stop(s, k + 2);
            lemma_case_ws(s, line_stop(s, k + 2));
        } else if k + 1 < s.len() && s[k] == '/' && s[k + 1] == '*' {
            lemma_block_end(s, k + 2);
            lemma_case_ws(s, block_end(s, k + 2));
        }
    }
}

/// End of a case body: the next top-level `case` or `default` label, or the end.
pub open spec fn arm_end(s: Seq<char>, j: int, dp: int, db: int) -> int
    decreases s.len() - j,
{
    if j < 0 || j >= s.len() {
        j
    } else if dp == 0 && db == 0 && (kw_at(s, j, lit_case()) || kw_at(s, j, lit_default())) {
        j
    } else {
        let c = s[j];
        arm_end(
            s,
            j + 1,
            if c == '(' { dp + 1 } else if c == ')' { dp - 1 } else { dp },
            if c == '{' { db + 1 } else if c == '}' { db - 1 } else { db },
        )
    }
}

pub proof fn lemma_arm_end(s: Seq<char>, j: int, dp: int, db: int)
    requires
        0 <= j <= s.len(),
    ensures
        j <= arm_end(s, j, dp, db) <= s.len(),
    decreases s.len() - j,
{
    if j < s.len() {
        let c = s[j];
        lemma_arm_end(
            s,
            j + 1,
            if c == '(' { dp + 1 } else if c == ')' { dp - 1 } else { dp },
            if c == '{' { db + 1 } else if c == '}' { db - 1 } else { db },
        );
    }
}

/// End of a case label: the first `:` outside parentheses, or the end.
pub open spec fn pat_end(s: Seq<char>, j: int, d: int) -> int
    decreases s.len() - j,
{
    if j < 0 || j >= s.len() {
        j
    } else {
        let c = s[j];
        let d2 = if c == '(' { d + 1 } else if c == ')' { d - 1 } else { d };
        if c == ':' && d2 == 0 {
            j
        } else {
            pat_end(s, j + 1, d2)
        }
    }
}

pub proof fn lemma_pat_end(s: Seq<char>, j: int, d: int)
    requires
        0 <= j <= s.len(),
    ensures
        j <= pat_end(s, j, d) <= s.len(),
    decreases s.len() - j,
{
    if j < s.len() {
        let c = s[j];
        let d2 = if c == '(' { d + 1 } else if c == ')' { d - 1 } else { d };
        if !(c == ':' && d2 == 0) {
            lemma_pat_end(s, j + 1, d2);
        }
    }
}

/// The labels of consecutive `case L:` entries starting at `j`, and the position after them.
pub open spec fn labels_from(s: Seq<char>, j: int, acc: Seq<Seq<char>>) -> (Seq<Seq<char>>, int)
    decreases s.len() - j,
{
    if j < 0 || j + 4 > s.len() {
        (acc, j)
    } else {
        proof {
            lemma_case_ws(s, j + 4);
        }
        let j1 = case_ws(s, j + 4);
        proof {
            lemma_pat_end(s, j1, 0);
        }
        let pe = pat_end(s, j1, 0);
        let pat = trim(s.subrange(j1, pe));
        let j2 = if pe < s.len() && s[pe] == ':' { pe + 1 } else { pe };
        proof {
            lemma_case_ws(s, j2);
        }
        let j3 = case_ws(s, j2);
        if kw_at(s, j3, lit_case()) {
            labels_from(s, j3, acc.push(pat))
        } else {
            (acc.push(pat), j3)
        }
    }
}

pub proof fn lemma_labels_from(s: Seq<char>, j: int, acc: Seq<Seq<char>>)
    requires
        0 <= j,
        j + 4 <= s.len(),
    ensures
        j + 4 <= labels_from(s, j, acc).1 <= s.len(),
    decreases s.len() - j,
{
    lemma_case_ws(s, j + 4);
    let j1 = case_ws(s, j + 4);
    lemma_pat_end(s, j1, 0);
    let pe = pat_end(s, j1, 0);
    let j2 = if pe < s.len() && s[pe] == ':' { pe + 1 } else { pe };
    lemma_case_ws(s, j2);
    let j3 = case_ws(s, j2);
    if kw_at(s, j3, lit_case()) {
        lemma_labels_from(s, j3, acc.push(trim(s.subrange(j1, pe))));
    }
}

/// One arm of a `switch`: its labels (none for `default`) and its body.
pub struct SpecArm {
    pub patterns: Seq<Seq<char>>,
    pub body: Seq<char>,
    pub is_default: bool,
}

/// A case body as it appears in an arm: top-level `break`s removed, trimmed.
pub open spec fn arm_body(s: Seq<char>, a: int, e: int) -> Seq<char> {
    trim(strip_breaks_from(s.subrange(a, e), 0, 0, 0))
}

/// The arms of the case list `s` from `j` on; reading stops at the first text that is
/// neither a `case` nor a `default` label.
pub open spec fn arms_from(s: Seq<char>, j: int, acc: Seq<SpecArm>) -> Seq<SpecArm>
    decreases s.len() - j,
{
    if j < 0 || j >= s.len() {
        acc
    } else {
        proof {
            lemma_case_ws(s, j);
        }
        let j1 = case_ws(s, j);
        if j1 >= s.len() {
            acc
        } else if kw_at(s, j1, lit_default()) {
            proof {
                lemma_case_ws(s, j1 + 7);
            }
            let j2 = case_ws(s, j1 + 7);
            let j3 = if j2 < s.len() && s[j2] == ':' { j2 + 1 } else { j2 };
            proof {
                lemma_arm_end(s, j3, 0, 0);
            }
            let e = arm_end(s, j3, 0, 0);
            arms_from(s, e, acc.push(SpecArm { patterns: Seq::empty(), body: arm_body(s, j3, e), is_default: true }))
        } else if kw_at(s, j1, lit_case()) {
            proof {
                lemma_labels_from(s, j1, Seq::empty());
            }
            let (labels, j3) = labels_from(s, j1, Seq::empty());
            proof {
                lemma_arm_end(s, j3, 0, 0);
            }
            let e = arm_end(s, j3, 0, 0);
            arms_from(s, e, acc.push(SpecArm { patterns: labels, body: arm_body(s, j3, e), is_default: false }))
        } else {
            acc
        }
    }
}

/// The `match` arm written for one `switch` arm.
pub open spec fn arm_text(a: SpecArm) -> Seq<char> {
    let pj = if a.is_default {
        "_"@
    } else {
        join(a.patterns.map_values(|p: Seq<char>| trim(p)), " | "@)
    };
    let b = trim(a.body);
    "    "@ + pj + if b.len() > 0 && b[0] == '{' && b.last() == '}' {
        " => "@ + b + ",\n"@
    } else if spec_needs_block(b) {
        " => {\n"@ + b + "\n    },\n"@
    } else {
        " => { "@ + b + " },\n"@
    }
}

pub open spec fn arms_text(arms: Seq<SpecArm>) -> Seq<char>
    decreases arms.len(),
{
    if arms.len() == 0 {
        Seq::empty()
    } else {
        arms_text(arms.drop_last()) + arm_text(arms.last())
    }
}

/// The Rust `match` replacing a `switch` on `discrim` with arms `arms`.
pub open spec fn match_text(discrim: Seq<char>, arms: Seq<SpecArm>) -> Seq<char> {
    "match "@ + discrim + " {\n"@ + arms_text(arms) + "}"@
}

/// The first `switch` of `s` at or after `i` that is a whole word (not part of
/// an identifier such as `switched`).
pub open spec fn switch_kw_from(s: Seq<char>, i: int) -> Option<int>
    decreases s.len() - i,
{
    if i < 0 || i > s.len() {
        None
    } else {
        match find_from(s, lit_switch(), i) {
            None => None,
            Some(p) => {
                proof {
                    lemma_find_from(s, lit_switch(), i);
                }
                if (p == 0 || !is_ident_char(s[p - 1])) && boundary(s, p + 6) {
                    Some(p)
                } else {
                    switch_kw_from(s, p + 1)
                }
            },
        }
    }
}

pub proof fn lemma_switch_kw_from(s: Seq<char>, i: int)
    requires
        0 <= i,
    ensures
        switch_kw_from(s, i) matches Some(p) ==> i <= p && p + 6 <= s.len() && starts_at(s, p, lit_switch()),
    decreases s.len() - i,
{
    if i <= s.len() {
        lemma_find_from(s, lit_switch(), i);
        match find_from(s, lit_switch(), i) {
            Some(p) => {
                lemma_switch_kw_from(s, p + 1);
            },
            None => {},
        }
    }
}

/// The text after rewriting the first `switch (e) { ... }` statement of `s` into a
/// `match`; `None` when there is no `switch` keyword, or when the first one is not
/// followed by a parenthesised expression and a block of `case`/`default` arms.
/// Words that merely begin with `switch` are skipped.
pub open spec fn switch_step(s: Seq<char>) -> Option<Seq<char>> {
    match switch_kw_from(s, 0) {
        None => None,
        Some(pos) => {
            let i = ws_end(s, pos + 6);
            if i >= s.len() || s[i] != '(' {
                None
            } else {
                match balanced_from(s, i, 0, '(', ')') {
                    None => None,
                    Some(rp) => {
                        let discrim = trim(s.subrange(i + 1, rp));
                        let i2 = ws_end(s, rp + 1);
                        if i2 >= s.len() || s[i2] != '{' {
                            None
                        } else {
                            match balanced_from(s, i2, 0, '{', '}') {
                                None => None,
                                Some(rb) => {
                                    let arms = arms_from(s.subrange(i2 + 1, rb), 0, Seq::empty());
                                    if arms.len() == 0 {
                                        None
                                    } else {
                                        Some(s.subrange(0, pos) + match_text(discrim, arms) + s.subrange(
                                            rb + 1,
                                            s.len() as int,
                                        ))
                                    }
                                },
                            }
                        }
                    },
                }
            }
        },
    }
}

/// `switch_step` applied until nothing changes, at most `fuel` times.
pub open spec fn switches_upto(s: Seq<char>, fuel: nat) -> Seq<char>
    decreases fuel,
{
    if fuel == 0 {
        s
    } else {
        match switch_step(s) {
            None => s,
            Some(t) => switches_upto(t, (fuel - 1) as nat),
        }
    }
}

/// `ws_end` computed: the first position at or after `i` that is not ASCII whitespace.
fn skip_ascii_ws(s: &Vec<char>, i: usize) -> (r: usize)
    requires
        i <= s@.len(),
    ensures
        r == ws_end(s@, i as int),
        i <= r <= s@.len(),
{
    proof {
        lemma_ws_end(s@, i as int);
    }
    let mut j = i;
    while j < s.len() && ascii_ws(s[j])
        invariant
            i <= j <= s@.len(),
            ws_end(s@, i as int) == ws_end(s@, j as int),
        decreases s@.len() - j,
    {
        j += 1;
    }
    j
}

/// The characters `v[a..b]` as a vector of their own.
fn sub_vec(v: &Vec<char>, a: usize, b: usize) -> (r: Vec<char>)
    requires
        a <= b <= v@.len(),
    ensures
        r@ == v@.subrange(a as int, b as int),
{
    let mut r: Vec<char> = Vec::new();
    let mut k = a;
    while k < b
        invariant
            a <= k <= b <= v@.len(),
            r@ == v@.subrange(a as int, k as int),
        decreases b - k,
    {
        r.push(v[k]);
        assert(r@ =~= v@.subrange(a as int, k + 1));
        k += 1;
    }
    r
}

/// `case_ws` computed.
fn skip_case_ws(s: &Vec<char>, k: usize) -> (r: usize)
    requires
        k <= s@.len(),
    ensures
        r == case_ws(s@, k as int),
        k <= r <= s@.len(),
{
    proof {
        lemma_case_ws(s@, k as int);
    }
    let n = s.len();
    let mut i = k;
    while i < n
        invariant
            n == s@.len(),
            k <= i <= n,
            case_ws(s@, k as int) == case_ws(s@, i as int),
        decreases n - i,
    {
        if ascii_ws(s[i]) {
            i += 1;
        } else if i + 1 < n && s[i] == '/' && s[i + 1] == '/' {
            let mut m = i + 2;
            while m < n && s[m] != '\n'
                invariant
                    i + 2 <= m <= n,
                    n == s@.len(),
                    line_stop(s@, i + 2) == line_stop(s@, m as int),
                decreases n - m,
            {
                m += 1;
            }
            i = m;
        } else if i + 1 < n && s[i] == '/' && s[i + 1] == '*' {
            let mut m = i + 2;
            while m < n && m + 1 < n && !(s[m] == '*' && s[m + 1] == '/')
                invariant
                    i + 2 <= m <= n,
                    n == s@.len(),
                    block_end(s@, i + 2) == block_end(s@, m as int),
                decreases n - m,
            {
                m += 1;
            }
            if m < n && m + 1 < n {
                m += 2;
            }
            i = m;
        } else {
            return i;
        }
    }
    i
}

/// `kw_at` computed.
fn keyword_at(s: &Vec<char>, j: usize, w: &str) -> (r: bool)
    ensures
        r == kw_at(s@, j as int, w@),
{
    let m = matches_at(s, j, w);
    if !m {
        return false;
    }
    let n = w.unicode_len();
    let len = s.len();
    assert(j + n <= len);
    is_ident_boundary(s, j + n)
}

/// `arm_end` computed from depth zero.
fn scan_arm_end(s: &Vec<char>, j: usize) -> (r: usize)
    requires
        j <= s@.len(),
    ensures
        r == arm_end(s@, j as int, 0, 0),
        j <= r <= s@.len(),
{
    proof {
        lemma_arm_end(s@, j as int, 0, 0);
        reveal_strlit("case");
        reveal_strlit("default");
    }
    assert("case"@ =~= lit_case());
    assert("default"@ =~= lit_default());
    let n = s.len();
    let mut k = j;
    let mut dp: i128 = 0;
    let mut db: i128 = 0;
    while k < n
        invariant
            n == s@.len(),
            j <= k <= n,
            -(k - j) <= dp <= k - j,
            -(k - j) <= db <= k - j,
            "case"@ =~= lit_case(),
            "default"@ =~= lit_default(),
            arm_end(s@, j as int, 0, 0) == arm_end(s@, k as int, dp as int, db as int),
        decreases n - k,
    {
        if dp == 0 && db == 0 && (keyword_at(s, k, "case") || keyword_at(s, k, "default")) {
            return k;
        }
        let c = s[k];
        if c == '(' {
            dp += 1;
        } else if c == ')' {
            dp -= 1;
        }
        if c == '{' {
            db += 1;
        } else if c == '}' {
            db -= 1;
        }
        k += 1;
    }
    k
}

/// `pat_end` computed from depth zero.
fn scan_pat_end(s: &Vec<char>, j: usize) -> (r: usize)
    requires
        j <= s@.len(),
    ensures
        r == pat_end(s@, j as int, 0),
        j <= r <= s@.len(),
{
    proof {
        lemma_pat_end(s@, j as int, 0);
    }
    let n = s.len();
    let mut k = j;
    let mut d: i128 = 0;
    while k < n
        invariant
            n == s@.len(),
            j <= k <= n,
            -(k - j) <= d <= k - j,
            pat_end(s@, j as int, 0) == pat_end(s@, k as int, d as int),
        decreases n - k,
    {
        let c = s[k];
        if c == '(' {
            d += 1;
        } else if c == ')' {
            d -= 1;
        }
        if c == ':' && d == 0 {
            return k;
        }
        k += 1;
    }
    k
}

/// The labels of the `case` entries that start at `j`, and the position after them.
fn read_labels(s: &Vec<char>, j: usize) -> (r: (Vec<String>, usize))
    requires
        j + 4 <= s@.len(),
    ensures
        (strings_view(r.0@), r.1 as int) == labels_from(s@, j as int, Seq::empty()),
        j + 4 <= r.1 <= s@.len(),
{
    proof {
        lemma_labels_from(s@, j as int, Seq::empty());
        reveal_strlit("case");
    }
    assert("case"@ =~= lit_case());
    let n = s.len();
    let mut acc: Vec<String> = Vec::new();
    let mut k = j;
    assert(strings_view(acc@) =~= Seq::<Seq<char>>::empty());
    loop
        invariant
            n == s@.len(),
            j <= k,
            k + 4 <= n,
            "case"@ =~= lit_case(),
            labels_from(s@, j as int, Seq::empty()) == labels_from(s@, k as int, strings_view(acc@)),
        decreases n - k,
    {
        proof {
            lemma_labels_from(s@, k as int, strings_view(acc@));
        }
        let j1 = skip_case_ws(s, k + 4);
        let pe = scan_pat_end(s, j1);
        let pat = trimmed(s, j1, pe);
        let j2 = if pe < n && s[pe] == ':' { pe + 1 } else { pe };
        let j3 = skip_case_ws(s, j2);
        let ghost old_acc = strings_view(acc@);
        acc.push(pat);
        assert(strings_view(acc@) =~= old_acc.push(trim(s@.subrange(j1 as int, pe as int))));
        if !keyword_at(s, j3, "case") {
            return (acc, j3);
        }
        k = j3;
    }
}

/// One arm of a `switch` being rewritten.
pub struct Arm {
    pub patterns: Vec<String>,
    pub body: String,
    pub is_default: bool,
}

impl View for Arm {
    type V = SpecArm;

    open spec fn view(&self) -> SpecArm {
        SpecArm { patterns: strings_view(self.patterns@), body: self.body@, is_default: self.is_default }
    }
}

pub open spec fn arms_view(a: Seq<Arm>) -> Seq<SpecArm> {
    a.map_values(|x: Arm| x@)
}

/// A case body: the text `v[a..e]` with top-level `break`s removed, trimmed.
fn case_body(v: &Vec<char>, a: usize, e: usize) -> (r: String)
    requires
        a <= e <= v@.len(),
    ensures
        r@ == arm_body(v@, a as int, e as int),
{
    let raw = strip_top_level_breaks(string_of_range(v, a, e));
    let rv = chars_of(raw.as_str());
    let t = trimmed(&rv, 0, rv.len());
    assert(rv@.subrange(0, rv@.len() as int) =~= rv@);
    t
}

/// The arms of the case list `cs`.
fn read_arms(cs: &Vec<char>) -> (r: Vec<Arm>)
    ensures
        arms_view(r@) == arms_from(cs@, 0, Seq::empty()),
{
    proof {
        reveal_strlit("case");
        reveal_strlit("default");
    }
    assert("case"@ =~= lit_case());
    assert("default"@ =~= lit_default());
    let n = cs.len();
    let mut arms: Vec<Arm> = Vec::new();
    let mut j: usize = 0;
    assert(arms_view(arms@) =~= Seq::<SpecArm>::empty());
    while j < n
        invariant
            n == cs@.len(),
            j <= n,
            "case"@ =~= lit_case(),
            "default"@ =~= lit_default(),
            arms_from(cs@, 0, Seq::empty()) == arms_from(cs@, j as int, arms_view(arms@)),
        ensures
            arms_from(cs@, 0, Seq::empty()) == arms_view(arms@),
        decreases n - j,
    {
        let j1 = skip_case_ws(cs, j);
        if j1 >= n {
            break;
        }
        let ghost before = arms_view(arms@);
        if keyword_at(cs, j1, "default") {
            let j2 = skip_case_ws(cs, j1 + 7);
            let j3 = if j2 < n && cs[j2] == ':' { j2 + 1 } else { j2 };
            let e = scan_arm_end(cs, j3);
            let body = case_body(cs, j3, e);
            let arm = Arm { patterns: Vec::new(), body, is_default: true };
            assert(strings_view(arm.patterns@) =~= Seq::<Seq<char>>::empty());
            arms.push(arm);
            assert(arms_view(arms@) =~= before.push(
                SpecArm { patterns: Seq::empty(), body: arm_body(cs@, j3 as int, e as int), is_default: true },
            ));
            j = e;
        } else if keyword_at(cs, j1, "case") {
            let (labels, j3) = read_labels(cs, j1);
            let e = scan_arm_end(cs, j3);
            let body = case_body(cs, j3, e);
            let ghost lv = strings_view(labels@);
            let arm = Arm { patterns: labels, body, is_default: false };
            arms.push(arm);
            assert(arms_view(arms@) =~= before.push(
                SpecArm { patterns: lv, body: arm_body(cs@, j3 as int, e as int), is_default: false },
            ));
            j = e;
        } else {
            break;
        }
    }
    arms
}

/// Appends the `match` arm for `a`.
fn push_arm_text(out: &mut String, a: &Arm)
    ensures
        final(out)@ == old(out)@ + arm_text(a@),
{
    let ghost start = out@;
    push_str(out, "    ");
    let ghost pj: Seq<char>;
    if a.is_default {
        push_str(out, "_");
        proof {
            pj = "_"@;
        }
    } else {
        let mut tp: Vec<String> = Vec::new();
        let mut k: usize = 0;
        while k < a.patterns.len()
            invariant
                k <= a.patterns@.len(),
                tp@.len() == k,
                forall|q: int| 0 <= q < k ==> #[trigger] tp@[q]@ == trim(a.patterns@[q]@),
            decreases a.patterns@.len() - k,
        {
            let pv = chars_of(a.patterns[k].as_str());
            let t = trimmed(&pv, 0, pv.len());
            assert(pv@.subrange(0, pv@.len() as int) =~= pv@);
            tp.push(t);
            k += 1;
        }
        assert(strings_view(tp@) =~= a@.patterns.map_values(|p: Seq<char>| trim(p)));
        push_joined(out, &tp, " | ");
        proof {
            pj = join(a@.patterns.map_values(|p: Seq<char>| trim(p)), " | "@);
        }
    }
    let bv0 = chars_of(a.body.as_str());
    let b = trimmed(&bv0, 0, bv0.len());
    assert(bv0@.subrange(0, bv0@.len() as int) =~= bv0@);
    let bv = chars_of(b.as_str());
    let ghost mid = out@;
    if bv.len() > 0 && bv[0] == '{' && bv[bv.len() - 1] == '}' {
        push_str(out, " => ");
        push_str(out, b.as_str());
        push_str(out, ",\n");
        assert(out@ =~= mid + (" => "@ + b@ + ",\n"@));
    } else if needs_block(b.as_str()) {
        push_str(out, " => {\n");
        push_str(out, b.as_str());
        push_str(out, "\n    },\n");
        assert(out@ =~= mid + (" => {\n"@ + b@ + "\n    },\n"@));
    } else {
        push_str(out, " => { ");
        push_str(out, b.as_str());
        push_str(out, " },\n");
        assert(out@ =~= mid + (" => { "@ + b@ + " },\n"@));
    }
    assert(mid == start + "    "@ + pj);
}

/// The `match` text for a `switch` on `discrim` with arms `arms`.
fn match_text_of(discrim: &String, arms: &Vec<Arm>) -> (r: String)
    ensures
        r@ == match_text(discrim@, arms_view(arms@)),
{
    let mut body = String::new();
    let mut k: usize = 0;
    while k < arms.len()
        invariant
            k <= arms@.len(),
            body@ == arms_text(arms_view(arms@).take(k as int)),
        decreases arms@.len() - k,
    {
        push_arm_text(&mut body, &arms[k]);
        assert(arms_view(arms@).take(k + 1).drop_last() =~= arms_view(arms@).take(k as int));
        k += 1;
    }
    assert(arms_view(arms@).take(k as int) =~= arms_view(arms@));
    let mut out = String::new();
    push_str(&mut out, "match ");
    push_str(&mut out, discrim.as_str());
    push_str(&mut out, " {\n");
    push_str(&mut out, body.as_str());
    push_str(&mut out, "}");
    assert(out@ =~= match_text(discrim@, arms_view(arms@)));
    out
}

/// One rewrite of the first `switch` statement of `v` (see `switch_step`).
fn switch_step_of(v: &Vec<char>) -> (r: Option<String>)
    ensures
        match switch_step(v@) {
            Some(t) => r matches Some(x) && x@ == t,
            None => r is None,
        },
{
    proof {
        reveal_strlit("switch");
    }
    assert("switch"@ =~= lit_switch());
    let n = v.len();
    let mut from: usize = 0;
    let pos: usize;
    loop
        invariant
            n == v@.len(),
            from <= n,
            "switch"@ =~= lit_switch(),
            switch_kw_from(v@, 0) == switch_kw_from(v@, from as int),
        ensures
            switch_kw_from(v@, 0) == Some(pos as int),
        decreases n - from,
    {
        proof {
            lemma_find_from(v@, lit_switch(), from as int);
        }
        match find_lit(v, from, "switch") {
            None => {
                return None;
            },
            Some(p) => {
                if (p == 0 || !ident_char(v[p - 1])) && is_ident_boundary(v, p + 6) {
                    pos = p;
                    break;
                }
                from = p + 1;
            },
        }
    }
    proof {
        lemma_switch_kw_from(v@, 0);
    }
    let after = pos + 6;
    let i = skip_ascii_ws(v, after);
    if i >= n || v[i] != '(' {
        return None;
    }
    proof {
        lemma_balanced_from(v@, i as int, 0, '(', ')');
    }
    let rp = match find_balanced(v, i, '(', ')') {
        None => return None,
        Some(k) => k,
    };
    let discrim = trimmed(v, i + 1, rp);
    let i2 = skip_ascii_ws(v, rp + 1);
    if i2 >= n || v[i2] != '{' {
        return None;
    }
    proof {
        lemma_balanced_from(v@, i2 as int, 0, '{', '}');
    }
    let rb = match find_balanced(v, i2, '{', '}') {
        None => return None,
        Some(k) => k,
    };
    let cs = sub_vec(v, i2 + 1, rb);
    let arms = read_arms(&cs);
    if arms.len() == 0 {
        return None;
    }
    let mut out = string_of_range(v, 0, pos);
    let m = match_text_of(&discrim, &arms);
    push_str(&mut out, m.as_str());
    push_range(&mut out, v, rb + 1, n);
    Some(out)
}

/// Rewrites `switch (e) { case ...: ... default: ... }` statements into Rust `match`
/// expressions, one at a time from the first, until none is left that can be read.
pub fn rewrite_switches(original: &str) -> (r: String)
    ensures
        r@ == switches_upto(original@, (original@.len() + 1) as nat),
        switch_step(r@) is None,
{
    let mut cur = String::new();
    push_str(&mut cur, original);
    let mut fuel: usize = original.unicode_len();
    let ghost total: nat = (original@.len() + 1) as nat;
    proof {
        crate::switch_count::lemma_s_count_le_len(original@);
        crate::switch_count::lemma_switches_reach_end(original@, total);
    }
    assert(cur@ =~= original@);
    // `fuel + 1` steps are left.
    loop
        invariant
            total == original@.len() + 1,
            switch_step(switches_upto(original@, total)) is None,
            switches_upto(original@, total) == switches_upto(cur@, (fuel + 1) as nat),
        decreases fuel,
    {
        let v = chars_of(cur.as_str());
        match switch_step_of(&v) {
            None => {
                return cur;
            },
            Some(t) => {
                if fuel == 0 {
                    proof {
                        assert(switches_upto(cur@, 1) == switches_upto(t@, 0));
                    }
                    return t;
                }
                cur = t;
                fuel -= 1;
            },
        }
    }
}

} // verus!
