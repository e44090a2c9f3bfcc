//! Regular-expression rewrites: the `regex` crate finds the matches, and the
//! replacement text is assembled here from the reported spans.
use vstd::prelude::*;
use vstd::string::*;
use vstd::utf8::*;
use crate::text::{chars_of, eq_lit, push_str, trim};

verus! {

broadcast use vstd::utf8::group_utf8_lib;

/// What `regex::Regex::new(pattern)` followed by `captures_iter(text)` reports:
/// `None` when the pattern does not compile; otherwise, for each successive
/// non-overlapping match, the byte span of every capture group (group 0 is the
/// whole match), `None` for a group that did not take part in the match.
pub uninterp spec fn regex_captures(pattern: Seq<char>, text: Seq<char>) -> Option<Seq<Seq<Option<(usize, usize)>>>>;

/// The characters whose UTF-8 encoding is bytes `a..b` of the encoding of `t`.
pub open spec fn bslice(t: Seq<char>, a: int, b: int) -> Seq<char> {
    decode_utf8(encode_utf8(t).subrange(a, b))
}

/// A byte span lies inside `bytes` and starts and ends on character boundaries.
pub open spec fn span_ok(bytes: Seq<u8>, g: Option<(usize, usize)>) -> bool {
    match g {
        None => true,
        Some((a, b)) => a <= b <= bytes.len() && is_char_boundary(bytes, a as int) && is_char_boundary(
            bytes,
            b as int,
        ),
    }
}

/// End of the whole match `m` (`0` when it has none).
pub open spec fn match_end(m: Seq<Option<(usize, usize)>>) -> int {
    if m.len() > 0 && m[0] is Some {
        m[0].unwrap().1 as int
    } else {
        0
    }
}

/// Start of the whole match `m` (`0` when it has none).
pub open spec fn match_start(m: Seq<Option<(usize, usize)>>) -> int {
    if m.len() > 0 && m[0] is Some {
        m[0].unwrap().0 as int
    } else {
        0
    }
}

/// The match list is what the regex crate documents for `captures_iter`: every
/// match has its group 0, every span is a valid slice of the text, and matches
/// come in order without overlapping.
pub open spec fn spans_ok(ms: Seq<Seq<Option<(usize, usize)>>>, bytes: Seq<u8>) -> bool {
    &&& forall|i: int| 0 <= i < ms.len() ==> #[trigger] ms[i].len() >= 1 && ms[i][0] is Some
    &&& forall|i: int, j: int|
        0 <= i < ms.len() && 0 <= j < ms[i].len() ==> span_ok(bytes, #[trigger] ms[i][j])
    &&& forall|i: int|
        0 <= i && i + 1 < ms.len() ==> match_end(#[trigger] ms[i]) <= match_start(ms[i + 1])
}

pub open spec fn spans_view(v: Seq<Vec<Option<(usize, usize)>>>) -> Seq<Seq<Option<(usize, usize)>>> {
    v.map_values(|m: Vec<Option<(usize, usize)>>| m@)
}

/// Runs `regex::Regex::new(pattern)` and, when it compiles, `captures_iter(text)`,
/// converting each match into the byte spans of its groups. The contract names the
/// result and states what the crate documents of it: group 0 always takes part,
/// spans fall on UTF-8 boundaries inside the text with `start <= end`, and matches
/// are successive and non-overlapping.
#[verifier::external_body]
fn captures_of(pattern: &str, text: &str) -> (r: Option<Vec<Vec<Option<(usize, usize)>>>>)
    ensures
        match r {
            None => regex_captures(pattern@, text@) is None,
            Some(v) => regex_captures(pattern@, text@) == Some(spans_view(v@)) && spans_ok(
                spans_view(v@),
                text.spec_bytes(),
            ),
        },
{
    match regex::Regex::new(pattern) {
        Ok(re) => Some(
            re.captures_iter(text).map(
                |c| c.iter().map(|g| g.map(|m| (m.start(), m.end()))).collect(),
            ).collect(),
        ),
        Err(_) => None,
    }
}

/// The text `text[a..b]` (byte offsets on character boundaries).
pub fn slice_of(text: &str, a: usize, b: usize) -> (r: String)
    requires
        a <= b <= text.spec_bytes().len(),
        is_char_boundary(text.spec_bytes(), a as int),
        is_char_boundary(text.spec_bytes(), b as int),
    ensures
        r@ == bslice(text@, a as int, b as int),
{
    let ghost bytes = text.spec_bytes();
    let (left, _) = text.split_at(b);
    let ghost lb = left.spec_bytes();
    assert(lb =~= bytes.subrange(0, b as int));
    proof {
        if 0 < a && a < b {
            assert(lb[a as int] == bytes[a as int]);
            is_char_boundary_iff_not_is_continuation_byte(bytes, a as int);
            is_char_boundary_iff_not_is_continuation_byte(lb, a as int);
        } else if a == b {
            is_char_boundary_start_end_of_seq(lb);
        }
    }
    let (_, mid) = left.split_at(a);
    assert(mid.spec_bytes() =~= bytes.subrange(a as int, b as int));
    let mut r = String::new();
    push_str(&mut r, mid);
    assert(r@ =~= mid@);
    r
}

/// The text of group `k` of match `m`, empty when the group did not take part.
pub open spec fn gtext(t: Seq<char>, m: Seq<Option<(usize, usize)>>, k: int) -> Seq<char> {
    if 0 <= k < m.len() && m[k] is Some {
        bslice(t, m[k].unwrap().0 as int, m[k].unwrap().1 as int)
    } else {
        Seq::empty()
    }
}

/// The text of group `k` of match `m` (empty when it did not take part).
pub fn group_text(text: &str, m: &Vec<Option<(usize, usize)>>, k: usize) -> (r: String)
    requires
        forall|j: int| 0 <= j < m@.len() ==> span_ok(text.spec_bytes(), #[trigger] m@[j]),
    ensures
        r@ == gtext(text@, m@, k as int),
{
    if k < m.len() {
        match m[k] {
            Some((a, b)) => {
                assert(span_ok(text.spec_bytes(), m@[k as int]));
                return slice_of(text, a, b);
            },
            None => {},
        }
    }
    String::new()
}

/// `s` trimmed of whitespace at both ends.
pub fn trimmed_string(s: &String) -> (r: String)
    ensures
        r@ == trim(s@),
{
    let v = chars_of(s.as_str());
    assert(v@.subrange(0, v@.len() as int) =~= v@);
    crate::text::trimmed(&v, 0, v.len())
}

/// The rewrites done with a regular expression.
#[derive(Clone, Copy, PartialEq, Eq, Debug)]
pub enum Rule {
    /// `let f = (params): R => { body };` into a closure.
    ArrowBlock,
    /// `let f = (params): R => (expr);` into a closure.
    ArrowExpr,
    /// `for (x of xs)` into `for x in xs`.
    ForOf,
    /// The first `) ; }` at the very end of the text loses its `;`.
    ParenTailSemi,
    /// `{ ( expr ) }` into `{ expr }`.
    ParenTailInline,
    /// A line made of `( expr )` alone into `expr`.
    ParenTailLine,
    /// `( expr ) }` at the start of a line into `expr }`.
    ParenTailBeforeBrace,
    /// `lhs ?? rhs` into `(lhs).unwrap_or(rhs)`.
    Coalesce,
    /// A bare name before `.unwrap_or` gets parentheses.
    WrapIdent,
    /// `( x ).unwrap_or` into `(x).unwrap_or`.
    TightParen,
    /// `root?.member(args)` into `(root).as_ref().map(|__v| __v.member(args))`.
    OptChainRoot,
    /// `)?.member(args)` continuing a chain.
    OptChainNext,
    /// `return;` into `return ;`.
    ReturnUnit,
    /// A line that is a parenthesised expression, possibly with a `;`.
    TerminalParen,
    /// ANSI colour and erase-line escape sequences (removed).
    Ansi,
    /// `function name(` or `export function name(` at the start of a line.
    FnStartSrc,
    /// `fn name(` or `pub fn name(` at the start of a line.
    FnStartGen,
    /// `export function Name(` at the start of a line.
    ExportFn,
    /// `export const Name =` or `export let Name =` at the start of a line.
    ExportConst,
    /// A line `export { A, B as C };`.
    ExportList,
    /// A line `import { A, B as C } from "path";`.
    ImportLine,
    /// A rustc location line `--> path:line:col`.
    Arrow,
    /// A back-quoted token without spaces.
    Culprit,
    /// A line feed, a line made of spaces and `|`, and a line feed, at the start.
    PipeLine,
    /// A numbered source line of a rustc snippet.
    CodeLine,
    /// The caret line under a rustc snippet.
    CaretLine,
}

/// The regular expression of each rule.
pub open spec fn rule_pattern(r: Rule) -> Seq<char> {
    match r {
        Rule::ArrowBlock => r#"(?sx)
            \blet\s+([A-Za-z_][A-Za-z0-9_]*)\s*=\s*
            (?: (move)\s+)?           # optional move
            \(\s*([^)]*?)\s*\)\s*:\s*([^=}{;]+?)\s*=>\s*
            \{\s*(.*?)\s*\}\s*;
        "#@,
        Rule::ArrowExpr => r#"(?sx)
            \blet\s+([A-Za-z_][A-Za-z0-9_]*)\s*=\s*
            (?: (move)\s+)?           # optional move
            \(\s*([^)]*?)\s*\)\s*:\s*([^=}{;]+?)\s*=>\s*
            \(\s*(.*?)\s*\)\s*;
        "#@,
        Rule::ForOf => r#"for\s*\(\s*([A-Za-z_][A-Za-z0-9_]*)\s+of\s+([^)]+)\)"#@,
        Rule::ParenTailSemi => r#"\)\s*;\s*}$"#@,
        Rule::ParenTailInline => r#"(?s)\{\s*\(\s*(.+?)\s*\)\s*\}"#@,
        Rule::ParenTailLine => r#"(?ms)^\s*\(\s*(.+?)\s*\)\s*$"#@,
        Rule::ParenTailBeforeBrace => r#"(?m)^\s*\(\s*(.+?)\s*\)\s*}"#@,
        Rule::Coalesce => r#"(?x)
            (
              (?:[A-Za-z_][A-Za-z0-9_]*|\([^()]*\))
              (?:\.[A-Za-z_][A-Za-z0-9_]*(?:\([^()]*\))?)*
            )
            \s*\?\?\s*
            ([^?\n;\)\},]+)
        "#@,
        Rule::WrapIdent => r#"(?P<prefix>^|[^A-Za-z0-9_\.\(])(?P<name>[A-Za-z_][A-Za-z0-9_]*)\.unwrap_or"#@,
        Rule::TightParen => r#"\(\s*([A-Za-z_][A-Za-z0-9_]*)\s*\)\.unwrap_or"#@,
        Rule::OptChainRoot => r#"(?x)
        (
          (?:[A-Za-z_][A-Za-z0-9_]*(?:\.[A-Za-z_][A-Za-z0-9_]*)*|\([^()]*\))
        )
        \?\.([A-Za-z_][A-Za-z0-9_]*)
        (\([^()]*\))?
        "#@,
        Rule::OptChainNext => r#"(?x)
        \)\s*\?\.([A-Za-z_][A-Za-z0-9_]*)(\([^()]*\))?
        "#@,
        Rule::ReturnUnit => r#"\breturn\s*;"#@,
        Rule::TerminalParen => r#"^\(\s*.+?\s*\)\s*;?$"#@,
        Rule::Ansi => r"\x1B\[[0-9;]*[mK]"@,
        Rule::FnStartSrc => r#"(?m)^\s*(?:export\s+)?function\s+([A-Za-z_][A-Za-z0-9_]*)\s*\("#@,
        Rule::FnStartGen => r#"(?m)^\s*(?:pub\s+)?fn\s+([A-Za-z_][A-Za-z0-9_]*)\s*\("#@,
        Rule::ExportFn => r#"(?m)^\s*export\s+function\s+([A-Za-z_][A-Za-z0-9_]*)\s*\("#@,
        Rule::ExportConst => r#"(?m)^\s*export\s+(?:const|let)\s+([A-Za-z_][A-Za-z0-9_]*)\s*="#@,
        Rule::ExportList => r#"(?m)^\s*export\s*\{([^}]+)\}\s*;?\s*$"#@,
        Rule::ImportLine => r#"^\s*import\s*\{([^}]*)\}\s*from\s*"([^"]+)"\s*;?\s*$"#@,
        Rule::Arrow => r"(?m)^ *--> ([^:\n]+):(\d+):(\d+)"@,
        Rule::Culprit => r"`([^\s`]+)`"@,
        Rule::PipeLine => r"(?s)^\n( *\|)\n"@,
        Rule::CodeLine => r"(?m)^(\s*)(\d+)(\s*\|\s)(.*)"@,
        Rule::CaretLine => r"(?m)^(\s*\|\s)(\s*)(\^+)(.*)$"@,
    }
}

fn pattern_of(r: Rule) -> (p: &'static str)
    ensures
        p@ == rule_pattern(r),
{
    match r {
        Rule::ArrowBlock => r#"(?sx)
            \blet\s+([A-Za-z_][A-Za-z0-9_]*)\s*=\s*
            (?: (move)\s+)?           # optional move
            \(\s*([^)]*?)\s*\)\s*:\s*([^=}{;]+?)\s*=>\s*
            \{\s*(.*?)\s*\}\s*;
        "#,
        Rule::ArrowExpr => r#"(?sx)
            \blet\s+([A-Za-z_][A-Za-z0-9_]*)\s*=\s*
            (?: (move)\s+)?           # optional move
            \(\s*([^)]*?)\s*\)\s*:\s*([^=}{;]+?)\s*=>\s*
            \(\s*(.*?)\s*\)\s*;
        "#,
        Rule::ForOf => r#"for\s*\(\s*([A-Za-z_][A-Za-z0-9_]*)\s+of\s+([^)]+)\)"#,
        Rule::ParenTailSemi => r#"\)\s*;\s*}$"#,
        Rule::ParenTailInline => r#"(?s)\{\s*\(\s*(.+?)\s*\)\s*\}"#,
        Rule::ParenTailLine => r#"(?ms)^\s*\(\s*(.+?)\s*\)\s*$"#,
        Rule::ParenTailBeforeBrace => r#"(?m)^\s*\(\s*(.+?)\s*\)\s*}"#,
        Rule::Coalesce => r#"(?x)
            (
              (?:[A-Za-z_][A-Za-z0-9_]*|\([^()]*\))
              (?:\.[A-Za-z_][A-Za-z0-9_]*(?:\([^()]*\))?)*
            )
            \s*\?\?\s*
            ([^?\n;\)\},]+)
        "#,
        Rule::WrapIdent => r#"(?P<prefix>^|[^A-Za-z0-9_\.\(])(?P<name>[A-Za-z_][A-Za-z0-9_]*)\.unwrap_or"#,
        Rule::TightParen => r#"\(\s*([A-Za-z_][A-Za-z0-9_]*)\s*\)\.unwrap_or"#,
        Rule::OptChainRoot => r#"(?x)
        (
          (?:[A-Za-z_][A-Za-z0-9_]*(?:\.[A-Za-z_][A-Za-z0-9_]*)*|\([^()]*\))
        )
        \?\.([A-Za-z_][A-Za-z0-9_]*)
        (\([^()]*\))?
        "#,
        Rule::OptChainNext => r#"(?x)
        \)\s*\?\.([A-Za-z_][A-Za-z0-9_]*)(\([^()]*\))?
        "#,
        Rule::ReturnUnit => r#"\breturn\s*;"#,
        Rule::TerminalParen => r#"^\(\s*.+?\s*\)\s*;?$"#,
        Rule::Ansi => r"\x1B\[[0-9;]*[mK]",
        Rule::FnStartSrc => r#"(?m)^\s*(?:export\s+)?function\s+([A-Za-z_][A-Za-z0-9_]*)\s*\("#,
        Rule::FnStartGen => r#"(?m)^\s*(?:pub\s+)?fn\s+([A-Za-z_][A-Za-z0-9_]*)\s*\("#,
        Rule::ExportFn => r#"(?m)^\s*export\s+function\s+([A-Za-z_][A-Za-z0-9_]*)\s*\("#,
        Rule::ExportConst => r#"(?m)^\s*export\s+(?:const|let)\s+([A-Za-z_][A-Za-z0-9_]*)\s*="#,
        Rule::ExportList => r#"(?m)^\s*export\s*\{([^}]+)\}\s*;?\s*$"#,
        Rule::ImportLine => r#"^\s*import\s*\{([^}]*)\}\s*from\s*"([^"]+)"\s*;?\s*$"#,
        Rule::Arrow => r"(?m)^ *--> ([^:\n]+):(\d+):(\d+)",
        Rule::Culprit => r"`([^\s`]+)`",
        Rule::PipeLine => r"(?s)^\n( *\|)\n",
        Rule::CodeLine => r"(?m)^(\s*)(\d+)(\s*\|\s)(.*)",
        Rule::CaretLine => r"(?m)^(\s*\|\s)(\s*)(\^+)(.*)$",
    }
}

/// The closure text written for a local arrow function.
pub open spec fn closure_text(t: Seq<char>, m: Seq<Option<(usize, usize)>>) -> Seq<char> {
    let name = trim(gtext(t, m, 1));
    let mv = trim(gtext(t, m, 2));
    let params = trim(gtext(t, m, 3));
    let ret = trim(gtext(t, m, 4));
    let body = trim(gtext(t, m, 5));
    "let "@ + name + " = "@ + (if mv.len() == 0 {
        Seq::empty()
    } else {
        "move "@
    }) + "|"@ + params + "| -> "@ + ret + " { "@ + body + " };"@
}

/// The replacement written for one match `m` of rule `r` in `t`.
pub open spec fn rule_rep(r: Rule, t: Seq<char>, m: Seq<Option<(usize, usize)>>) -> Seq<char> {
    match r {
        Rule::ArrowBlock => closure_text(t, m),
        Rule::ArrowExpr => closure_text(t, m),
        Rule::ForOf => "for "@ + gtext(t, m, 1) + " in "@ + gtext(t, m, 2),
        Rule::ParenTailSemi => ")}"@,
        Rule::ParenTailInline => "{ "@ + gtext(t, m, 1) + " }"@,
        Rule::ParenTailLine => gtext(t, m, 1),
        Rule::ParenTailBeforeBrace => gtext(t, m, 1) + " }"@,
        Rule::Coalesce => "("@ + trim(gtext(t, m, 1)) + ").unwrap_or("@ + trim(gtext(t, m, 2)) + ")"@,
        Rule::WrapIdent => gtext(t, m, 1) + "("@ + gtext(t, m, 2) + ").unwrap_or"@,
        Rule::TightParen => "("@ + gtext(t, m, 1) + ").unwrap_or"@,
        Rule::OptChainRoot => "("@ + trim(gtext(t, m, 1)) + ").as_ref().map(|__v| __v."@ + trim(
            gtext(t, m, 2),
        ) + gtext(t, m, 3) + ")"@,
        Rule::OptChainNext => ").map(|__v| __v."@ + trim(gtext(t, m, 1)) + gtext(t, m, 2) + ")"@,
        Rule::ReturnUnit => "return ;"@,
        _ => Seq::empty(),
    }
}

fn rep_of(r: Rule, text: &str, m: &Vec<Option<(usize, usize)>>) -> (out: String)
    requires
        forall|j: int| 0 <= j < m@.len() ==> span_ok(text.spec_bytes(), #[trigger] m@[j]),
    ensures
        out@ == rule_rep(r, text@, m@),
{
    let mut out = String::new();
    match r {
        Rule::ArrowBlock | Rule::ArrowExpr => {
            let name = trimmed_string(&group_text(text, m, 1));
            let mv = trimmed_string(&group_text(text, m, 2));
            let params = trimmed_string(&group_text(text, m, 3));
            let ret = trimmed_string(&group_text(text, m, 4));
            let body = trimmed_string(&group_text(text, m, 5));
            push_str(&mut out, "let ");
            push_str(&mut out, name.as_str());
            push_str(&mut out, " = ");
            let ghost mid = out@;
            if mv.unicode_len() > 0 {
                push_str(&mut out, "move ");
            }
            assert(out@ =~= mid + (if mv@.len() == 0 {
                Seq::empty()
            } else {
                "move "@
            }));
            push_str(&mut out, "|");
            push_str(&mut out, params.as_str());
            push_str(&mut out, "| -> ");
            push_str(&mut out, ret.as_str());
            push_str(&mut out, " { ");
            push_str(&mut out, body.as_str());
            push_str(&mut out, " };");
            assert(out@ =~= closure_text(text@, m@));
        },
        Rule::ForOf => {
            push_str(&mut out, "for ");
            push_str(&mut out, group_text(text, m, 1).as_str());
            push_str(&mut out, " in ");
            push_str(&mut out, group_text(text, m, 2).as_str());
        },
        Rule::ParenTailSemi => {
            push_str(&mut out, ")}");
        },
        Rule::ParenTailInline => {
            push_str(&mut out, "{ ");
            push_str(&mut out, group_text(text, m, 1).as_str());
            push_str(&mut out, " }");
        },
        Rule::ParenTailLine => {
            push_str(&mut out, group_text(text, m, 1).as_str());
        },
        Rule::ParenTailBeforeBrace => {
            push_str(&mut out, group_text(text, m, 1).as_str());
            push_str(&mut out, " }");
        },
        Rule::Coalesce => {
            push_str(&mut out, "(");
            push_str(&mut out, trimmed_string(&group_text(text, m, 1)).as_str());
            push_str(&mut out, ").unwrap_or(");
            push_str(&mut out, trimmed_string(&group_text(text, m, 2)).as_str());
            push_str(&mut out, ")");
        },
        Rule::WrapIdent => {
            push_str(&mut out, group_text(text, m, 1).as_str());
            push_str(&mut out, "(");
            push_str(&mut out, group_text(text, m, 2).as_str());
            push_str(&mut out, ").unwrap_or");
        },
        Rule::TightParen => {
            push_str(&mut out, "(");
            push_str(&mut out, group_text(text, m, 1).as_str());
            push_str(&mut out, ").unwrap_or");
        },
        Rule::OptChainRoot => {
            push_str(&mut out, "(");
            push_str(&mut out, trimmed_string(&group_text(text, m, 1)).as_str());
            push_str(&mut out, ").as_ref().map(|__v| __v.");
            push_str(&mut out, trimmed_string(&group_text(text, m, 2)).as_str());
            push_str(&mut out, group_text(text, m, 3).as_str());
            push_str(&mut out, ")");
        },
        Rule::OptChainNext => {
            push_str(&mut out, ").map(|__v| __v.");
            push_str(&mut out, trimmed_string(&group_text(text, m, 1)).as_str());
            push_str(&mut out, group_text(text, m, 2).as_str());
            push_str(&mut out, ")");
        },
        Rule::ReturnUnit => {
            push_str(&mut out, "return ;");
        },
        _ => {},
    }
    out
}

/// Only the first match is replaced (`Regex::replace`); the others replace all
/// matches (`Regex::replace_all`).
pub open spec fn first_only(r: Rule) -> bool {
    r == Rule::ParenTailSemi
}

/// The matches a rule replaces.
pub open spec fn used_matches(r: Rule, ms: Seq<Seq<Option<(usize, usize)>>>) -> Seq<Seq<Option<(usize, usize)>>> {
    if first_only(r) && ms.len() > 1 {
        ms.take(1)
    } else {
        ms
    }
}

/// The output for the first `k` matches of `ms`: for each, the text since the end
/// of the previous match, then the replacement.
pub open spec fn splice_upto(r: Rule, t: Seq<char>, ms: Seq<Seq<Option<(usize, usize)>>>, k: int) -> Seq<char>
    decreases k,
{
    if k <= 0 {
        Seq::empty()
    } else {
        let prev = if k == 1 {
            0
        } else {
            match_end(ms[k - 2])
        };
        splice_upto(r, t, ms, k - 1) + bslice(t, prev, match_start(ms[k - 1])) + rule_rep(r, t, ms[k - 1])
    }
}

/// `t` with each match in `ms` replaced by the rule's replacement.
pub open spec fn spliced(r: Rule, t: Seq<char>, ms: Seq<Seq<Option<(usize, usize)>>>) -> Seq<char> {
    let us = used_matches(r, ms);
    let last = if us.len() == 0 {
        0
    } else {
        match_end(us.last())
    };
    splice_upto(r, t, us, us.len() as int) + bslice(t, last, encode_utf8(t).len() as int)
}

/// What applying rule `r` to `t` gives; a pattern that does not compile leaves
/// the text as it is.
pub open spec fn rule_applied(r: Rule, t: Seq<char>) -> Seq<char> {
    match regex_captures(rule_pattern(r), t) {
        None => t,
        Some(ms) => spliced(r, t, ms),
    }
}

/// Builds the text of rule `r` applied to `text` from the matches `ms` that the
/// regex crate reported for it.
pub fn splice_matches(r: Rule, text: &str, ms: &Vec<Vec<Option<(usize, usize)>>>) -> (out: String)
    requires
        spans_ok(spans_view(ms@), text.spec_bytes()),
    ensures
        out@ == spliced(r, text@, spans_view(ms@)),
{
    let ghost bytes = text.spec_bytes();
    let ghost sv = spans_view(ms@);
    let ghost us = used_matches(r, sv);
    let lim = if matches!(r, Rule::ParenTailSemi) && ms.len() > 1 { 1 } else { ms.len() };
    assert(us.len() == lim);
    assert forall|i: int| 0 <= i < lim implies #[trigger] us[i] == sv[i] by {}
    let mut out = String::new();
    let mut last: usize = 0;
    let mut k: usize = 0;
    let n = text.as_bytes().len();
    proof {
        is_char_boundary_start_end_of_seq(bytes);
    }
    while k < lim
        invariant
            lim <= ms@.len(),
            n == bytes.len(),
            bytes == text.spec_bytes(),
            sv == spans_view(ms@),
            us == used_matches(r, sv),
            us.len() == lim,
            forall|i: int| 0 <= i < lim ==> #[trigger] us[i] == sv[i],
            spans_ok(sv, bytes),
            k <= lim,
            last <= n,
            is_char_boundary(bytes, last as int),
            last == (if k == 0 { 0 } else { match_end(us[k - 1]) }),
            out@ == splice_upto(r, text@, us, k as int),
        decreases lim - k,
    {
        let m = &ms[k];
        assert(sv[k as int] == m@);
        assert(m@.len() >= 1 && m@[0] is Some);
        assert(span_ok(bytes, sv[k as int][0]));
        let (a, b) = match m[0] {
            Some(p) => p,
            None => (0, 0),
        };
        proof {
            if k > 0 {
                assert(match_end(sv[k - 1]) <= match_start(sv[k as int]));
            }
        }
        let gap = slice_of(text, last, a);
        push_str(&mut out, gap.as_str());
        assert forall|j: int| 0 <= j < m@.len() implies span_ok(bytes, #[trigger] m@[j]) by {
            assert(span_ok(bytes, sv[k as int][j]));
        }
        let rep = rep_of(r, text, m);
        push_str(&mut out, rep.as_str());
        last = b;
        k += 1;
    }
    let tail = slice_of(text, last, n);
    push_str(&mut out, tail.as_str());
    out
}

/// Applies rule `r` to `text`: every match (the first only for `ParenTailSemi`)
/// is replaced by the rule's replacement.
pub fn apply_rule(r: Rule, text: &str) -> (out: String)
    ensures
        out@ == rule_applied(r, text@),
{
    match captures_of(pattern_of(r), text) {
        None => {
            let mut s = String::new();
            push_str(&mut s, text);
            s
        },
        Some(ms) => splice_matches(r, text, &ms),
    }
}

/// Whether rule `r`'s pattern matches somewhere in `text` (`false` when it does
/// not compile).
pub open spec fn rule_matches(r: Rule, t: Seq<char>) -> bool {
    match regex_captures(rule_pattern(r), t) {
        None => false,
        Some(ms) => ms.len() > 0,
    }
}

pub fn rule_is_match(r: Rule, text: &str) -> (b: bool)
    ensures
        b == rule_matches(r, text@),
{
    match captures_of(pattern_of(r), text) {
        None => false,
        Some(ms) => ms.len() > 0,
    }
}

/// The match list of rule `r`'s pattern in `text` (`None` when it does not compile).
pub fn find_matches(r: Rule, text: &str) -> (o: Option<Vec<Vec<Option<(usize, usize)>>>>)
    ensures
        match o {
            None => regex_captures(rule_pattern(r), text@) is None,
            Some(v) => regex_captures(rule_pattern(r), text@) == Some(spans_view(v@)) && spans_ok(
                spans_view(v@),
                text.spec_bytes(),
            ),
        },
{
    captures_of(pattern_of(r), text)
}

/// A copy of `s`.
pub fn copy_string(s: &String) -> (r: String)
    ensures
        r@ == s@,
{
    let mut r = String::new();
    push_str(&mut r, s.as_str());
    r
}

/// Whether two strings hold the same characters.
pub fn same_text(a: &String, b: &String) -> (r: bool)
    ensures
        r == (a@ == b@),
{
    let v = chars_of(a.as_str());
    let r = eq_lit(&v, b.as_str());
    proof {
        if r {
            assert(a@ =~= b@);
        }
    }
    r
}

} // verus!
