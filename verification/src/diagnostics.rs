//! Rewriting rustc diagnostics so that they point into `.tsrust` sources.
use vstd::prelude::*;
use vstd::string::*;
use crate::ast::strings_view;
use crate::linemap::{CrateLineMap, SpecFileLine, expand_tabs, expand_tabs_to_cols, find_token_col_at_or_after, map_line, maps_view, sat_add, spec_map_line, token_col_from};
use crate::pattern::{Rule, apply_rule, bslice, copy_string, find_matches, group_text, gtext, regex_captures, rule_applied, rule_pattern, same_text, slice_of, spans_ok, spans_view};
use crate::text::{chars_of, find_from, find_lit, lemma_find_from, push_char, push_str, trim};
use crate::transpile::{decimal, push_decimal, split_at_char, split_on};

verus! {

broadcast use vstd::utf8::group_utf8_lib;

/// Removes ANSI colour and erase-line escape sequences.
pub fn strip_ansi(s: &str) -> (r: String)
    ensures
        r@ == rule_applied(Rule::Ansi, s@),
{
    apply_rule(Rule::Ansi, s)
}

// ----- reading lines of a file held in memory -----

/// The lines `BufRead::read_line` returns one after the other: each with its line
/// feed, the last one only when it is not empty.
pub open spec fn read_lines(t: Seq<char>) -> Seq<Seq<char>> {
    let ps = split_on(t, '\n');
    let body = ps.drop_last().map_values(|p: Seq<char>| p.push('\n'));
    if ps.last().len() == 0 {
        body
    } else {
        body.push(ps.last())
    }
}

/// `s` without the line feeds and carriage returns at its end.
pub open spec fn strip_eol(s: Seq<char>) -> Seq<char>
    decreases s.len(),
{
    if s.len() > 0 && (s.last() == '\n' || s.last() == '\r') {
        strip_eol(s.drop_last())
    } else {
        s
    }
}

/// Line `n` (1-based; 0 reads as 1) of the text, without its line ending.
pub open spec fn line_1_based(t: Seq<char>, n: usize) -> Option<Seq<char>> {
    let ls = read_lines(t);
    let i = if n == 0 { 0 } else { n - 1 };
    if i < ls.len() {
        Some(strip_eol(ls[i]))
    } else {
        None
    }
}

/// Lines `start`, `start + 1`, ... (at most `limit + 1` of them, 1-based, 0 read
/// as 1): the first that is not blank, with its number counted from `start`.
pub open spec fn next_non_empty_from(t: Seq<char>, start: usize, limit: nat, i: nat) -> Option<(usize, Seq<char>)>
    decreases limit + 1 - i,
{
    let ls = read_lines(t);
    let base = if start == 0 { 0 } else { start - 1 };
    if i > limit || base + i >= ls.len() {
        None
    } else {
        let l = strip_eol(ls[base + i]);
        if trim(l).len() > 0 {
            Some((sat_add(start as int, i as int), l))
        } else {
            next_non_empty_from(t, start, limit, i + 1)
        }
    }
}

/// From line `start` on (at most `limit + 1` lines), the first non-empty line that
/// holds `needle`: its number, the column (in characters) of `needle`, its text.
pub open spec fn culprit_from(t: Seq<char>, start: usize, needle: Seq<char>, limit: nat, i: nat) -> Option<
    (usize, int, Seq<char>),
>
    decreases limit + 1 - i,
{
    let ls = read_lines(t);
    let base = if start == 0 { 0 } else { start - 1 };
    if i > limit || base + i >= ls.len() {
        None
    } else {
        let l = strip_eol(ls[base + i]);
        if l.len() == 0 {
            culprit_from(t, start, needle, limit, i + 1)
        } else {
            match find_from(l, needle, 0) {
                Some(k) => Some((sat_add(start as int, i as int), k, l)),
                None => culprit_from(t, start, needle, limit, i + 1),
            }
        }
    }
}

fn read_lines_of(t: &str) -> (r: Vec<String>)
    ensures
        strings_view(r@) == read_lines(t@),
{
    let ps = split_at_char(t, '\n');
    let ghost pv = strings_view(ps@);
    proof {
        crate::transpile::lemma_split_on_len(t@, '\n');
    }
    let n = ps.len();
    let mut out: Vec<String> = Vec::new();
    let mut k: usize = 0;
    while k + 1 < n
        invariant
            n == ps@.len(),
            n >= 1,
            k < n,
            pv == strings_view(ps@),
            pv == split_on(t@, '\n'),
            strings_view(out@) == pv.drop_last().take(k as int).map_values(|p: Seq<char>| p.push('\n')),
        decreases n - k,
    {
        let mut l = copy_string(&ps[k]);
        push_char(&mut l, '\n');
        assert(pv.drop_last()[k as int] == ps@[k as int]@);
        let ghost before = strings_view(out@);
        let ghost lv = l@;
        out.push(l);
        assert(strings_view(out@) =~= before.push(lv));
        assert(pv.drop_last().take(k + 1) =~= pv.drop_last().take(k as int).push(pv.drop_last()[k as int]));
        assert(pv.drop_last().take(k + 1).map_values(|p: Seq<char>| p.push('\n'))
            =~= pv.drop_last().take(k as int).map_values(|p: Seq<char>| p.push('\n')).push(lv));
        k += 1;
    }
    assert(pv.drop_last().take(k as int) =~= pv.drop_last());
    assert(pv.last() == ps@[n - 1]@);
    if ps[n - 1].unicode_len() > 0 {
        let ghost before = strings_view(out@);
        out.push(copy_string(&ps[n - 1]));
        assert(strings_view(out@) =~= before.push(pv.last()));
    }
    out
}

fn strip_eol_of(s: &String) -> (r: String)
    ensures
        r@ == strip_eol(s@),
{
    let v = chars_of(s.as_str());
    let mut e = v.len();
    assert(v@.subrange(0, e as int) =~= v@);
    while e > 0 && (v[e - 1] == '\n' || v[e - 1] == '\r')
        invariant
            e <= v@.len(),
            v@ == s@,
            strip_eol(s@) == strip_eol(v@.subrange(0, e as int)),
        decreases e,
    {
        assert(v@.subrange(0, e as int).drop_last() =~= v@.subrange(0, e - 1));
        e -= 1;
    }
    crate::text::string_of_range(&v, 0, e)
}

/// The text of `path` in the store, if it was read.
pub open spec fn stored(files: Seq<(Seq<char>, Option<Seq<char>>)>, path: Seq<char>) -> Option<Seq<char>>
    decreases files.len(),
{
    if files.len() == 0 {
        None
    } else if files[0].0 == path {
        files[0].1
    } else {
        stored(files.drop_first(), path)
    }
}

/// Files read ahead of the rewrite, by path (`None` when reading failed).
#[derive(Debug, Clone)]
pub struct FileStore {
    pub files: Vec<(String, Option<String>)>,
}

impl View for FileStore {
    type V = Seq<(Seq<char>, Option<Seq<char>>)>;

    open spec fn view(&self) -> Seq<(Seq<char>, Option<Seq<char>>)> {
        self.files@.map_values(
            |e: (String, Option<String>)| (e.0@, match e.1 {
                Some(t) => Some(t@),
                None => None,
            }),
        )
    }
}

impl FileStore {
    fn get(&self, path: &String) -> (r: Option<&String>)
        ensures
            match stored(self@, path@) {
                Some(t) => r matches Some(x) && x@ == t,
                None => r is None,
            },
    {
        let ghost v = self@;
        let mut k: usize = 0;
        assert(v.skip(0) =~= v);
        while k < self.files.len()
            invariant
                k <= self.files@.len(),
                v == self@,
                stored(v, path@) == stored(v.skip(k as int), path@),
            decreases self.files@.len() - k,
        {
            assert(v.skip(k as int)[0] == v[k as int]);
            assert(v.skip(k as int).drop_first() =~= v.skip(k + 1));
            if same_text(&self.files[k].0, path) {
                return match &self.files[k].1 {
                    Some(t) => Some(t),
                    None => None,
                };
            }
            k += 1;
        }
        None
    }
}

/// Line `line` of the stored file `path` (see `line_1_based`).
pub fn read_line_1_based(store: &FileStore, path: &String, line: usize) -> (r: Option<String>)
    ensures
        match stored(store@, path@) {
            None => r is None,
            Some(t) => match line_1_based(t, line) {
                Some(l) => r matches Some(x) && x@ == l,
                None => r is None,
            },
        },
{
    match store.get(path) {
        None => None,
        Some(t) => {
            let ls = read_lines_of(t.as_str());
            let i = if line == 0 { 0 } else { line - 1 };
            if i < ls.len() {
                assert(strings_view(ls@)[i as int] == ls@[i as int]@);
                Some(strip_eol_of(&ls[i]))
            } else {
                None
            }
        },
    }
}

/// The first non-blank line of the stored file `path` from line `start` on, looking
/// at most `limit + 1` lines (see `next_non_empty_from`).
pub fn read_next_non_empty_line(store: &FileStore, path: &String, start: usize, limit: usize) -> (r: Option<
    (usize, String),
>)
    ensures
        match stored(store@, path@) {
            None => r is None,
            Some(t) => match next_non_empty_from(t, start, limit as nat, 0) {
                Some((n, l)) => r matches Some(x) && x.0 == n && x.1@ == l,
                None => r is None,
            },
        },
{
    match store.get(path) {
        None => None,
        Some(t) => {
            let ls = read_lines_of(t.as_str());
            let ghost lv = strings_view(ls@);
            let base = if start == 0 { 0 } else { start - 1 };
            let mut i: usize = 0;
            while i <= limit
                invariant
                    stored(store@, path@) == Some(t@),
                    i <= limit,
                    lv == strings_view(ls@),
                    lv == read_lines(t@),
                    base == (if start == 0 { 0 } else { start - 1 }),
                    next_non_empty_from(t@, start, limit as nat, 0) == next_non_empty_from(t@, start, limit as nat, i as nat),
                decreases limit + 1 - i,
            {
                if base >= ls.len() || i >= ls.len() - base {
                    return None;
                }
                assert(lv[base + i] == ls@[base + i]@);
                let l = strip_eol_of(&ls[base + i]);
                let lc = chars_of(l.as_str());
                let (a, b) = crate::text::trim_bounds(&lc, 0, lc.len());
                assert(lc@.subrange(0, lc@.len() as int) =~= lc@);
                if a < b {
                    let n = if start <= usize::MAX - i { start + i } else { usize::MAX };
                    return Some((n, l));
                }
                if i == limit {
                    assert(next_non_empty_from(t@, start, limit as nat, (i + 1) as nat) is None);
                    return None;
                }
                i += 1;
            }
            None
        },
    }
}

/// The first non-empty line holding `needle` of the stored file `path` from line
/// `start` on, looking at most `limit + 1` lines (see `culprit_from`).
pub fn find_culprit_ahead(store: &FileStore, path: &String, start: usize, needle: &str, limit: usize) -> (r: Option<
    (usize, usize, String),
>)
    ensures
        match stored(store@, path@) {
            None => r is None,
            Some(t) => match culprit_from(t, start, needle@, limit as nat, 0) {
                Some((n, c, l)) => r matches Some(x) && x.0 == n && x.1 == c && x.2@ == l,
                None => r is None,
            },
        },
{
    match store.get(path) {
        None => None,
        Some(t) => {
            let ls = read_lines_of(t.as_str());
            let ghost lv = strings_view(ls@);
            let base = if start == 0 { 0 } else { start - 1 };
            let mut i: usize = 0;
            while i <= limit
                invariant
                    stored(store@, path@) == Some(t@),
                    i <= limit,
                    lv == strings_view(ls@),
                    lv == read_lines(t@),
                    base == (if start == 0 { 0 } else { start - 1 }),
                    culprit_from(t@, start, needle@, limit as nat, 0) == culprit_from(t@, start, needle@, limit as nat, i as nat),
                decreases limit + 1 - i,
            {
                if base >= ls.len() || i >= ls.len() - base {
                    return None;
                }
                assert(lv[base + i] == ls@[base + i]@);
                let l = strip_eol_of(&ls[base + i]);
                let lc = chars_of(l.as_str());
                if lc.len() > 0 {
                    proof {
                        lemma_find_from(lc@, needle@, 0);
                    }
                    match find_lit(&lc, 0, needle) {
                        Some(k) => {
                            let n = if start <= usize::MAX - i { start + i } else { usize::MAX };
                            return Some((n, k, l));
                        },
                        None => {},
                    }
                }
                if i == limit {
                    assert(culprit_from(t@, start, needle@, limit as nat, (i + 1) as nat) is None);
                    return None;
                }
                i += 1;
            }
            None
        },
    }
}

// ----- numbers -----

/// The value of a run of ASCII digits.
pub open spec fn digits_value(s: Seq<char>) -> int
    decreases s.len(),
{
    if s.len() == 0 {
        0
    } else {
        digits_value(s.drop_last()) * 10 + (s.last() as int - '0' as int)
    }
}

pub open spec fn all_digits(s: Seq<char>) -> bool {
    forall|i: int| 0 <= i < s.len() ==> '0' <= #[trigger] s[i] <= '9'
}

/// `s.parse::<usize>().unwrap_or(1)` for a run of digits: its value when it is ASCII
/// digits that fit in `usize`, else 1.
pub open spec fn number_or_one(s: Seq<char>) -> usize {
    if s.len() > 0 && all_digits(s) && digits_value(s) <= usize::MAX {
        digits_value(s) as usize
    } else {
        1
    }
}

proof fn lemma_digits_value_mono(s: Seq<char>, k: int)
    requires
        0 <= k <= s.len(),
        all_digits(s),
    ensures
        0 <= digits_value(s.take(k)) <= digits_value(s),
    decreases s.len() - k,
{
    if k < s.len() {
        lemma_digits_value_mono(s, k + 1);
        assert(s.take(k + 1).drop_last() =~= s.take(k));
        assert('0' <= s[k] <= '9');
    } else {
        assert(s.take(k) =~= s);
    }
    lemma_digits_nonneg(s.take(k));
}

proof fn lemma_digits_nonneg(s: Seq<char>)
    requires
        all_digits(s),
    ensures
        digits_value(s) >= 0,
    decreases s.len(),
{
    if s.len() > 0 {
        assert(all_digits(s.drop_last()));
        lemma_digits_nonneg(s.drop_last());
        assert('0' <= s[s.len() - 1] <= '9');
    }
}

pub fn parse_or_one(s: &String) -> (r: usize)
    ensures
        r == number_or_one(s@),
{
    let v = chars_of(s.as_str());
    if v.len() == 0 {
        return 1;
    }
    let mut k: usize = 0;
    let mut acc: usize = 0;
    while k < v.len()
        invariant
            k <= v@.len(),
            v@ == s@,
            v@.len() > 0,
            all_digits(v@.take(k as int)),
            acc == digits_value(v@.take(k as int)),
        decreases v@.len() - k,
    {
        let c = v[k];
        if !('0' <= c && c <= '9') {
            assert(!all_digits(v@));
            return 1;
        }
        let d = (c as u32 - '0' as u32) as usize;
        assert(v@.take(k + 1).drop_last() =~= v@.take(k as int));
        assert(all_digits(v@.take(k + 1)));
        if acc > (usize::MAX - d) / 10 {
            proof {
                if all_digits(v@) {
                    lemma_digits_value_mono(v@, k + 1);
                    assert(digits_value(v@.take(k + 1)) == acc * 10 + d);
                    assert(acc * 10 + d > usize::MAX) by (nonlinear_arith)
                        requires
                            acc > (usize::MAX - d) / 10,
                            d <= 9,
                    ;
                }
            }
            return 1;
        }
        assert(acc * 10 + d <= usize::MAX) by (nonlinear_arith)
            requires
                acc <= (usize::MAX - d) / 10,
                d <= 9,
        ;
        acc = acc * 10 + d;
        k += 1;
    }
    assert(v@.take(k as int) =~= v@);
    acc
}

// ----- the rewrite -----

/// Group 1 of the first match of rule `r` in `t`, when that group took part.
pub open spec fn first_group1(r: Rule, t: Seq<char>) -> Option<Seq<char>> {
    match regex_captures(rule_pattern(r), t) {
        Some(ms) => if ms.len() > 0 && ms[0].len() > 1 && ms[0][1] is Some {
            Some(gtext(t, ms[0], 1))
        } else {
            None
        },
        None => None,
    }
}

/// The first match of rule `r` in `t`.
pub open spec fn first_match(r: Rule, t: Seq<char>) -> Option<Seq<Option<(usize, usize)>>> {
    match regex_captures(rule_pattern(r), t) {
        Some(ms) => if ms.len() > 0 {
            Some(ms[0])
        } else {
            None
        },
        None => None,
    }
}

/// The matches of rule `r` in `t` (none when the pattern does not compile).
pub open spec fn all_matches(r: Rule, t: Seq<char>) -> Seq<Seq<Option<(usize, usize)>>> {
    match regex_captures(rule_pattern(r), t) {
        Some(ms) => ms,
        None => Seq::empty(),
    }
}

pub open spec fn blen(t: Seq<char>) -> int {
    vstd::utf8::encode_utf8(t).len() as int
}

/// `n` spaces.
pub open spec fn spaces(n: nat) -> Seq<char> {
    Seq::new(n, |i: int| ' ')
}

/// What is known while rewriting: the maps, the files read, the colour codes.
pub struct Ctx {
    pub maps: Seq<Seq<SpecFileLine>>,
    pub files: Seq<(Seq<char>, Option<Seq<char>>)>,
    pub red: Seq<char>,
    pub reset: Seq<char>,
}

/// The location shown for a diagnostic: line, column, and the source line when the
/// culprit token was found near the mapped line.
pub open spec fn display_loc(ctx: Ctx, mp: Seq<char>, ml: usize, col: usize, culprit: Option<Seq<char>>) -> (
    usize,
    usize,
    Option<Seq<char>>,
) {
    match culprit {
        Some(tok) => match stored(ctx.files, mp) {
            Some(t) => match culprit_from(t, ml, tok, 4, 0) {
                Some((ln, c0, text)) => (ln, sat_add(c0, 1), Some(text)),
                None => (ml, col, None),
            },
            None => (ml, col, None),
        },
        None => (ml, col, None),
    }
}

/// The source line printed in the snippet: the culprit's line, else the mapped
/// line when it is not blank, else the next non-blank line.
pub open spec fn shown_line(ctx: Ctx, mp: Seq<char>, dl: usize, dt: Option<Seq<char>>) -> Option<Seq<char>> {
    match dt {
        Some(t) => Some(t),
        None => match stored(ctx.files, mp) {
            None => None,
            Some(t) => match line_1_based(t, dl) {
                Some(l) => if trim(l).len() > 0 {
                    Some(l)
                } else {
                    match next_non_empty_from(t, dl, 4, 0) {
                        Some((_n, l2)) => Some(l2),
                        None => None,
                    }
                },
                None => match next_non_empty_from(t, dl, 4, 0) {
                    Some((_n, l2)) => Some(l2),
                    None => None,
                },
            },
        },
    }
}

/// Column where the carets go: the culprit's column in the printed line at or
/// after the reported column, else the reported column (0-based).
pub open spec fn caret_indent(printed: Seq<char>, culprit: Option<Seq<char>>, dc: usize) -> usize {
    let min = if dc == 0 { 0 } else { dc - 1 };
    match culprit {
        Some(tok) => if tok.len() == 0 {
            min as usize
        } else {
            match token_col_from(printed, tok, blen(tok), min, 0, 0) {
                Some(c) => sat_add(c, 0),
                None => min as usize,
            }
        },
        None => min as usize,
    }
}

/// The caret line rewritten, and the bytes of `after3` it consumed.
pub open spec fn caret_part(ctx: Ctx, after3: Seq<char>, printed: Seq<char>, culprit: Option<Seq<char>>, dc: usize) -> (
    Seq<char>,
    int,
) {
    match first_match(Rule::CaretLine, after3) {
        None => (Seq::empty(), 0),
        Some(km) => (
            bslice(after3, 0, crate::pattern::match_start(km)) + gtext(after3, km, 1) + spaces(
                caret_indent(printed, culprit, dc) as nat,
            ) + ctx.red + gtext(after3, km, 3) + gtext(after3, km, 4) + ctx.reset,
            crate::pattern::match_end(km),
        ),
    }
}

/// The numbered code line (showing the source line) and the caret line that
/// follow the blank pipe line, and the cursor after them.
pub open spec fn code_part(
    ctx: Ctx,
    clean: Seq<char>,
    c2: int,
    mp: Seq<char>,
    dl: usize,
    dc: usize,
    dt: Option<Seq<char>>,
    culprit: Option<Seq<char>>,
) -> (Seq<char>, int) {
    let after2 = bslice(clean, c2, blen(clean));
    match first_match(Rule::CodeLine, after2) {
        None => (Seq::empty(), c2),
        Some(cm) => {
            let printed = match shown_line(ctx, mp, dl, dt) {
                Some(t) => expand_tabs(t, 4),
                None => gtext(after2, cm, 4),
            };
            let code = bslice(after2, 0, crate::pattern::match_start(cm)) + gtext(after2, cm, 1) + decimal(dl as nat)
                + gtext(after2, cm, 3) + printed;
            let c3 = c2 + crate::pattern::match_end(cm);
            let after3 = bslice(clean, c3, blen(clean));
            let (caret, used) = caret_part(ctx, after3, printed, culprit, dc);
            (code + caret, c3 + used)
        },
    }
}

/// The snippet after a location line rewritten (blank pipe line, numbered code
/// line, caret line), and the cursor after it.
pub open spec fn snippet_part(
    ctx: Ctx,
    clean: Seq<char>,
    cursor: int,
    mp: Seq<char>,
    dl: usize,
    dc: usize,
    dt: Option<Seq<char>>,
    culprit: Option<Seq<char>>,
) -> (Seq<char>, int) {
    let after = bslice(clean, cursor, blen(clean));
    match first_match(Rule::PipeLine, after) {
        None => (Seq::empty(), cursor),
        Some(pm) => {
            let c2 = cursor + crate::pattern::match_end(pm);
            let (code, c) = code_part(ctx, clean, c2, mp, dl, dc, dt, culprit);
            (gtext(after, pm, 0) + code, c)
        },
    }
}

/// What is read off arrow match `k`: the text since the previous cursor, the
/// culprit token, the mapped path, the shown line and column, the culprit's source
/// line, and where the match ends.
pub open spec fn arrow_info(ctx: Ctx, clean: Seq<char>, ms: Seq<Seq<Option<(usize, usize)>>>, k: int, last: int) -> (
    Seq<char>,
    Option<Seq<char>>,
    Seq<char>,
    usize,
    usize,
    Option<Seq<char>>,
    int,
) {
    let m = ms[k];
    let ws = crate::pattern::match_start(m);
    let we = crate::pattern::match_end(m);
    let gen_path = gtext(clean, m, 1);
    let line = number_or_one(gtext(clean, m, 2));
    let col = number_or_one(gtext(clean, m, 3));
    let header = if last <= ws {
        bslice(clean, last, ws)
    } else {
        Seq::empty()
    };
    let next_start = if k + 1 < ms.len() {
        crate::pattern::match_start(ms[k + 1])
    } else {
        blen(clean)
    };
    let block = if ws <= next_start {
        bslice(clean, ws, next_start)
    } else {
        Seq::empty()
    };
    let culprit = match first_group1(Rule::Culprit, header) {
        Some(c) => Some(c),
        None => first_group1(Rule::Culprit, block),
    };
    let (mp, ml) = match spec_map_line(ctx.maps, gen_path, line) {
        Some((p, l)) => (p, l),
        None => (gen_path, line),
    };
    let (dl, dc, dt) = display_loc(ctx, mp, ml, col, culprit);
    (header, culprit, mp, dl, dc, dt, we)
}

/// The output for arrow match `k` (text since the previous cursor, rewritten
/// location line, rewritten snippet) and the cursor after it.
pub open spec fn arrow_part(ctx: Ctx, clean: Seq<char>, ms: Seq<Seq<Option<(usize, usize)>>>, k: int, last: int) -> (
    Seq<char>,
    int,
) {
    let (header, culprit, mp, dl, dc, dt, we) = arrow_info(ctx, clean, ms, k, last);
    let loc = ctx.red + "--> "@ + mp + ":"@ + decimal(dl as nat) + ":"@ + decimal(dc as nat) + ctx.reset;
    let (snip, cursor) = snippet_part(ctx, clean, we, mp, dl, dc, dt, culprit);
    (header + loc + snip, cursor)
}

/// The output for the first `k` arrow matches, and the cursor after them.
pub open spec fn arrows_upto(ctx: Ctx, clean: Seq<char>, ms: Seq<Seq<Option<(usize, usize)>>>, k: int) -> (
    Seq<char>,
    int,
)
    decreases k,
{
    if k <= 0 {
        (Seq::empty(), 0)
    } else {
        let (out, last) = arrows_upto(ctx, clean, ms, k - 1);
        let (piece, cursor) = arrow_part(ctx, clean, ms, k - 1, last);
        (out + piece, cursor)
    }
}

/// The rewritten diagnostics: every `--> path:line:col` location of generated code
/// is carried back to the `.tsrust` source through the line maps, aimed at the
/// back-quoted culprit token when it is found on the next lines of the source, and
/// the code snippet under it shows the source line with carets under the token.
pub open spec fn spec_rewrite_stderr(ctx: Ctx, stderr: Seq<char>) -> Seq<char> {
    let clean = rule_applied(Rule::Ansi, stderr);
    let ms = all_matches(Rule::Arrow, clean);
    let (out, last) = arrows_upto(ctx, clean, ms, ms.len() as int);
    out + if last <= blen(clean) {
        bslice(clean, last, blen(clean))
    } else {
        Seq::empty()
    }
}

pub open spec fn opt_view(o: Option<String>) -> Option<Seq<char>> {
    match o {
        Some(s) => Some(s@),
        None => None,
    }
}

proof fn lemma_suffix_boundary(bytes: Seq<u8>, c: int, e: int)
    requires
        vstd::utf8::valid_utf8(bytes),
        0 <= c <= bytes.len(),
        vstd::utf8::is_char_boundary(bytes, c),
        0 <= e <= bytes.len() - c,
        vstd::utf8::is_char_boundary(bytes.subrange(c, bytes.len() as int), e),
    ensures
        vstd::utf8::is_char_boundary(bytes, c + e),
{
    let sfx = bytes.subrange(c, bytes.len() as int);
    vstd::utf8::valid_utf8_split(bytes, c);
    if c + e == bytes.len() {
        vstd::utf8::is_char_boundary_start_end_of_seq(bytes);
    } else if e > 0 {
        assert(sfx[e] == bytes[c + e]);
        vstd::utf8::is_char_boundary_iff_not_is_continuation_byte(sfx, e);
        vstd::utf8::is_char_boundary_iff_not_is_continuation_byte(bytes, c + e);
    }
}

proof fn lemma_suffix_bytes(t: Seq<char>, c: int)
    requires
        0 <= c <= blen(t),
        vstd::utf8::is_char_boundary(vstd::utf8::encode_utf8(t), c),
    ensures
        vstd::utf8::encode_utf8(bslice(t, c, blen(t))) == vstd::utf8::encode_utf8(t).subrange(c, blen(t)),
{
    let bytes = vstd::utf8::encode_utf8(t);
    vstd::utf8::valid_utf8_split(bytes, c);
    vstd::utf8::decode_utf8_encode_utf8(bytes.subrange(c, blen(t)));
}

fn first_of(r: Rule, text: &str) -> (o: Option<Vec<Option<(usize, usize)>>>)
    ensures
        match first_match(r, text@) {
            Some(m) => o matches Some(x) && x@ == m && forall|j: int|
                0 <= j < m.len() ==> crate::pattern::span_ok(text.spec_bytes(), #[trigger] m[j]),
            None => o is None,
        },
        o matches Some(x) ==> x@.len() >= 1 && x@[0] is Some,
{
    match find_matches(r, text) {
        None => None,
        Some(ms) => {
            if ms.len() == 0 {
                return None;
            }
            let ghost sv = spans_view(ms@);
            assert(sv[0] == ms@[0]@);
            assert forall|j: int| 0 <= j < ms@[0]@.len() implies crate::pattern::span_ok(
                text.spec_bytes(),
                #[trigger] ms@[0]@[j],
            ) by {
                assert(crate::pattern::span_ok(text.spec_bytes(), sv[0][j]));
            }
            let m0 = &ms[0];
            let mut m: Vec<Option<(usize, usize)>> = Vec::new();
            let mut k: usize = 0;
            while k < m0.len()
                invariant
                    k <= m0@.len(),
                    m@ == m0@.take(k as int),
                decreases m0@.len() - k,
            {
                m.push(m0[k]);
                assert(m@ =~= m0@.take(k + 1));
                k += 1;
            }
            assert(m@ =~= m0@);
            Some(m)
        },
    }
}

fn first_group1_of(r: Rule, text: &str) -> (o: Option<String>)
    ensures
        opt_view(o) == first_group1(r, text@),
{
    match first_of(r, text) {
        None => None,
        Some(m) => {
            if m.len() > 1 {
                match m[1] {
                    Some((a, b)) => {
                        assert(crate::pattern::span_ok(text.spec_bytes(), m@[1]));
                        return Some(slice_of(text, a, b));
                    },
                    None => {},
                }
            }
            None
        },
    }
}

fn bounds_of(m: &Vec<Option<(usize, usize)>>) -> (r: (usize, usize))
    requires
        m@.len() >= 1,
        m@[0] is Some,
    ensures
        r.0 == crate::pattern::match_start(m@),
        r.1 == crate::pattern::match_end(m@),
{
    match m[0] {
        Some(p) => p,
        None => (0, 0),
    }
}

fn push_spaces(out: &mut String, n: usize)
    ensures
        final(out)@ == old(out)@ + spaces(n as nat),
{
    let mut q: usize = 0;
    while q < n
        invariant
            q <= n,
            out@ == old(out)@ + spaces(q as nat),
        decreases n - q,
    {
        push_char(out, ' ');
        assert(out@ =~= old(out)@ + spaces((q + 1) as nat));
        q += 1;
    }
}

fn caret_exec(
    ctx: Ghost<Ctx>,
    red: &str,
    reset: &str,
    after3: &String,
    printed: &String,
    culprit: &Option<String>,
    dc: usize,
    out: &mut String,
) -> (used: usize)
    requires
        ctx@.red == red@,
        ctx@.reset == reset@,
    ensures
        final(out)@ == old(out)@ + caret_part(ctx@, after3@, printed@, opt_view(*culprit), dc).0,
        used == caret_part(ctx@, after3@, printed@, opt_view(*culprit), dc).1,
        used <= blen(after3@),
        vstd::utf8::is_char_boundary(vstd::utf8::encode_utf8(after3@), used as int),
{
    proof {
        vstd::utf8::is_char_boundary_start_end_of_seq(vstd::utf8::encode_utf8(after3@));
    }
    match first_of(Rule::CaretLine, after3.as_str()) {
        None => 0,
        Some(km) => {
            let (a, b) = bounds_of(&km);
            assert(crate::pattern::span_ok(vstd::utf8::encode_utf8(after3@), km@[0]));
            let ghost start = out@;
            push_str(out, slice_of(after3.as_str(), 0, a).as_str());
            push_str(out, group_text(after3.as_str(), &km, 1).as_str());
            let min: usize = if dc == 0 { 0 } else { dc - 1 };
            let indent = match culprit {
                Some(tok) => {
                    if tok.unicode_len() == 0 {
                        min
                    } else {
                        match find_token_col_at_or_after(printed.as_str(), tok.as_str(), min) {
                            Some(c) => c,
                            None => min,
                        }
                    }
                },
                None => min,
            };
            assert(indent == caret_indent(printed@, opt_view(*culprit), dc));
            push_spaces(out, indent);
            push_str(out, red);
            push_str(out, group_text(after3.as_str(), &km, 3).as_str());
            push_str(out, group_text(after3.as_str(), &km, 4).as_str());
            push_str(out, reset);
            assert(out@ =~= start + caret_part(ctx@, after3@, printed@, opt_view(*culprit), dc).0);
            b
        },
    }
}

fn shown_line_exec(store: &FileStore, mp: &String, dl: usize, dt: &Option<String>, ctx: Ghost<Ctx>) -> (r: Option<String>)
    requires
        ctx@.files == store@,
    ensures
        opt_view(r) == shown_line(ctx@, mp@, dl, opt_view(*dt)),
{
    match dt {
        Some(t) => Some(copy_string(t)),
        None => {
            let first = read_line_1_based(store, mp, dl);
            match first {
                Some(l) => {
                    let lc = chars_of(l.as_str());
                    let (a, b) = crate::text::trim_bounds(&lc, 0, lc.len());
                    assert(lc@.subrange(0, lc@.len() as int) =~= lc@);
                    if a < b {
                        return Some(l);
                    }
                },
                None => {},
            }
            match read_next_non_empty_line(store, mp, dl, 4) {
                Some((_n, l2)) => Some(l2),
                None => None,
            }
        },
    }
}

#[verifier::spinoff_prover]
#[verifier::rlimit(60)]
fn code_exec(
    ctx: Ghost<Ctx>,
    store: &FileStore,
    red: &str,
    reset: &str,
    clean: &str,
    c2: usize,
    mp: &String,
    dl: usize,
    dc: usize,
    dt: &Option<String>,
    culprit: &Option<String>,
    out: &mut String,
) -> (c: usize)
    requires
        ctx@.red == red@,
        ctx@.reset == reset@,
        ctx@.files == store@,
        c2 <= blen(clean@),
        vstd::utf8::is_char_boundary(clean.spec_bytes(), c2 as int),
    ensures
        final(out)@ == old(out)@ + code_part(ctx@, clean@, c2 as int, mp@, dl, dc, opt_view(*dt), opt_view(*culprit)).0,
        c == code_part(ctx@, clean@, c2 as int, mp@, dl, dc, opt_view(*dt), opt_view(*culprit)).1,
        c <= blen(clean@),
        vstd::utf8::is_char_boundary(clean.spec_bytes(), c as int),
{
    let ghost bytes = clean.spec_bytes();
    let n = clean.as_bytes().len();
    proof {
        vstd::utf8::is_char_boundary_start_end_of_seq(bytes);
    }
    let after2 = slice_of(clean, c2, n);
    proof {
        lemma_suffix_bytes(clean@, c2 as int);
    }
    let ghost start = out@;
    match first_of(Rule::CodeLine, after2.as_str()) {
        None => c2,
        Some(cm) => {
            let (ca, ce) = bounds_of(&cm);
            assert(crate::pattern::span_ok(vstd::utf8::encode_utf8(after2@), cm@[0]));
            proof {
                vstd::utf8::is_char_boundary_start_end_of_seq(vstd::utf8::encode_utf8(after2@));
                lemma_suffix_boundary(bytes, c2 as int, ce as int);
            }
            push_str(out, slice_of(after2.as_str(), 0, ca).as_str());
            push_str(out, group_text(after2.as_str(), &cm, 1).as_str());
            push_decimal(out, dl as u128);
            push_str(out, group_text(after2.as_str(), &cm, 3).as_str());
            let printed = match shown_line_exec(store, mp, dl, dt, ctx) {
                Some(t) => expand_tabs_to_cols(t.as_str(), 4),
                None => group_text(after2.as_str(), &cm, 4),
            };
            push_str(out, printed.as_str());
            let c3 = c2 + ce;
            let after3 = slice_of(clean, c3, n);
            proof {
                lemma_suffix_bytes(clean@, c3 as int);
            }
            let used = caret_exec(ctx, red, reset, &after3, &printed, culprit, dc, out);
            proof {
                lemma_suffix_boundary(bytes, c3 as int, used as int);
            }
            assert(out@ =~= start + code_part(ctx@, clean@, c2 as int, mp@, dl, dc, opt_view(*dt), opt_view(*culprit)).0);
            c3 + used
        },
    }
}

fn snippet_exec(
    ctx: Ghost<Ctx>,
    store: &FileStore,
    red: &str,
    reset: &str,
    clean: &str,
    cursor: usize,
    mp: &String,
    dl: usize,
    dc: usize,
    dt: &Option<String>,
    culprit: &Option<String>,
    out: &mut String,
) -> (c: usize)
    requires
        ctx@.red == red@,
        ctx@.reset == reset@,
        ctx@.files == store@,
        cursor <= blen(clean@),
        vstd::utf8::is_char_boundary(clean.spec_bytes(), cursor as int),
    ensures
        final(out)@ == old(out)@ + snippet_part(ctx@, clean@, cursor as int, mp@, dl, dc, opt_view(*dt), opt_view(*culprit)).0,
        c == snippet_part(ctx@, clean@, cursor as int, mp@, dl, dc, opt_view(*dt), opt_view(*culprit)).1,
        c <= blen(clean@),
        vstd::utf8::is_char_boundary(clean.spec_bytes(), c as int),
{
    let ghost bytes = clean.spec_bytes();
    let n = clean.as_bytes().len();
    proof {
        vstd::utf8::is_char_boundary_start_end_of_seq(bytes);
    }
    let after = slice_of(clean, cursor, n);
    proof {
        lemma_suffix_bytes(clean@, cursor as int);
    }
    let ghost start = out@;
    match first_of(Rule::PipeLine, after.as_str()) {
        None => cursor,
        Some(pm) => {
            let (_pa, pe) = bounds_of(&pm);
            assert(crate::pattern::span_ok(vstd::utf8::encode_utf8(after@), pm@[0]));
            proof {
                lemma_suffix_boundary(bytes, cursor as int, pe as int);
            }
            let head = group_text(after.as_str(), &pm, 0);
            push_str(out, head.as_str());
            let c2 = cursor + pe;
            let c = code_exec(ctx, store, red, reset, clean, c2, mp, dl, dc, dt, culprit, out);
            assert(out@ =~= start + snippet_part(ctx@, clean@, cursor as int, mp@, dl, dc, opt_view(*dt), opt_view(*culprit)).0);
            c
        },
    }
}

pub open spec fn ctx_of(maps: Seq<CrateLineMap>, store: Seq<(Seq<char>, Option<Seq<char>>)>, red: Seq<char>, reset: Seq<char>) -> Ctx {
    Ctx { maps: maps_view(maps), files: store, red, reset }
}

fn arrow_info_exec(
    ctx: Ghost<Ctx>,
    maps: &Vec<CrateLineMap>,
    store: &FileStore,
    clean: &str,
    ms: &Vec<Vec<Option<(usize, usize)>>>,
    k: usize,
    last: usize,
) -> (r: (String, Option<String>, String, usize, usize, Option<String>, usize))
    requires
        ctx@.maps == maps_view(maps@),
        ctx@.files == store@,
        spans_ok(spans_view(ms@), clean.spec_bytes()),
        k < ms@.len(),
        last <= blen(clean@),
        vstd::utf8::is_char_boundary(clean.spec_bytes(), last as int),
    ensures
        (r.0@, opt_view(r.1), r.2@, r.3, r.4, opt_view(r.5), r.6 as int) == arrow_info(
            ctx@,
            clean@,
            spans_view(ms@),
            k as int,
            last as int,
        ),
        r.6 <= blen(clean@),
        vstd::utf8::is_char_boundary(clean.spec_bytes(), r.6 as int),
{
    let ghost sv = spans_view(ms@);
    let ghost bytes = clean.spec_bytes();
    let n = clean.as_bytes().len();
    let m = &ms[k];
    assert(sv[k as int] == m@);
    assert forall|j: int| 0 <= j < m@.len() implies crate::pattern::span_ok(bytes, #[trigger] m@[j]) by {
        assert(crate::pattern::span_ok(bytes, sv[k as int][j]));
    }
    let (ws, we) = bounds_of(m);
    let gen_path = group_text(clean, m, 1);
    let line = parse_or_one(&group_text(clean, m, 2));
    let col = parse_or_one(&group_text(clean, m, 3));
    let header = if last <= ws { slice_of(clean, last, ws) } else { String::new() };
    let next_start = if k < ms.len() - 1 {
        assert(sv[k + 1] == ms@[k + 1]@);
        assert(crate::pattern::span_ok(bytes, sv[k + 1][0]));
        let (a, _b) = bounds_of(&ms[k + 1]);
        a
    } else {
        proof {
            vstd::utf8::is_char_boundary_start_end_of_seq(bytes);
        }
        n
    };
    let block = if ws <= next_start { slice_of(clean, ws, next_start) } else { String::new() };
    let culprit = match first_group1_of(Rule::Culprit, header.as_str()) {
        Some(c) => Some(c),
        None => first_group1_of(Rule::Culprit, block.as_str()),
    };
    let (mp, ml) = match map_line(maps, gen_path.as_str(), line) {
        Some(x) => x,
        None => (copy_string(&gen_path), line),
    };
    let (dl, dc, dt) = match &culprit {
        Some(tok) => match find_culprit_ahead(store, &mp, ml, tok.as_str(), 4) {
            Some((ln, c0, text)) => (ln, if c0 < usize::MAX { c0 + 1 } else { usize::MAX }, Some(text)),
            None => (ml, col, None),
        },
        None => (ml, col, None),
    };
    (header, culprit, mp, dl, dc, dt, we)
}

#[verifier::spinoff_prover]
fn arrow_exec(
    ctx: Ghost<Ctx>,
    maps: &Vec<CrateLineMap>,
    store: &FileStore,
    red: &str,
    reset: &str,
    clean: &str,
    ms: &Vec<Vec<Option<(usize, usize)>>>,
    k: usize,
    last: usize,
    out: &mut String,
) -> (c: usize)
    requires
        ctx@ == ctx_of(maps@, store@, red@, reset@),
        spans_ok(spans_view(ms@), clean.spec_bytes()),
        k < ms@.len(),
        last <= blen(clean@),
        vstd::utf8::is_char_boundary(clean.spec_bytes(), last as int),
    ensures
        final(out)@ == old(out)@ + arrow_part(ctx@, clean@, spans_view(ms@), k as int, last as int).0,
        c == arrow_part(ctx@, clean@, spans_view(ms@), k as int, last as int).1,
        c <= blen(clean@),
        vstd::utf8::is_char_boundary(clean.spec_bytes(), c as int),
{
    let (header, culprit, mp, dl, dc, dt, we) = arrow_info_exec(ctx, maps, store, clean, ms, k, last);
    let ghost start = out@;
    push_str(out, header.as_str());
    push_str(out, red);
    push_str(out, "--> ");
    push_str(out, mp.as_str());
    push_str(out, ":");
    push_decimal(out, dl as u128);
    push_str(out, ":");
    push_decimal(out, dc as u128);
    push_str(out, reset);
    let ghost mid = out@;
    let c = snippet_exec(ctx, store, red, reset, clean, we, &mp, dl, dc, &dt, &culprit, out);
    assert(mid =~= start + header@ + (red@ + "--> "@ + mp@ + ":"@ + decimal(dl as nat) + ":"@ + decimal(dc as nat) + reset@));
    assert(out@ =~= start + arrow_part(ctx@, clean@, spans_view(ms@), k as int, last as int).0);
    c
}

/// Rewrites rustc diagnostics (see `spec_rewrite_stderr`). `maps` are the line
/// maps found, `store` the source files read, `red`/`reset` the colour codes to
/// put around rewritten locations and carets (empty for no colour).
#[verifier::spinoff_prover]
#[verifier::rlimit(60)]
pub fn rewrite_stderr(stderr: &str, maps: &Vec<CrateLineMap>, store: &FileStore, red: &str, reset: &str) -> (r: String)
    ensures
        r@ == spec_rewrite_stderr(ctx_of(maps@, store@, red@, reset@), stderr@),
{
    let ghost ctx = ctx_of(maps@, store@, red@, reset@);
    let clean = strip_ansi(stderr);
    let ghost bytes = vstd::utf8::encode_utf8(clean@);
    let n = clean.as_str().as_bytes().len();
    proof {
        vstd::utf8::is_char_boundary_start_end_of_seq(bytes);
    }
    let ms: Vec<Vec<Option<(usize, usize)>>> = match find_matches(Rule::Arrow, clean.as_str()) {
        Some(v) => v,
        None => Vec::new(),
    };
    let ghost sv = spans_view(ms@);
    assert(sv == all_matches(Rule::Arrow, clean@)) by {
        if regex_captures(rule_pattern(Rule::Arrow), clean@) is None {
            assert(sv =~= Seq::<Seq<Option<(usize, usize)>>>::empty());
        }
    }
    assert(spans_ok(sv, bytes)) by {
        if regex_captures(rule_pattern(Rule::Arrow), clean@) is None {
            assert(sv =~= Seq::<Seq<Option<(usize, usize)>>>::empty());
        }
    }
    let mut out = String::new();
    let mut last: usize = 0;
    let mut k: usize = 0;
    while k < ms.len()
        invariant
            k <= ms@.len(),
            sv == spans_view(ms@),
            spans_ok(sv, bytes),
            bytes == vstd::utf8::encode_utf8(clean@),
            ctx == ctx_of(maps@, store@, red@, reset@),
            last <= blen(clean@),
            vstd::utf8::is_char_boundary(bytes, last as int),
            (out@, last as int) == arrows_upto(ctx, clean@, sv, k as int),
        decreases ms@.len() - k,
    {
        let c = arrow_exec(Ghost(ctx), maps, store, red, reset, clean.as_str(), &ms, k, last, &mut out);
        last = c;
        k += 1;
    }
    let tail = if last <= n { slice_of(clean.as_str(), last, n) } else { String::new() };
    push_str(&mut out, tail.as_str());
    out
}

/// The paths whose text the rewrite may show: the source files of the maps and
/// the paths of the diagnostics' locations.
pub fn files_to_read(stderr: &str, maps: &Vec<CrateLineMap>) -> (r: Vec<String>)
    ensures
        forall|i: int, j: int|
            0 <= i < maps@.len() && 0 <= j < maps@[i]@.len() ==> strings_view(r@).contains(#[trigger] maps@[i]@[j].src_file),
        match regex_captures(rule_pattern(Rule::Arrow), rule_applied(Rule::Ansi, stderr@)) {
            Some(ms) => forall|k: int|
                0 <= k < ms.len() ==> strings_view(r@).contains(
                    #[trigger] gtext(rule_applied(Rule::Ansi, stderr@), ms[k], 1),
                ),
            None => true,
        },
{
    let mut out: Vec<String> = Vec::new();
    let mut i: usize = 0;
    while i < maps.len()
        invariant
            i <= maps@.len(),
            forall|a: int, b: int|
                0 <= a < i && 0 <= b < maps@[a]@.len() ==> strings_view(out@).contains(#[trigger] maps@[a]@[b].src_file),
        decreases maps@.len() - i,
    {
        let mut j: usize = 0;
        while j < maps[i].files.len()
            invariant
                i < maps@.len(),
                j <= maps@[i as int].files@.len(),
                forall|a: int, b: int|
                    0 <= a < i && 0 <= b < maps@[a]@.len() ==> strings_view(out@).contains(#[trigger] maps@[a]@[b].src_file),
                forall|b: int| 0 <= b < j ==> strings_view(out@).contains(#[trigger] maps@[i as int]@[b].src_file),
            decreases maps@[i as int].files@.len() - j,
        {
            let ghost before = strings_view(out@);
            out.push(copy_string(&maps[i].files[j].src_file));
            assert(strings_view(out@) =~= before.push(maps@[i as int]@[j as int].src_file));
            assert forall|x: Seq<char>| before.contains(x) implies strings_view(out@).contains(x) by {
                let q = choose|q: int| 0 <= q < before.len() && before[q] == x;
                assert(strings_view(out@)[q] == x);
            }
            assert(strings_view(out@)[before.len() as int] == maps@[i as int]@[j as int].src_file);
            j += 1;
        }
        i += 1;
    }
    let clean = strip_ansi(stderr);
    match find_matches(Rule::Arrow, clean.as_str()) {
        Some(ms) => {
            let mut k: usize = 0;
            while k < ms.len()
                invariant
                    k <= ms@.len(),
                    spans_ok(spans_view(ms@), vstd::utf8::encode_utf8(clean@)),
                    forall|a: int, b: int|
                        0 <= a < maps@.len() && 0 <= b < maps@[a]@.len() ==> strings_view(out@).contains(#[trigger] maps@[a]@[b].src_file),
                    forall|q: int|
                        0 <= q < k ==> strings_view(out@).contains(#[trigger] gtext(clean@, spans_view(ms@)[q], 1)),
                decreases ms@.len() - k,
            {
                assert(spans_view(ms@)[k as int] == ms@[k as int]@);
                assert forall|j: int| 0 <= j < ms@[k as int]@.len() implies crate::pattern::span_ok(
                    vstd::utf8::encode_utf8(clean@),
                    #[trigger] ms@[k as int]@[j],
                ) by {
                    assert(crate::pattern::span_ok(vstd::utf8::encode_utf8(clean@), spans_view(ms@)[k as int][j]));
                }
                let ghost before = strings_view(out@);
                let g = group_text(clean.as_str(), &ms[k], 1);
                let ghost gv = g@;
                out.push(g);
                assert forall|x: Seq<char>| before.contains(x) implies strings_view(out@).contains(x) by {
                    let q = choose|q: int| 0 <= q < before.len() && before[q] == x;
                    assert(strings_view(out@)[q] == x);
                }
                assert(strings_view(out@)[before.len() as int] == gv);
                assert(gv == gtext(clean@, spans_view(ms@)[k as int], 1));
                k += 1;
            }
        },
        None => {},
    }
    out
}

// ----- the simpler rewrite of the one-shot compiler -----

/// The code line and kept caret line of the one-shot compiler's snippet, and the
/// cursor after them.
pub open spec fn app_code(ctx: Ctx, clean: Seq<char>, c2: int, mp: Seq<char>, ml: usize) -> (Seq<char>, int) {
    let after2 = bslice(clean, c2, blen(clean));
    match first_match(Rule::CodeLine, after2) {
        None => (Seq::empty(), c2),
        Some(cm) => {
            let printed = match stored(ctx.files, mp) {
                Some(t) => match line_1_based(t, ml) {
                    Some(l) => expand_tabs(l, 4),
                    None => gtext(after2, cm, 4),
                },
                None => gtext(after2, cm, 4),
            };
            let code = bslice(after2, 0, crate::pattern::match_start(cm)) + gtext(after2, cm, 1) + decimal(ml as nat)
                + gtext(after2, cm, 3) + printed;
            let c3 = c2 + crate::pattern::match_end(cm);
            let after3 = bslice(clean, c3, blen(clean));
            match first_match(Rule::CaretLine, after3) {
                None => (code, c3),
                Some(km) => (code + bslice(after3, 0, crate::pattern::match_end(km)), c3 + crate::pattern::match_end(km)),
            }
        },
    }
}

/// The snippet as the one-shot compiler rewrites it: the code line shows the
/// mapped line of the source (tabs expanded) and the caret line is kept.
pub open spec fn app_snippet(ctx: Ctx, clean: Seq<char>, cursor: int, mp: Seq<char>, ml: usize) -> (Seq<char>, int) {
    let after = bslice(clean, cursor, blen(clean));
    match first_match(Rule::PipeLine, after) {
        None => (Seq::empty(), cursor),
        Some(pm) => {
            let c2 = cursor + crate::pattern::match_end(pm);
            let (code, c) = app_code(ctx, clean, c2, mp, ml);
            (gtext(after, pm, 0) + code, c)
        },
    }
}

/// What is read off arrow match `k` by the one-shot compiler: the text since the
/// previous cursor, the mapped path and line, the column, where the match ends.
pub open spec fn app_arrow_info(ctx: Ctx, clean: Seq<char>, ms: Seq<Seq<Option<(usize, usize)>>>, k: int, last: int) -> (
    Seq<char>,
    Seq<char>,
    usize,
    usize,
    int,
) {
    let m = ms[k];
    let ws = crate::pattern::match_start(m);
    let gen_path = gtext(clean, m, 1);
    let line = number_or_one(gtext(clean, m, 2));
    let col = number_or_one(gtext(clean, m, 3));
    let header = if last <= ws {
        bslice(clean, last, ws)
    } else {
        Seq::empty()
    };
    let (mp, ml) = match spec_map_line(ctx.maps, gen_path, line) {
        Some((p, l)) => (p, l),
        None => (gen_path, line),
    };
    (header, mp, ml, col, crate::pattern::match_end(m))
}

pub open spec fn app_arrow_part(ctx: Ctx, clean: Seq<char>, ms: Seq<Seq<Option<(usize, usize)>>>, k: int, last: int) -> (
    Seq<char>,
    int,
) {
    let (header, mp, ml, col, we) = app_arrow_info(ctx, clean, ms, k, last);
    let loc = "--> "@ + mp + ":"@ + decimal(ml as nat) + ":"@ + decimal(col as nat);
    let (snip, cursor) = app_snippet(ctx, clean, we, mp, ml);
    (header + loc + snip, cursor)
}

pub open spec fn app_arrows_upto(ctx: Ctx, clean: Seq<char>, ms: Seq<Seq<Option<(usize, usize)>>>, k: int) -> (
    Seq<char>,
    int,
)
    decreases k,
{
    if k <= 0 {
        (Seq::empty(), 0)
    } else {
        let (out, last) = app_arrows_upto(ctx, clean, ms, k - 1);
        let (piece, cursor) = app_arrow_part(ctx, clean, ms, k - 1, last);
        (out + piece, cursor)
    }
}

/// The one-shot compiler's rewrite: nothing changes without line maps; otherwise
/// each location is mapped back and the snippet shows the mapped source line.
pub open spec fn spec_rewrite_stderr_for_app(ctx: Ctx, stderr: Seq<char>) -> Seq<char> {
    if ctx.maps.len() == 0 {
        stderr
    } else {
        let clean = rule_applied(Rule::Ansi, stderr);
        let ms = all_matches(Rule::Arrow, clean);
        let (out, last) = app_arrows_upto(ctx, clean, ms, ms.len() as int);
        out + if last <= blen(clean) {
            bslice(clean, last, blen(clean))
        } else {
            Seq::empty()
        }
    }
}

#[verifier::spinoff_prover]
#[verifier::rlimit(60)]
fn app_code_exec(
    ctx: Ghost<Ctx>,
    store: &FileStore,
    clean: &str,
    c2: usize,
    mp: &String,
    ml: usize,
    out: &mut String,
) -> (c: usize)
    requires
        ctx@.files == store@,
        c2 <= blen(clean@),
        vstd::utf8::is_char_boundary(clean.spec_bytes(), c2 as int),
    ensures
        final(out)@ == old(out)@ + app_code(ctx@, clean@, c2 as int, mp@, ml).0,
        c == app_code(ctx@, clean@, c2 as int, mp@, ml).1,
        c <= blen(clean@),
        vstd::utf8::is_char_boundary(clean.spec_bytes(), c as int),
{
    let ghost bytes = clean.spec_bytes();
    let n = clean.as_bytes().len();
    proof {
        vstd::utf8::is_char_boundary_start_end_of_seq(bytes);
    }
    let after2 = slice_of(clean, c2, n);
    proof {
        lemma_suffix_bytes(clean@, c2 as int);
    }
    let ghost start = out@;
    match first_of(Rule::CodeLine, after2.as_str()) {
        None => c2,
        Some(cm) => {
            let (ca, ce) = bounds_of(&cm);
            assert(crate::pattern::span_ok(vstd::utf8::encode_utf8(after2@), cm@[0]));
            proof {
                vstd::utf8::is_char_boundary_start_end_of_seq(vstd::utf8::encode_utf8(after2@));
                lemma_suffix_boundary(bytes, c2 as int, ce as int);
            }
            push_str(out, slice_of(after2.as_str(), 0, ca).as_str());
            push_str(out, group_text(after2.as_str(), &cm, 1).as_str());
            push_decimal(out, ml as u128);
            push_str(out, group_text(after2.as_str(), &cm, 3).as_str());
            let printed = match read_line_1_based(store, mp, ml) {
                Some(l) => expand_tabs_to_cols(l.as_str(), 4),
                None => group_text(after2.as_str(), &cm, 4),
            };
            push_str(out, printed.as_str());
            let c3 = c2 + ce;
            let after3 = slice_of(clean, c3, n);
            proof {
                lemma_suffix_bytes(clean@, c3 as int);
                vstd::utf8::is_char_boundary_start_end_of_seq(vstd::utf8::encode_utf8(after3@));
            }
            match first_of(Rule::CaretLine, after3.as_str()) {
                None => {
                    assert(out@ =~= start + app_code(ctx@, clean@, c2 as int, mp@, ml).0);
                    c3
                },
                Some(km) => {
                    let (_ka, ke) = bounds_of(&km);
                    assert(crate::pattern::span_ok(vstd::utf8::encode_utf8(after3@), km@[0]));
                    proof {
                        lemma_suffix_boundary(bytes, c3 as int, ke as int);
                    }
                    push_str(out, slice_of(after3.as_str(), 0, ke).as_str());
                    assert(out@ =~= start + app_code(ctx@, clean@, c2 as int, mp@, ml).0);
                    c3 + ke
                },
            }
        },
    }
}

fn app_snippet_exec(
    ctx: Ghost<Ctx>,
    store: &FileStore,
    clean: &str,
    cursor: usize,
    mp: &String,
    ml: usize,
    out: &mut String,
) -> (c: usize)
    requires
        ctx@.files == store@,
        cursor <= blen(clean@),
        vstd::utf8::is_char_boundary(clean.spec_bytes(), cursor as int),
    ensures
        final(out)@ == old(out)@ + app_snippet(ctx@, clean@, cursor as int, mp@, ml).0,
        c == app_snippet(ctx@, clean@, cursor as int, mp@, ml).1,
        c <= blen(clean@),
        vstd::utf8::is_char_boundary(clean.spec_bytes(), c as int),
{
    let ghost bytes = clean.spec_bytes();
    let n = clean.as_bytes().len();
    proof {
        vstd::utf8::is_char_boundary_start_end_of_seq(bytes);
    }
    let after = slice_of(clean, cursor, n);
    proof {
        lemma_suffix_bytes(clean@, cursor as int);
    }
    let ghost start = out@;
    match first_of(Rule::PipeLine, after.as_str()) {
        None => cursor,
        Some(pm) => {
            let (_pa, pe) = bounds_of(&pm);
            assert(crate::pattern::span_ok(vstd::utf8::encode_utf8(after@), pm@[0]));
            proof {
                lemma_suffix_boundary(bytes, cursor as int, pe as int);
            }
            push_str(out, group_text(after.as_str(), &pm, 0).as_str());
            let c = app_code_exec(ctx, store, clean, cursor + pe, mp, ml, out);
            assert(out@ =~= start + app_snippet(ctx@, clean@, cursor as int, mp@, ml).0);
            c
        },
    }
}

fn app_arrow_info_exec(
    ctx: Ghost<Ctx>,
    maps: &Vec<CrateLineMap>,
    clean: &str,
    ms: &Vec<Vec<Option<(usize, usize)>>>,
    k: usize,
    last: usize,
) -> (r: (String, String, usize, usize, usize))
    requires
        ctx@.maps == maps_view(maps@),
        spans_ok(spans_view(ms@), clean.spec_bytes()),
        k < ms@.len(),
        last <= blen(clean@),
        vstd::utf8::is_char_boundary(clean.spec_bytes(), last as int),
    ensures
        (r.0@, r.1@, r.2, r.3, r.4 as int) == app_arrow_info(ctx@, clean@, spans_view(ms@), k as int, last as int),
        r.4 <= blen(clean@),
        vstd::utf8::is_char_boundary(clean.spec_bytes(), r.4 as int),
{
    let ghost sv = spans_view(ms@);
    let ghost bytes = clean.spec_bytes();
    let m = &ms[k];
    assert(sv[k as int] == m@);
    assert forall|j: int| 0 <= j < m@.len() implies crate::pattern::span_ok(bytes, #[trigger] m@[j]) by {
        assert(crate::pattern::span_ok(bytes, sv[k as int][j]));
    }
    let (ws, we) = bounds_of(m);
    let gen_path = group_text(clean, m, 1);
    let line = parse_or_one(&group_text(clean, m, 2));
    let col = parse_or_one(&group_text(clean, m, 3));
    let header = if last <= ws { slice_of(clean, last, ws) } else { String::new() };
    let (mp, ml) = match map_line(maps, gen_path.as_str(), line) {
        Some(x) => x,
        None => (copy_string(&gen_path), line),
    };
    (header, mp, ml, col, we)
}

#[verifier::spinoff_prover]
fn app_arrow_exec(
    ctx: Ghost<Ctx>,
    maps: &Vec<CrateLineMap>,
    store: &FileStore,
    clean: &str,
    ms: &Vec<Vec<Option<(usize, usize)>>>,
    k: usize,
    last: usize,
    out: &mut String,
) -> (c: usize)
    requires
        ctx@.maps == maps_view(maps@),
        ctx@.files == store@,
        spans_ok(spans_view(ms@), clean.spec_bytes()),
        k < ms@.len(),
        last <= blen(clean@),
        vstd::utf8::is_char_boundary(clean.spec_bytes(), last as int),
    ensures
        final(out)@ == old(out)@ + app_arrow_part(ctx@, clean@, spans_view(ms@), k as int, last as int).0,
        c == app_arrow_part(ctx@, clean@, spans_view(ms@), k as int, last as int).1,
        c <= blen(clean@),
        vstd::utf8::is_char_boundary(clean.spec_bytes(), c as int),
{
    let (header, mp, ml, col, we) = app_arrow_info_exec(ctx, maps, clean, ms, k, last);
    let ghost start = out@;
    push_str(out, header.as_str());
    push_str(out, "--> ");
    push_str(out, mp.as_str());
    push_str(out, ":");
    push_decimal(out, ml as u128);
    push_str(out, ":");
    push_decimal(out, col as u128);
    let ghost mid = out@;
    let c = app_snippet_exec(ctx, store, clean, we, &mp, ml, out);
    assert(mid =~= start + header@ + ("--> "@ + mp@ + ":"@ + decimal(ml as nat) + ":"@ + decimal(col as nat)));
    assert(out@ =~= start + app_arrow_part(ctx@, clean@, spans_view(ms@), k as int, last as int).0);
    c
}

/// The one-shot compiler's rewrite of rustc diagnostics (see
/// `spec_rewrite_stderr_for_app`).
#[verifier::spinoff_prover]
pub fn rewrite_stderr_for_app(stderr: &str, maps: &Vec<CrateLineMap>, store: &FileStore) -> (r: String)
    ensures
        r@ == spec_rewrite_stderr_for_app(ctx_of(maps@, store@, Seq::empty(), Seq::empty()), stderr@),
{
    let ghost ctx = ctx_of(maps@, store@, Seq::empty(), Seq::empty());
    if maps.len() == 0 {
        return copy_string(&{
            let mut s = String::new();
            push_str(&mut s, stderr);
            s
        });
    }
    let clean = strip_ansi(stderr);
    let ghost bytes = vstd::utf8::encode_utf8(clean@);
    let n = clean.as_str().as_bytes().len();
    proof {
        vstd::utf8::is_char_boundary_start_end_of_seq(bytes);
    }
    let ms: Vec<Vec<Option<(usize, usize)>>> = match find_matches(Rule::Arrow, clean.as_str()) {
        Some(v) => v,
        None => Vec::new(),
    };
    let ghost sv = spans_view(ms@);
    assert(sv == all_matches(Rule::Arrow, clean@) && spans_ok(sv, bytes)) by {
        if regex_captures(rule_pattern(Rule::Arrow), clean@) is None {
            assert(sv =~= Seq::<Seq<Option<(usize, usize)>>>::empty());
        }
    }
    let mut out = String::new();
    let mut last: usize = 0;
    let mut k: usize = 0;
    while k < ms.len()
        invariant
            k <= ms@.len(),
            sv == spans_view(ms@),
            spans_ok(sv, bytes),
            bytes == vstd::utf8::encode_utf8(clean@),
            ctx == ctx_of(maps@, store@, Seq::empty(), Seq::empty()),
            last <= blen(clean@),
            vstd::utf8::is_char_boundary(bytes, last as int),
            (out@, last as int) == app_arrows_upto(ctx, clean@, sv, k as int),
        decreases ms@.len() - k,
    {
        let c = app_arrow_exec(Ghost(ctx), maps, store, clean.as_str(), &ms, k, last, &mut out);
        last = c;
        k += 1;
    }
    let tail = if last <= n { slice_of(clean.as_str(), last, n) } else { String::new() };
    push_str(&mut out, tail.as_str());
    out
}

} // verus!
