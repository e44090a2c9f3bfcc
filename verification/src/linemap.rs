//! Line maps between `.tsrust` sources and the Rust generated from them, and the
//! lookups that carry a generated location back to its source.
use vstd::prelude::*;
use vstd::string::*;
use crate::pattern::{Rule, find_matches, gtext, match_start, regex_captures, rule_pattern, slice_of, spans_ok, spans_view};
use crate::text::{chars_of, find_from, find_lit, lemma_find_from, push_char, starts_at};

verus! {

broadcast use vstd::utf8::group_utf8_lib;

/// Where a function starts in the source and in the generated file (1-based lines).
#[derive(Debug, Clone)]
pub struct FnLineMap {
    pub name: String,
    pub src_start: usize,
    pub gen_start: usize,
}

/// The functions of one generated file and the source it came from.
#[derive(Debug, Clone)]
pub struct FileLineMap {
    pub gen_file: String,
    pub src_file: String,
    pub fns: Vec<FnLineMap>,
}

/// The line maps of one crate.
#[derive(Debug, Clone)]
pub struct CrateLineMap {
    pub files: Vec<FileLineMap>,
}

pub struct SpecFnLine {
    pub name: Seq<char>,
    pub src_start: usize,
    pub gen_start: usize,
}

pub struct SpecFileLine {
    pub gen_file: Seq<char>,
    pub src_file: Seq<char>,
    pub fns: Seq<SpecFnLine>,
}

impl View for FnLineMap {
    type V = SpecFnLine;

    open spec fn view(&self) -> SpecFnLine {
        SpecFnLine { name: self.name@, src_start: self.src_start, gen_start: self.gen_start }
    }
}

impl View for FileLineMap {
    type V = SpecFileLine;

    open spec fn view(&self) -> SpecFileLine {
        SpecFileLine {
            gen_file: self.gen_file@,
            src_file: self.src_file@,
            fns: self.fns@.map_values(|f: FnLineMap| f@),
        }
    }
}

impl View for CrateLineMap {
    type V = Seq<SpecFileLine>;

    open spec fn view(&self) -> Seq<SpecFileLine> {
        self.files@.map_values(|f: FileLineMap| f@)
    }
}

pub open spec fn maps_view(v: Seq<CrateLineMap>) -> Seq<Seq<SpecFileLine>> {
    v.map_values(|m: CrateLineMap| m@)
}

/// The number of line feeds in `s`.
pub open spec fn count_nl(s: Seq<char>) -> nat
    decreases s.len(),
{
    if s.len() == 0 {
        0
    } else {
        count_nl(s.drop_last()) + if s.last() == '\n' {
            1nat
        } else {
            0nat
        }
    }
}

/// `a + b`, or `usize::MAX` when that does not fit.
pub open spec fn sat_add(a: int, b: int) -> usize {
    if a + b > usize::MAX {
        usize::MAX
    } else {
        (a + b) as usize
    }
}

/// The 1-based line of byte offset `start` in `t`.
pub open spec fn line_at(t: Seq<char>, start: int) -> usize {
    sat_add(count_nl(crate::pattern::bslice(t, 0, start)) as int, 1)
}

/// For each match of rule `r` in `t`: the name in group 1 and the line where the match starts.
pub open spec fn spec_fn_starts(r: Rule, t: Seq<char>) -> Seq<(Seq<char>, usize)> {
    match regex_captures(rule_pattern(r), t) {
        None => Seq::empty(),
        Some(ms) => ms.map_values(|m: Seq<Option<(usize, usize)>>| (gtext(t, m, 1), line_at(t, match_start(m)))),
    }
}

pub open spec fn pairs_view(v: Seq<(String, usize)>) -> Seq<(Seq<char>, usize)> {
    v.map_values(|p: (String, usize)| (p.0@, p.1))
}

fn count_newlines(s: &String) -> (n: usize)
    ensures
        n == count_nl(s@),
{
    let v = chars_of(s.as_str());
    let mut n: usize = 0;
    let mut k: usize = 0;
    while k < v.len()
        invariant
            k <= v@.len(),
            v@ == s@,
            n == count_nl(v@.take(k as int)),
            n <= k,
        decreases v@.len() - k,
    {
        assert(v@.take(k + 1).drop_last() =~= v@.take(k as int));
        if v[k] == '\n' {
            n += 1;
        }
        k += 1;
    }
    assert(v@.take(k as int) =~= v@);
    n
}

fn fn_starts(r: Rule, text: &str) -> (out: Vec<(String, usize)>)
    ensures
        pairs_view(out@) == spec_fn_starts(r, text@),
{
    let mut out: Vec<(String, usize)> = Vec::new();
    match find_matches(r, text) {
        None => {
            assert(pairs_view(out@) =~= Seq::<(Seq<char>, usize)>::empty());
            out
        },
        Some(ms) => {
            let ghost sv = spans_view(ms@);
            let mut k: usize = 0;
            while k < ms.len()
                invariant
                    k <= ms@.len(),
                    sv == spans_view(ms@),
                    spans_ok(sv, text.spec_bytes()),
                    pairs_view(out@) == sv.take(k as int).map_values(
                        |m: Seq<Option<(usize, usize)>>| (gtext(text@, m, 1), line_at(text@, match_start(m))),
                    ),
                decreases ms@.len() - k,
            {
                let m = &ms[k];
                assert(sv[k as int] == m@);
                assert(m@.len() >= 1 && m@[0] is Some);
                let (a, _b) = match m[0] {
                    Some(p) => p,
                    None => (0, 0),
                };
                assert(crate::pattern::span_ok(text.spec_bytes(), sv[k as int][0]));
                proof {
                    vstd::utf8::is_char_boundary_start_end_of_seq(text.spec_bytes());
                }
                let name = if m.len() > 1 {
                    match m[1] {
                        Some((x, y)) => {
                            assert(crate::pattern::span_ok(text.spec_bytes(), sv[k as int][1]));
                            slice_of(text, x, y)
                        },
                        None => String::new(),
                    }
                } else {
                    String::new()
                };
                let prefix = slice_of(text, 0, a);
                let c = count_newlines(&prefix);
                let line = if c < usize::MAX { c + 1 } else { usize::MAX };
                let ghost before = pairs_view(out@);
                let ghost item = (name@, line);
                out.push((name, line));
                assert(pairs_view(out@) =~= before.push(item));
                assert(item == (gtext(text@, m@, 1), line_at(text@, match_start(m@))));
                assert(sv.take(k + 1) =~= sv.take(k as int).push(m@));
                assert(sv.take(k + 1).map_values(
                    |m: Seq<Option<(usize, usize)>>| (gtext(text@, m, 1), line_at(text@, match_start(m))),
                ) =~= sv.take(k as int).map_values(
                    |m: Seq<Option<(usize, usize)>>| (gtext(text@, m, 1), line_at(text@, match_start(m))),
                ).push(item));
                k += 1;
            }
            assert(sv.take(k as int) =~= sv);
            out
        },
    }
}

/// `function name(` and `export function name(` lines of a `.tsrust` source, with their lines.
pub fn find_fn_starts_src(src_text: &str) -> (out: Vec<(String, usize)>)
    ensures
        pairs_view(out@) == spec_fn_starts(Rule::FnStartSrc, src_text@),
{
    fn_starts(Rule::FnStartSrc, src_text)
}

/// `fn name(` and `pub fn name(` lines of generated Rust, with their lines.
pub fn find_fn_starts_gen(gen_text: &str) -> (out: Vec<(String, usize)>)
    ensures
        pairs_view(out@) == spec_fn_starts(Rule::FnStartGen, gen_text@),
{
    fn_starts(Rule::FnStartGen, gen_text)
}

/// Index of the first entry of `g` named `name`.
pub open spec fn first_named(g: Seq<(Seq<char>, usize)>, name: Seq<char>) -> Option<int>
    decreases g.len(),
{
    if g.len() == 0 {
        None
    } else if g[0].0 == name {
        Some(0)
    } else {
        match first_named(g.drop_first(), name) {
            Some(i) => Some(i + 1),
            None => None,
        }
    }
}

pub proof fn lemma_first_named(g: Seq<(Seq<char>, usize)>, name: Seq<char>)
    ensures
        first_named(g, name) matches Some(i) ==> 0 <= i < g.len() && g[i].0 == name && forall|j: int| 0 <= j < i ==> g[j].0 != name,
        first_named(g, name) is None ==> forall|j: int| 0 <= j < g.len() ==> g[j].0 != name,
    decreases g.len(),
{
    if g.len() > 0 {
        lemma_first_named(g.drop_first(), name);
        if g[0].0 != name {
            assert forall|j: int| 1 <= j < g.len() implies g[j] == g.drop_first()[j - 1] by {}
        }
    }
}

/// Source functions joined with the generated function of the same name (the
/// first one), in source order; a function not found in the generated file is left out.
pub open spec fn spec_join_fns(s: Seq<(Seq<char>, usize)>, g: Seq<(Seq<char>, usize)>) -> Seq<SpecFnLine>
    decreases s.len(),
{
    if s.len() == 0 {
        Seq::empty()
    } else {
        let prev = spec_join_fns(s.drop_last(), g);
        let (name, src_start) = s.last();
        match first_named(g, name) {
            Some(i) => prev.push(SpecFnLine { name, src_start, gen_start: g[i].1 }),
            None => prev,
        }
    }
}

/// Joins the function starts of a source and of its generated file by name.
pub fn join_fn_starts(src_fns: &Vec<(String, usize)>, gen_fns: &Vec<(String, usize)>) -> (out: Vec<FnLineMap>)
    ensures
        out@.map_values(|f: FnLineMap| f@) == spec_join_fns(pairs_view(src_fns@), pairs_view(gen_fns@)),
{
    let ghost sv = pairs_view(src_fns@);
    let ghost gv = pairs_view(gen_fns@);
    let mut out: Vec<FnLineMap> = Vec::new();
    let mut k: usize = 0;
    while k < src_fns.len()
        invariant
            k <= src_fns@.len(),
            sv == pairs_view(src_fns@),
            gv == pairs_view(gen_fns@),
            out@.map_values(|f: FnLineMap| f@) == spec_join_fns(sv.take(k as int), gv),
        decreases src_fns@.len() - k,
    {
        let name = &src_fns[k].0;
        let src_start = src_fns[k].1;
        let ghost nm = name@;
        proof {
            lemma_first_named(gv, nm);
        }
        let mut j: usize = 0;
        let mut found: Option<usize> = None;
        while j < gen_fns.len()
            invariant_except_break
                found is None,
            invariant
                nm == name@,
                j <= gen_fns@.len(),
                gv == pairs_view(gen_fns@),
                forall|q: int| 0 <= q < j ==> gv[q].0 != nm,
            ensures
                match found {
                    Some(i) => i < gen_fns@.len() && gv[i as int].0 == nm && forall|q: int| 0 <= q < i ==> gv[q].0 != nm,
                    None => forall|q: int| 0 <= q < gv.len() ==> gv[q].0 != nm,
                },
            decreases gen_fns@.len() - j,
        {
            assert(gv[j as int].0 == gen_fns@[j as int].0@);
            if crate::pattern::same_text(&gen_fns[j].0, name) {
                found = Some(j);
                break;
            }
            j += 1;
        }
        let ghost before = out@.map_values(|f: FnLineMap| f@);
        assert(sv.take(k + 1).drop_last() =~= sv.take(k as int));
        assert(sv.take(k + 1).last() == (nm, src_start));
        match found {
            Some(i) => {
                proof {
                    if let Some(i2) = first_named(gv, nm) {
                        assert(i2 == i as int);
                    }
                }
                let f = FnLineMap { name: crate::pattern::copy_string(name), src_start, gen_start: gen_fns[i].1 };
                out.push(f);
                assert(out@.map_values(|f: FnLineMap| f@) =~= before.push(
                    SpecFnLine { name: nm, src_start, gen_start: gv[i as int].1 },
                ));
            },
            None => {},
        }
        k += 1;
    }
    assert(sv.take(k as int) =~= sv);
    out
}

/// The line map of one generated file, from its source text and its generated text.
pub fn file_line_map(gen_file: String, src_file: String, src_text: &str, gen_text: &str) -> (r: FileLineMap)
    ensures
        r@.gen_file == gen_file@,
        r@.src_file == src_file@,
        r@.fns == spec_join_fns(
            spec_fn_starts(Rule::FnStartSrc, src_text@),
            spec_fn_starts(Rule::FnStartGen, gen_text@),
        ),
{
    let s = find_fn_starts_src(src_text);
    let g = find_fn_starts_gen(gen_text);
    let fns = join_fn_starts(&s, &g);
    FileLineMap { gen_file, src_file, fns }
}

pub open spec fn lit_gen_dir() -> Seq<char> {
    seq!['t', 's', 'r', 'u', 's', 't', '_', 'g', 'e', 'n', '/']
}

/// Backslashes become slashes.
pub open spec fn slashed(s: Seq<char>) -> Seq<char> {
    s.map_values(|c: char| if c == '\\' { '/' } else { c })
}

/// The last position at or before `k` where `pat` starts in `s`.
pub open spec fn last_at_or_before(s: Seq<char>, pat: Seq<char>, k: int) -> Option<int>
    decreases k + 1,
{
    if k < 0 {
        None
    } else if starts_at(s, k, pat) {
        Some(k)
    } else {
        last_at_or_before(s, pat, k - 1)
    }
}

/// The part of `p` (with `\` read as `/`) after its last `tsrust_gen/`.
pub open spec fn spec_gen_suffix(p: Seq<char>) -> Option<Seq<char>> {
    let n = slashed(p);
    match last_at_or_before(n, lit_gen_dir(), n.len() - 11) {
        Some(k) => Some(n.skip(k + 11)),
        None => None,
    }
}

/// The path after its last `tsrust_gen/` directory, with `/` separators, so that
/// locations compare equal whatever the build directory.
pub fn gen_suffix(p: &str) -> (r: Option<String>)
    ensures
        match spec_gen_suffix(p@) {
            Some(t) => r matches Some(x) && x@ == t,
            None => r is None,
        },
{
    proof {
        reveal_strlit("tsrust_gen/");
    }
    assert("tsrust_gen/"@ =~= lit_gen_dir());
    let v = chars_of(p);
    let mut nv: Vec<char> = Vec::new();
    let mut k: usize = 0;
    while k < v.len()
        invariant
            k <= v@.len(),
            v@ == p@,
            nv@ == slashed(v@.take(k as int)),
        decreases v@.len() - k,
    {
        let c = v[k];
        nv.push(if c == '\\' { '/' } else { c });
        assert(nv@ =~= slashed(v@.take(k + 1)));
        k += 1;
    }
    assert(v@.take(k as int) =~= v@);
    let n = nv.len();
    if n < 11 {
        assert(last_at_or_before(nv@, lit_gen_dir(), n - 11) is None);
        return None;
    }
    let mut i: usize = n - 11 + 1;
    // positions above `i - 1` were tried
    while i > 0
        invariant
            nv@ == slashed(p@),
            n == nv@.len(),
            n >= 11,
            i <= n - 11 + 1,
            "tsrust_gen/"@ =~= lit_gen_dir(),
            last_at_or_before(nv@, lit_gen_dir(), n - 11) == last_at_or_before(nv@, lit_gen_dir(), i - 1),
        decreases i,
    {
        if crate::text::matches_at(&nv, i - 1, "tsrust_gen/") {
            let start = i - 1 + 11;
            let mut out = String::new();
            crate::text::push_range(&mut out, &nv, start, n);
            assert(out@ =~= nv@.skip(start as int));
            return Some(out);
        }
        i -= 1;
    }
    None
}

/// `gen_file` is the file of the location `gen_path`: same part after `tsrust_gen/`
/// when both have one, otherwise the same path.
pub open spec fn file_matches(gen_file: Seq<char>, gen_path: Seq<char>) -> bool {
    match (spec_gen_suffix(gen_path), spec_gen_suffix(gen_file)) {
        (Some(a), Some(b)) => a == b,
        _ => gen_file == gen_path,
    }
}

/// Index of the function with the greatest `gen_start` at or before `gen_line`
/// (the first of equals), among the first `k` of `fns`.
pub open spec fn best_fn(fns: Seq<SpecFnLine>, gen_line: usize, k: int) -> Option<int>
    decreases k,
{
    if k <= 0 {
        None
    } else {
        let prev = best_fn(fns, gen_line, k - 1);
        let f = fns[k - 1];
        if f.gen_start <= gen_line {
            match prev {
                None => Some(k - 1),
                Some(b) => if f.gen_start > fns[b].gen_start {
                    Some(k - 1)
                } else {
                    prev
                },
            }
        } else {
            prev
        }
    }
}

pub proof fn lemma_best_fn(fns: Seq<SpecFnLine>, gen_line: usize, k: int)
    requires
        k <= fns.len(),
    ensures
        best_fn(fns, gen_line, k) matches Some(b) ==> 0 <= b < k && fns[b].gen_start <= gen_line,
    decreases k,
{
    if k > 0 {
        lemma_best_fn(fns, gen_line, k - 1);
    }
}

/// A generated line carried into the source of `f`: the line as far past the start of
/// the nearest function before it as it was in the generated file.
pub open spec fn map_in_file(f: SpecFileLine, gen_line: usize) -> (Seq<char>, usize) {
    if f.fns.len() == 0 {
        (f.src_file, gen_line)
    } else {
        match best_fn(f.fns, gen_line, f.fns.len() as int) {
            Some(b) => (f.src_file, sat_add(f.fns[b].src_start as int, gen_line - f.fns[b].gen_start)),
            None => (f.src_file, gen_line),
        }
    }
}

/// The first file of `files` that `gen_path` names.
pub open spec fn first_file(files: Seq<SpecFileLine>, gen_path: Seq<char>) -> Option<int>
    decreases files.len(),
{
    if files.len() == 0 {
        None
    } else if file_matches(files[0].gen_file, gen_path) {
        Some(0)
    } else {
        match first_file(files.drop_first(), gen_path) {
            Some(i) => Some(i + 1),
            None => None,
        }
    }
}

/// Where `gen_path:gen_line` comes from, looking through the maps in order.
pub open spec fn spec_map_line(maps: Seq<Seq<SpecFileLine>>, gen_path: Seq<char>, gen_line: usize) -> Option<
    (Seq<char>, usize),
>
    decreases maps.len(),
{
    if maps.len() == 0 {
        None
    } else {
        match first_file(maps[0], gen_path) {
            Some(i) => Some(map_in_file(maps[0][i], gen_line)),
            None => spec_map_line(maps.drop_first(), gen_path, gen_line),
        }
    }
}

fn file_matches_exec(gen_file: &String, gen_path: &str, want: &Option<String>) -> (r: bool)
    requires
        match spec_gen_suffix(gen_path@) {
            Some(t) => want matches Some(x) && x@ == t,
            None => want is None,
        },
    ensures
        r == file_matches(gen_file@, gen_path@),
{
    let have = gen_suffix(gen_file.as_str());
    match (want, &have) {
        (Some(a), Some(b)) => crate::pattern::same_text(a, b),
        _ => {
            let v = chars_of(gen_file.as_str());
            let r = crate::text::eq_lit(&v, gen_path);
            r
        },
    }
}

fn map_in_file_exec(f: &FileLineMap, gen_line: usize) -> (r: (String, usize))
    ensures
        (r.0@, r.1) == map_in_file(f@, gen_line),
{
    let ghost fv = f@.fns;
    if f.fns.len() == 0 {
        return (crate::pattern::copy_string(&f.src_file), gen_line);
    }
    let mut best: Option<usize> = None;
    let mut k: usize = 0;
    while k < f.fns.len()
        invariant
            k <= f.fns@.len(),
            fv == f@.fns,
            match best_fn(fv, gen_line, k as int) {
                Some(b) => best == Some(b as usize),
                None => best is None,
            },
        decreases f.fns@.len() - k,
    {
        proof {
            lemma_best_fn(fv, gen_line, k as int);
        }
        let g = f.fns[k].gen_start;
        assert(fv[k as int].gen_start == g);
        if g <= gen_line {
            match best {
                None => {
                    best = Some(k);
                },
                Some(b) => {
                    assert(fv[b as int].gen_start == f.fns@[b as int].gen_start);
                    if g > f.fns[b].gen_start {
                        best = Some(k);
                    }
                },
            }
        }
        k += 1;
    }
    proof {
        lemma_best_fn(fv, gen_line, k as int);
    }
    match best {
        Some(b) => {
            let fun = &f.fns[b];
            assert(fv[b as int] == fun@);
            let delta = gen_line - fun.gen_start;
            let line = if fun.src_start <= usize::MAX - delta { fun.src_start + delta } else { usize::MAX };
            (crate::pattern::copy_string(&f.src_file), line)
        },
        None => (crate::pattern::copy_string(&f.src_file), gen_line),
    }
}

/// Carries the generated location `gen_path:gen_line` back to its source file and
/// line, using the first file of the maps that names it (by its part after
/// `tsrust_gen/` when both have one).
pub fn map_line(maps: &Vec<CrateLineMap>, gen_path: &str, gen_line: usize) -> (r: Option<(String, usize)>)
    ensures
        match spec_map_line(maps_view(maps@), gen_path@, gen_line) {
            Some(t) => r matches Some(x) && (x.0@, x.1) == t,
            None => r is None,
        },
{
    let want = gen_suffix(gen_path);
    let ghost mv = maps_view(maps@);
    let mut i: usize = 0;
    assert(mv.skip(0) =~= mv);
    while i < maps.len()
        invariant
            i <= maps@.len(),
            mv == maps_view(maps@),
            match spec_gen_suffix(gen_path@) {
                Some(t) => want matches Some(x) && x@ == t,
                None => want is None,
            },
            spec_map_line(mv, gen_path@, gen_line) == spec_map_line(mv.skip(i as int), gen_path@, gen_line),
        decreases maps@.len() - i,
    {
        let m = &maps[i];
        let ghost files = m@;
        assert(mv.skip(i as int)[0] == files);
        assert(mv.skip(i as int).drop_first() =~= mv.skip(i + 1));
        let mut j: usize = 0;
        assert(files.skip(0) =~= files);
        while j < m.files.len()
            invariant
                i < maps@.len(),
                mv == maps_view(maps@),
                mv.skip(i as int)[0] == files,
                mv.skip(i as int).drop_first() =~= mv.skip(i + 1),
                spec_map_line(mv, gen_path@, gen_line) == spec_map_line(mv.skip(i as int), gen_path@, gen_line),
                j <= m.files@.len(),
                files == m@,
                match spec_gen_suffix(gen_path@) {
                    Some(t) => want matches Some(x) && x@ == t,
                    None => want is None,
                },
                first_file(files, gen_path@) == match first_file(files.skip(j as int), gen_path@) {
                    Some(q) => Some(q + j),
                    None => None,
                },
            decreases m.files@.len() - j,
        {
            let f = &m.files[j];
            assert(files[j as int] == f@);
            assert(files.skip(j as int)[0] == f@);
            assert(files.skip(j as int).drop_first() =~= files.skip(j + 1));
            if file_matches_exec(&f.gen_file, gen_path, &want) {
                return Some(map_in_file_exec(f, gen_line));
            }
            j += 1;
        }
        assert(files.skip(j as int) =~= Seq::<SpecFileLine>::empty());
        i += 1;
    }
    None
}

/// `s` with each tab replaced by the spaces up to the next multiple of `w` columns.
pub open spec fn expand_tabs(s: Seq<char>, w: nat) -> Seq<char>
    decreases s.len(),
{
    if s.len() == 0 {
        Seq::empty()
    } else {
        let prev = expand_tabs(s.drop_last(), w);
        if s.last() == '\t' {
            prev + Seq::new((w - prev.len() % w) as nat, |i: int| ' ')
        } else {
            prev.push(s.last())
        }
    }
}

/// Expands tabs to spaces at tab stops every `tabw` columns.
pub fn expand_tabs_to_cols(s: &str, tabw: usize) -> (r: String)
    requires
        tabw > 0,
    ensures
        r@ == expand_tabs(s@, tabw as nat),
{
    let v = chars_of(s);
    let mut out = String::new();
    let mut col: usize = 0;
    let mut k: usize = 0;
    proof {
        vstd::arithmetic::div_mod::lemma_small_mod(0, tabw as nat);
    }
    while k < v.len()
        invariant
            tabw > 0,
            k <= v@.len(),
            v@ == s@,
            out@ == expand_tabs(v@.take(k as int), tabw as nat),
            col == out@.len() % (tabw as nat),
        decreases v@.len() - k,
    {
        assert(v@.take(k + 1).drop_last() =~= v@.take(k as int));
        let ch = v[k];
        let ghost prev = out@;
        if ch == '\t' {
            let spaces = tabw - col;
            let mut q: usize = 0;
            while q < spaces
                invariant
                    q <= spaces,
                    spaces == tabw - col,
                    col < tabw,
                    out@ == prev + Seq::new(q as nat, |i: int| ' '),
                decreases spaces - q,
            {
                push_char(&mut out, ' ');
                assert(out@ =~= prev + Seq::new((q + 1) as nat, |i: int| ' '));
                q += 1;
            }
            proof {
                let l = prev.len() as int;
                let w = tabw as int;
                vstd::arithmetic::div_mod::lemma_fundamental_div_mod(l, w);
                assert(l + spaces == w * (l / w + 1) + 0) by (nonlinear_arith)
                    requires
                        l == w * (l / w) + col,
                        spaces == w - col,
                ;
                vstd::arithmetic::div_mod::lemma_mod_multiples_vanish(l / w + 1, 0, w);
                vstd::arithmetic::div_mod::lemma_small_mod(0, tabw as nat);
            }
            col = 0;
        } else {
            push_char(&mut out, ch);
            proof {
                let l = prev.len() as int;
                let w = tabw as int;
                vstd::arithmetic::div_mod::lemma_add_mod_noop(l, 1, w);
                vstd::arithmetic::div_mod::lemma_mod_bound(l + 1, w);
                if w == 1 {
                    assert((l + 1) % w < 1);
                } else {
                    vstd::arithmetic::div_mod::lemma_small_mod(1, tabw as nat);
                    if col + 1 < tabw {
                        vstd::arithmetic::div_mod::lemma_small_mod((col + 1) as nat, tabw as nat);
                    } else {
                        vstd::arithmetic::div_mod::lemma_mod_self_0(w);
                    }
                }
            }
            col = if col + 1 == tabw { 0 } else { col + 1 };
        }
        k += 1;
    }
    assert(v@.take(k as int) =~= v@);
    out
}

/// Column search used to place carets: from char position `p` (where the column
/// count is `col`), the column of the next `tok`, counting the characters skipped
/// and, for each occurrence passed over, `blen` (the token's length in bytes);
/// the first such column that is at least `min`.
pub open spec fn token_col_from(l: Seq<char>, tok: Seq<char>, blen: int, min: int, p: int, col: int) -> Option<int>
    decreases l.len() + 1 - p,
{
    if tok.len() == 0 || p < 0 || p > l.len() {
        None
    } else {
        match find_from(l, tok, p) {
            None => None,
            Some(k) => {
                proof {
                    lemma_find_from(l, tok, p);
                }
                let c = col + (k - p);
                if c >= min {
                    Some(c)
                } else {
                    token_col_from(l, tok, blen, min, k + tok.len(), c + blen)
                }
            },
        }
    }
}

/// The visual column (0-based) of the first occurrence of `tok` at or after
/// column `min_col0` in an already tab-expanded line. The empty token occurs at
/// column 0; it is searched for only from column 0, since no later occurrence
/// of it is ever reached.
pub fn find_token_col_at_or_after(expanded_line: &str, tok: &str, min_col0: usize) -> (r: Option<usize>)
    requires
        tok@.len() > 0 || min_col0 == 0,
    ensures
        tok@.len() == 0 ==> r == Some(0usize),
        tok@.len() > 0 ==> match token_col_from(expanded_line@, tok@, tok.spec_bytes().len() as int, min_col0 as int, 0, 0) {
            Some(c) => r == Some(sat_add(c, 0)),
            None => r is None,
        },
{
    let tl = tok.unicode_len();
    if tl == 0 {
        return Some(0);
    }
    let l = chars_of(expanded_line);
    let blen = tok.as_bytes().len();
    let mut p: usize = 0;
    let mut col: u128 = 0;
    let ghost spec_blen = tok.spec_bytes().len() as int;
    assert(blen == spec_blen);
    while p <= l.len()
        invariant
            l@ == expanded_line@,
            tl == tok@.len(),
            tl > 0,
            blen == spec_blen,
            spec_blen == tok.spec_bytes().len() as int,
            p <= l@.len() + tl,
            col <= min_col0 + blen,
            token_col_from(l@, tok@, spec_blen, min_col0 as int, 0, 0) == token_col_from(
                l@,
                tok@,
                spec_blen,
                min_col0 as int,
                p as int,
                col as int,
            ),
        decreases l@.len() + 1 - p,
    {
        proof {
            lemma_find_from(l@, tok@, p as int);
        }
        match find_lit(&l, p, tok) {
            None => {
                return None;
            },
            Some(k) => {
                let c = col + (k - p) as u128;
                if c >= min_col0 as u128 {
                    if c > usize::MAX as u128 {
                        return Some(usize::MAX);
                    }
                    return Some(c as usize);
                }
                p = k + tl;
                col = c + blen as u128;
            },
        }
    }
    None
}

} // verus!
