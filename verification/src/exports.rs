//! What each `.tsrust` module exports, and the check that relative imports only
//! name exported items.
use vstd::prelude::*;
use vstd::string::*;
use crate::ast::strings_view;
use crate::paths::{dot_dot_slash, dot_slash, piece_state, pieces};
use crate::filepaths::{any_sep, ext_ok, ext_spec, join1, joinable, lemma_parent_plain, lemma_plain_joinable, lemma_stem_dotless, lemma_tail_after_slash, lemma_tail_extend, lemma_tail_no_slash, parent_spec, strip_spec, path_join, path_parent, path_set_extension, path_strip_prefix, path_with_extension, plain_path, seg_ok, tail, two_sep_start};
use crate::pattern::{Rule, copy_string, find_matches, group_text, gtext, trimmed_string, regex_captures, rule_pattern, same_text, spans_ok, spans_view};
use crate::text::{chars_of, find_from, find_lit, lemma_find_from, matches_at, push_char, push_str, starts_at, trim, trimmed};
use crate::transpile::{decimal, push_decimal, split_at_char, split_on};
use crate::linemap::slashed;

verus! {

broadcast use vstd::utf8::group_utf8_lib;

pub open spec fn lit_as() -> Seq<char> {
    seq![' ', 'a', 's', ' ']
}

/// The name an entry `A` or `A as B` makes visible: `B` when aliased.
pub open spec fn binding_name(item: Seq<char>) -> Seq<char> {
    match find_from(item, lit_as(), 0) {
        Some(k) => trim(item.skip(k + 4)),
        None => item,
    }
}

/// The names of a comma-separated list: each entry trimmed, empty entries dropped,
/// aliases resolved to the alias.
pub open spec fn names_of_pieces(ps: Seq<Seq<char>>) -> Seq<Seq<char>>
    decreases ps.len(),
{
    if ps.len() == 0 {
        Seq::empty()
    } else {
        let prev = names_of_pieces(ps.drop_last());
        let t = trim(ps.last());
        if t.len() == 0 {
            prev
        } else {
            prev.push(binding_name(t))
        }
    }
}

pub open spec fn list_names(body: Seq<char>) -> Seq<Seq<char>> {
    names_of_pieces(split_on(body, ','))
}

fn binding_name_of(item: &String) -> (r: String)
    ensures
        r@ == binding_name(item@),
{
    proof {
        reveal_strlit(" as ");
    }
    assert(" as "@ =~= lit_as());
    let v = chars_of(item.as_str());
    match find_lit(&v, 0, " as ") {
        Some(k) => {
            proof {
                lemma_find_from(v@, lit_as(), 0);
            }
            let t = trimmed(&v, k + 4, v.len());
            assert(v@.subrange(k + 4, v@.len() as int) =~= v@.skip(k + 4));
            t
        },
        None => copy_string(item),
    }
}

/// The names listed in `body` (see `list_names`).
pub fn names_of_list(body: &str) -> (r: Vec<String>)
    ensures
        strings_view(r@) == list_names(body@),
{
    let ps = split_at_char(body, ',');
    let ghost pv = strings_view(ps@);
    let mut out: Vec<String> = Vec::new();
    let mut k: usize = 0;
    while k < ps.len()
        invariant
            k <= ps@.len(),
            pv == strings_view(ps@),
            strings_view(out@) == names_of_pieces(pv.take(k as int)),
        decreases ps@.len() - k,
    {
        assert(pv.take(k + 1).drop_last() =~= pv.take(k as int));
        assert(pv.take(k + 1).last() == ps@[k as int]@);
        let t = trimmed_string(&ps[k]);
        if t.unicode_len() > 0 {
            let ghost before = strings_view(out@);
            let b = binding_name_of(&t);
            out.push(b);
            assert(strings_view(out@) =~= before.push(binding_name(t@)));
        }
        k += 1;
    }
    assert(pv.take(k as int) =~= pv);
    out
}

/// The imported names and the module specifier of a line
/// `import { A, B as C } from "path";`.
pub open spec fn spec_import_items_of_line(line: Seq<char>) -> Option<(Seq<Seq<char>>, Seq<char>)> {
    match regex_captures(rule_pattern(Rule::ImportLine), line) {
        None => None,
        Some(ms) => if ms.len() == 0 {
            None
        } else {
            Some((list_names(gtext(line, ms[0], 1)), gtext(line, ms[0], 2)))
        },
    }
}

/// The imported binding names and the specifier of an import line.
pub fn import_items_of_line(line: &str) -> (r: Option<(Vec<String>, String)>)
    ensures
        match spec_import_items_of_line(line@) {
            Some((items, spec)) => r matches Some(x) && strings_view(x.0@) == items && x.1@ == spec,
            None => r is None,
        },
{
    match find_matches(Rule::ImportLine, line) {
        None => None,
        Some(ms) => {
            if ms.len() == 0 {
                return None;
            }
            let ghost sv = spans_view(ms@);
            assert(sv[0] == ms@[0]@);
            assert forall|j: int| 0 <= j < ms@[0]@.len() implies crate::pattern::span_ok(
                line.spec_bytes(),
                #[trigger] ms@[0]@[j],
            ) by {
                assert(crate::pattern::span_ok(line.spec_bytes(), sv[0][j]));
            }
            let body = group_text(line, &ms[0], 1);
            let spec = group_text(line, &ms[0], 2);
            let items = names_of_list(body.as_str());
            Some((items, spec))
        },
    }
}

/// Group 1 of every match of `r` in `t`.
pub open spec fn group1_all(r: Rule, t: Seq<char>) -> Seq<Seq<char>> {
    match regex_captures(rule_pattern(r), t) {
        None => Seq::empty(),
        Some(ms) => ms.map_values(|m: Seq<Option<(usize, usize)>>| gtext(t, m, 1)),
    }
}

/// The names listed in group 1 of every `export { ... }` line.
pub open spec fn listed_all(ls: Seq<Seq<char>>) -> Seq<Seq<char>>
    decreases ls.len(),
{
    if ls.len() == 0 {
        Seq::empty()
    } else {
        listed_all(ls.drop_last()) + list_names(ls.last())
    }
}

/// Every name the module text `t` exports: `export function`, `export const`/`let`,
/// and `export { ... }` lists (aliases by their alias).
pub open spec fn spec_export_names(t: Seq<char>) -> Seq<Seq<char>> {
    group1_all(Rule::ExportFn, t) + group1_all(Rule::ExportConst, t) + listed_all(group1_all(Rule::ExportList, t))
}

fn group1_of_all(r: Rule, text: &str) -> (out: Vec<String>)
    ensures
        strings_view(out@) == group1_all(r, text@),
{
    let mut out: Vec<String> = Vec::new();
    match find_matches(r, text) {
        None => {
            assert(strings_view(out@) =~= Seq::<Seq<char>>::empty());
            out
        },
        Some(ms) => {
            let ghost sv = spans_view(ms@);
            let mut k: usize = 0;
            while k < ms.len()
                invariant
                    k <= ms@.len(),
                    sv == spans_view(ms@),
                    spans_ok(sv, text.spec_bytes()),
                    strings_view(out@) == sv.take(k as int).map_values(
                        |m: Seq<Option<(usize, usize)>>| gtext(text@, m, 1),
                    ),
                decreases ms@.len() - k,
            {
                assert(sv[k as int] == ms@[k as int]@);
                assert forall|j: int| 0 <= j < ms@[k as int]@.len() implies crate::pattern::span_ok(
                    text.spec_bytes(),
                    #[trigger] ms@[k as int]@[j],
                ) by {
                    assert(crate::pattern::span_ok(text.spec_bytes(), sv[k as int][j]));
                }
                let g = group_text(text, &ms[k], 1);
                let ghost before = strings_view(out@);
                out.push(g);
                assert(strings_view(out@) =~= before.push(gtext(text@, sv[k as int], 1)));
                assert(sv.take(k + 1) =~= sv.take(k as int).push(sv[k as int]));
                assert(sv.take(k + 1).map_values(|m: Seq<Option<(usize, usize)>>| gtext(text@, m, 1))
                    =~= sv.take(k as int).map_values(|m: Seq<Option<(usize, usize)>>| gtext(text@, m, 1)).push(
                    gtext(text@, sv[k as int], 1),
                ));
                k += 1;
            }
            assert(sv.take(k as int) =~= sv);
            out
        },
    }
}

/// The names strictly increase (in `seq_lt` order), so none occurs twice.
pub open spec fn names_sorted(v: Seq<Seq<char>>) -> bool {
    forall|i: int, j: int| 0 <= i < j < v.len() ==> seq_lt(#[trigger] v[i], #[trigger] v[j])
}

pub proof fn lemma_sorted_no_duplicates(v: Seq<Seq<char>>)
    requires
        names_sorted(v),
    ensures
        v.no_duplicates(),
{
    assert forall|i: int, j: int| 0 <= i < v.len() && 0 <= j < v.len() && i != j implies v[i] != v[j] by {
        if i < j {
            lemma_seq_lt_total(v[i], v[j]);
        } else {
            lemma_seq_lt_total(v[j], v[i]);
        }
    }
}

/// Puts `name` into the sorted `set` at its place, unless it is there already.
fn add_name(set: &mut Vec<String>, name: String)
    requires
        names_sorted(strings_view(old(set)@)),
    ensures
        names_sorted(strings_view(final(set)@)),
        strings_view(final(set)@).to_set() == strings_view(old(set)@).to_set().insert(name@),
{
    let ghost before = strings_view(set@);
    let mut i: usize = 0;
    while i < set.len() && str_less(&set[i], &name)
        invariant
            i <= set@.len(),
            before == strings_view(set@),
            before == strings_view(old(set)@),
            names_sorted(before),
            forall|j: int| 0 <= j < i ==> seq_lt(#[trigger] before[j], name@),
        decreases set@.len() - i,
    {
        assert(before[i as int] == set@[i as int]@);
        i += 1;
    }
    if i < set.len() && same_text(&set[i], &name) {
        assert(before[i as int] == set@[i as int]@);
        assert(before.contains(name@));
        assert(before.to_set().insert(name@) =~= before.to_set());
        return;
    }
    let ghost nv = name@;
    proof {
        if i < before.len() {
            assert(before[i as int] == set@[i as int]@);
            lemma_seq_lt_total(before[i as int], nv);
            assert(seq_lt(nv, before[i as int]));
        }
        assert forall|j: int| i <= j < before.len() implies seq_lt(nv, #[trigger] before[j]) by {
            if j > i {
                lemma_seq_lt_trans(nv, before[i as int], before[j]);
            }
        }
    }
    set.insert(i, name);
    let ghost after = before.insert(i as int, nv);
    assert(strings_view(set@) =~= after);
    proof {
        assert forall|a: int, b: int| 0 <= a < b < after.len() implies seq_lt(
            #[trigger] after[a],
            #[trigger] after[b],
        ) by {
            if a < i && b > i {
                assert(seq_lt(before[a], nv));
                assert(seq_lt(nv, before[b - 1]));
                lemma_seq_lt_trans(before[a], nv, before[b - 1]);
            } else if a == i && b > i {
                assert(seq_lt(nv, before[b - 1]));
            } else if a < i && b == i {
                assert(seq_lt(before[a], nv));
            } else if b < i {
                assert(seq_lt(before[a], before[b]));
            } else {
                assert(seq_lt(before[a - 1], before[b - 1]));
            }
        }
        assert forall|x: Seq<char>| after.to_set().contains(x) <==> before.to_set().insert(nv).contains(x) by {
            if after.contains(x) {
                let k = choose|k: int| 0 <= k < after.len() && after[k] == x;
                if k < i {
                    assert(before[k] == x);
                } else if k > i {
                    assert(before[k - 1] == x);
                }
            }
            if before.contains(x) {
                let k = choose|k: int| 0 <= k < before.len() && before[k] == x;
                if k < i {
                    assert(after[k] == x);
                } else {
                    assert(after[k + 1] == x);
                }
            }
            if x == nv {
                assert(after[i as int] == nv);
            }
        }
        assert(after.to_set() =~= before.to_set().insert(nv));
    }
}

/// Adds each of `items` to `set` (see `add_name`).
fn add_names(set: &mut Vec<String>, items: &Vec<String>)
    requires
        names_sorted(strings_view(old(set)@)),
    ensures
        names_sorted(strings_view(final(set)@)),
        strings_view(final(set)@).to_set() == strings_view(old(set)@).to_set() + strings_view(items@).to_set(),
{
    let ghost start = strings_view(set@);
    let ghost iv = strings_view(items@);
    let mut k: usize = 0;
    assert(iv.take(0).to_set() =~= Set::<Seq<char>>::empty());
    assert(start.to_set() + Set::<Seq<char>>::empty() =~= start.to_set());
    while k < items.len()
        invariant
            k <= items@.len(),
            iv == strings_view(items@),
            start == strings_view(old(set)@),
            names_sorted(strings_view(set@)),
            strings_view(set@).to_set() == start.to_set() + iv.take(k as int).to_set(),
        decreases items@.len() - k,
    {
        add_name(set, copy_string(&items[k]));
        assert(iv.take(k + 1) =~= iv.take(k as int).push(iv[k as int]));
        proof {
            iv.take(k as int).lemma_push_to_set_commute(iv[k as int]);
        }
        assert(start.to_set() + iv.take(k + 1).to_set() =~= (start.to_set() + iv.take(k as int).to_set()).insert(
            iv[k as int],
        ));
        k += 1;
    }
    assert(iv.take(k as int) =~= iv);
}

/// The names a module exports, each once and in increasing order (see
/// `spec_export_names`).
pub fn scan_exports(src_text: &str) -> (r: Vec<String>)
    ensures
        names_sorted(strings_view(r@)),
        strings_view(r@).no_duplicates(),
        strings_view(r@).to_set() == spec_export_names(src_text@).to_set(),
{
    let a = group1_of_all(Rule::ExportFn, src_text);
    let b = group1_of_all(Rule::ExportConst, src_text);
    let lists = group1_of_all(Rule::ExportList, src_text);
    let mut all: Vec<String> = Vec::new();
    let mut k: usize = 0;
    let ghost lv = strings_view(lists@);
    while k < lists.len()
        invariant
            k <= lists@.len(),
            lv == strings_view(lists@),
            strings_view(all@) == listed_all(lv.take(k as int)),
        decreases lists@.len() - k,
    {
        assert(lv.take(k + 1).drop_last() =~= lv.take(k as int));
        assert(lv.take(k + 1).last() == lists@[k as int]@);
        let names = names_of_list(lists[k].as_str());
        let ghost before = strings_view(all@);
        let mut q: usize = 0;
        while q < names.len()
            invariant
                q <= names@.len(),
                strings_view(all@) == before + strings_view(names@).take(q as int),
            decreases names@.len() - q,
        {
            let ghost b2 = strings_view(all@);
            all.push(copy_string(&names[q]));
            assert(strings_view(all@) =~= b2.push(names@[q as int]@));
            assert(strings_view(names@).take(q + 1) =~= strings_view(names@).take(q as int).push(names@[q as int]@));
            q += 1;
        }
        assert(strings_view(names@).take(q as int) =~= strings_view(names@));
        k += 1;
    }
    assert(lv.take(k as int) =~= lv);
    let ghost full = strings_view(a@) + strings_view(b@) + strings_view(all@);
    assert(full == spec_export_names(src_text@));
    let mut set: Vec<String> = Vec::new();
    assert(strings_view(set@) =~= Seq::<Seq<char>>::empty());
    assert(Seq::<Seq<char>>::empty().to_set() =~= Set::<Seq<char>>::empty());
    add_names(&mut set, &a);
    add_names(&mut set, &b);
    add_names(&mut set, &all);
    proof {
        vstd::seq_lib::seq_to_set_distributes_over_add(strings_view(a@), strings_view(b@));
        vstd::seq_lib::seq_to_set_distributes_over_add(strings_view(a@) + strings_view(b@), strings_view(all@));
    }
    assert(strings_view(set@).to_set() =~= full.to_set());
    proof {
        lemma_sorted_no_duplicates(strings_view(set@));
    }
    set
}

/// 1-based column of the first `needle` in `line` (in characters), or 1.
pub open spec fn spec_find_col(line: Seq<char>, needle: Seq<char>) -> int {
    match find_from(line, needle, 0) {
        Some(k) => k + 1,
        None => 1,
    }
}

pub fn find_col(line: &str, needle: &str) -> (r: usize)
    ensures
        r == spec_find_col(line@, needle@),
{
    let v = chars_of(line);
    proof {
        lemma_find_from(v@, needle@, 0);
    }
    match find_lit(&v, 0, needle) {
        Some(k) => {
            if needle.unicode_len() == 0 {
                assert(find_from(v@, needle@, 0) == Some(0int));
            }
            k + 1
        },
        None => 1,
    }
}

// ----- module paths -----

/// A specifier relative to the importing file.
pub open spec fn is_relative(spec: Seq<char>) -> bool {
    starts_at(spec, 0, dot_slash()) || starts_at(spec, 0, dot_dot_slash())
}

/// `s` with backslashes turned into slashes.
pub fn slashed_string(s: &String) -> (r: String)
    ensures
        r@ == slashed(s@),
{
    let v = chars_of(s.as_str());
    let mut out = String::new();
    let mut k: usize = 0;
    while k < v.len()
        invariant
            k <= v@.len(),
            v@ == s@,
            out@ == slashed(v@.take(k as int)),
        decreases v@.len() - k,
    {
        let c = v[k];
        push_char(&mut out, if c == '\\' { '/' } else { c });
        assert(out@ =~= slashed(v@.take(k + 1)));
        k += 1;
    }
    assert(v@.take(k as int) =~= v@);
    out
}

/// The module key made of a path and what stripping the source root off it gave:
/// the stripped path when there is one, else the whole path, with `/` separators.
pub open spec fn key_spec(path: Seq<char>, stripped: Option<Seq<char>>) -> Seq<char> {
    match stripped {
        Some(rel) => slashed(rel),
        None => slashed(path),
    }
}

/// The module key of `path`, given what stripping the source root off it gave
/// (`None` when the root is not a prefix of it).
pub fn key_of(path: &String, stripped: Option<String>) -> (r: String)
    ensures
        r@ == key_spec(
            path@,
            match stripped {
                Some(x) => Some(x@),
                None => None,
            },
        ),
        !r@.contains('\\'),
{
    let rel = match stripped {
        Some(x) => x,
        None => copy_string(path),
    };
    proof {
        lemma_slashed_no_backslash(rel@);
    }
    slashed_string(&rel)
}

pub proof fn lemma_slashed_no_backslash(s: Seq<char>)
    ensures
        !slashed(s).contains('\\'),
{
    if slashed(s).contains('\\') {
        let i = choose|i: int| 0 <= i < slashed(s).len() && slashed(s)[i] == '\\';
        assert(slashed(s)[i] == (if s[i] == '\\' { '/' } else { s[i] }));
    }
}

/// Position after the `../` steps of `s` from `i` on.
pub open spec fn up_end(s: Seq<char>, i: int) -> int
    decreases s.len() - i,
{
    if starts_at(s, i, dot_dot_slash()) {
        up_end(s, i + 3)
    } else {
        i
    }
}

/// The directory reached from `b` by one parent step per `../` of `s` from `i`
/// on; a step that finds no parent goes back to `fd`.
pub open spec fn base_after(fd: Seq<char>, s: Seq<char>, i: int, b: Seq<char>) -> Seq<char>
    decreases s.len() - i,
{
    if starts_at(s, i, dot_dot_slash()) {
        base_after(
            fd,
            s,
            i + 3,
            match parent_spec(b) {
                Some(q) => q,
                None => fd,
            },
        )
    } else {
        b
    }
}

/// Where the segments of a relative specifier start: after its `../` steps and
/// an optional `./`.
pub open spec fn rest_start(s: Seq<char>) -> int {
    let i = up_end(s, 0);
    if starts_at(s, i, dot_slash()) {
        i + 2
    } else {
        i
    }
}

/// The `/`- and `.`-separated segments a relative specifier joins on.
pub open spec fn rel_steps(s: Seq<char>) -> Seq<Seq<char>> {
    pieces(s.subrange(rest_start(s), s.len() as int), true)
}

/// `steps` joined onto `b` one after the other, with `/`.
pub open spec fn joined(b: Seq<char>, steps: Seq<Seq<char>>) -> Seq<char>
    decreases steps.len(),
{
    if steps.len() == 0 {
        b
    } else {
        join1(joined(b, steps.drop_last()), steps.last())
    }
}

/// The directory a relative specifier resolves from (`fd` after its parent steps).
pub open spec fn rel_base(fd: Seq<char>, s: Seq<char>) -> Seq<char> {
    base_after(fd, s, 0, fd)
}

/// The inputs on which resolving a relative specifier is the same on every
/// platform: a plain importing directory, segments that hold no separator or
/// `:`, a base directory whose last component has no `.`, and something to put
/// the extension on.
pub open spec fn resolvable(fd: Seq<char>, s: Seq<char>) -> bool {
    let b = rel_base(fd, s);
    &&& plain_path(fd)
    &&& forall|j: int| 0 <= j < rel_steps(s).len() ==> seg_ok(#[trigger] rel_steps(s)[j])
    &&& !tail(b).contains('.')
    &&& (rel_steps(s).len() > 0 || (b.len() > 0 && b.last() != '/'))
}

/// The `.tsrust` file a relative specifier names from directory `fd`: one parent
/// step per `../`, each segment joined on with `/`, and the `.tsrust` extension.
pub open spec fn resolve_spec(fd: Seq<char>, s: Seq<char>) -> Seq<char> {
    joined(rel_base(fd, s), rel_steps(s)) + seq!['.', 't', 's', 'r', 'u', 's', 't']
}

pub proof fn lemma_slashed_id(s: Seq<char>)
    requires
        !s.contains('\\'),
    ensures
        slashed(s) == s,
{
    assert forall|i: int| 0 <= i < s.len() implies slashed(s)[i] == s[i] by {
        if s[i] == '\\' {
            assert(s.contains(s[i]));
        }
    }
    assert(slashed(s) =~= s);
}

/// One join step keeps what the resolution needs: the slashed text is the
/// `/`-join, the path stays joinable, its last component has no `.`, and it ends
/// in the segment.
proof fn lemma_join_step(p: Seq<char>, seg: Seq<char>, r: Seq<char>)
    requires
        joinable(p),
        !tail(p).contains('.'),
        seg_ok(seg),
        !seg.contains('.'),
        if p.len() == 0 {
            r == seg
        } else if p.last() == '/' {
            r == p + seg
        } else {
            r == p + seq!['/'] + seg || r == p + seq!['\\'] + seg
        },
    ensures
        slashed(r) == join1(slashed(p), seg),
        joinable(r),
        !tail(r).contains('.'),
        r.len() > 0,
        !any_sep(r.last()),
{
    lemma_slashed_id(seg);
    let sp = slashed(p);
    assert(sp.len() == p.len());
    if p.len() > 0 {
        assert(sp.last() == (if p.last() == '\\' { '/' } else { p.last() }));
    }
    assert(r.last() == seg.last()) by {
        assert(r.len() >= seg.len());
        assert(r[r.len() - 1] == seg[seg.len() - 1]);
    }
    assert(!any_sep(r.last())) by {
        assert(seg.contains(seg[seg.len() - 1]));
    }
    assert(!r.contains(':')) by {
        if r.contains(':') {
            let i = choose|i: int| 0 <= i < r.len() && r[i] == ':';
            if i < p.len() {
                assert(p[i] == ':');
                assert(p.contains(':'));
            } else if r.len() - seg.len() <= i {
                assert(seg[i - (r.len() - seg.len())] == ':');
                assert(seg.contains(':'));
            }
        }
    }
    assert(!any_sep(seg[0])) by {
        assert(seg.contains(seg[0]));
    }
    if p.len() == 0 {
        assert(r =~= seg);
        lemma_tail_no_slash(seg);
    } else if p.last() == '/' {
        assert(slashed(r) =~= sp + seg);
        assert(p =~= p.drop_last().push('/'));
        assert(r =~= p.drop_last().push('/') + seg);
        lemma_tail_after_slash(p.drop_last(), seg);
        if p.len() >= 2 {
            assert(r[0] == p[0] && r[1] == p[1]);
        } else {
            assert(r[1] == seg[0]);
        }
    } else if r == p + seq!['/'] + seg {
        assert(slashed(r) =~= sp + seq!['/'] + seg);
        assert(r =~= p.push('/') + seg);
        lemma_tail_after_slash(p, seg);
        if p.len() >= 2 {
            assert(r[0] == p[0] && r[1] == p[1]);
        }
    } else {
        assert(slashed(r) =~= sp + seq!['/'] + seg);
        assert(r =~= p + (seq!['\\'] + seg));
        assert(!(seq!['\\'] + seg).contains('/')) by {
            if (seq!['\\'] + seg).contains('/') {
                let i = choose|i: int| 0 <= i < (seq!['\\'] + seg).len() && (seq!['\\'] + seg)[i] == '/';
                assert(seg[i - 1] == '/');
                assert(seg.contains('/'));
            }
        }
        lemma_tail_extend(p, seq!['\\'] + seg);
        assert(!(tail(p) + (seq!['\\'] + seg)).contains('.')) by {
            let t = tail(p) + (seq!['\\'] + seg);
            if t.contains('.') {
                let i = choose|i: int| 0 <= i < t.len() && t[i] == '.';
                if i < tail(p).len() {
                    assert(tail(p)[i] == '.');
                    assert(tail(p).contains('.'));
                } else if i > tail(p).len() {
                    assert(seg[i - tail(p).len() - 1] == '.');
                    assert(seg.contains('.'));
                }
            }
        }
        if p.len() >= 2 {
            assert(r[0] == p[0] && r[1] == p[1]);
        }
    }
}

/// The `/`- and `.`-separated non-empty segments of `v[from..]`.
fn segments(v: &Vec<char>, from: usize) -> (r: Vec<String>)
    requires
        from <= v@.len(),
    ensures
        strings_view(r@) == pieces(v@.subrange(from as int, v@.len() as int), true),
{
    let ghost s = v@.subrange(from as int, v@.len() as int);
    let mut acc: Vec<String> = Vec::new();
    let mut cur = String::new();
    let mut k = from;
    assert(s.take(0) =~= Seq::<char>::empty());
    while k < v.len()
        invariant
            from <= k <= v@.len(),
            s == v@.subrange(from as int, v@.len() as int),
            (strings_view(acc@), cur@) == piece_state(s.take(k - from), true),
        decreases v@.len() - k,
    {
        assert(s.take(k - from + 1).drop_last() =~= s.take(k - from));
        assert(s.take(k - from + 1).last() == v@[k as int]);
        let c = v[k];
        if c == '.' || c == '/' {
            if cur.unicode_len() > 0 {
                let ghost before = strings_view(acc@);
                let done = cur;
                acc.push(done);
                assert(strings_view(acc@) =~= before.push(done@));
            }
            cur = String::new();
        } else {
            push_char(&mut cur, c);
        }
        k += 1;
    }
    assert(s.take(k - from) =~= s);
    if cur.unicode_len() > 0 {
        let ghost before = strings_view(acc@);
        let ghost cv = cur@;
        acc.push(cur);
        assert(strings_view(acc@) =~= before.push(cv));
    }
    acc
}

/// The `.tsrust` file path that a relative specifier names, seen from directory
/// `from_dir`: one parent step per `../`, then each `/`- or `.`-separated segment
/// joined on, with the `tsrust` extension and `/` separators. `None` for a specifier
/// that is not relative. The path steps follow the platform's path rules; on the
/// inputs every platform reads alike (`resolvable`) the result is `resolve_spec`.
pub fn normalize_rel_path(from_dir: &str, spec: &str) -> (r: Option<String>)
    ensures
        r is Some <==> is_relative(spec@),
        r matches Some(x) ==> !x@.contains('\\'),
        is_relative(spec@) && resolvable(from_dir@, spec@) ==> (r matches Some(x) && x@ == resolve_spec(
            from_dir@,
            spec@,
        )),
{
    proof {
        reveal_strlit("./");
        reveal_strlit("../");
        reveal_strlit("tsrust");
    }
    assert("./"@ =~= dot_slash());
    assert("../"@ =~= dot_dot_slash());
    let v = chars_of(spec);
    let n = v.len();
    if !(matches_at(&v, 0, "./") || matches_at(&v, 0, "../")) {
        return None;
    }
    let ghost fd = from_dir@;
    let ghost sv = spec@;
    let mut base = String::new();
    push_str(&mut base, from_dir);
    let mut pos: usize = 0;
    while matches_at(&v, pos, "../")
        invariant
            n == v@.len(),
            v@ == sv,
            fd == from_dir@,
            pos <= v@.len(),
            "../"@ =~= dot_dot_slash(),
            up_end(sv, 0) == up_end(sv, pos as int),
            plain_path(fd) ==> plain_path(base@) && rel_base(fd, sv) == base_after(fd, sv, pos as int, base@),
        decreases v@.len() - pos,
    {
        let ghost b0 = base@;
        base = match path_parent(base.as_str()) {
            Some(p) => p,
            None => {
                let mut d = String::new();
                push_str(&mut d, from_dir);
                d
            },
        };
        proof {
            if plain_path(fd) {
                if parent_spec(b0) is Some {
                    lemma_parent_plain(b0);
                }
            }
        }
        pos += 3;
    }
    let ghost ue = pos as int;
    if matches_at(&v, pos, "./") {
        pos += 2;
    }
    assert(pos == rest_start(sv));
    let steps = segments(&v, pos);
    let ghost st = rel_steps(sv);
    assert(v@.subrange(pos as int, v@.len() as int) == sv.subrange(rest_start(sv), sv.len() as int));
    assert(strings_view(steps@) == st);
    proof {
        crate::laws::lemma_pieces(sv.subrange(rest_start(sv), sv.len() as int), true);
        if resolvable(fd, sv) {
            lemma_slashed_id(base@);
            lemma_plain_joinable(base@);
        }
    }
    let ghost b = base@;
    let mut p = base;
    let mut k: usize = 0;
    assert(st.take(0) =~= Seq::<Seq<char>>::empty());
    while k < steps.len()
        invariant
            k <= steps@.len(),
            strings_view(steps@) == st,
            st == rel_steps(sv),
            forall|j: int, i: int|
                0 <= j < st.len() && 0 <= i < st[j].len() ==> !crate::paths::is_sep(#[trigger] st[j][i], true),
            resolvable(fd, sv) ==> {
                &&& b == rel_base(fd, sv)
                &&& slashed(p@) == joined(b, st.take(k as int))
                &&& joinable(p@)
                &&& !tail(p@).contains('.')
                &&& (k > 0 ==> p@.len() > 0 && !any_sep(p@.last()))
                &&& (k == 0 ==> p@ == b)
            },
        decreases steps@.len() - k,
    {
        let ghost p0 = p@;
        let ghost sk = steps@[k as int]@;
        assert(sk == st[k as int]);
        p = path_join(p.as_str(), steps[k].as_str());
        proof {
            if resolvable(fd, sv) {
                assert(seg_ok(rel_steps(sv)[k as int]));
                assert(seg_ok(sk));
                assert(!sk.contains('.')) by {
                    if sk.contains('.') {
                        let i = choose|i: int| 0 <= i < sk.len() && sk[i] == '.';
                        assert(!crate::paths::is_sep(st[k as int][i], true));
                    }
                }
                lemma_join_step(p0, sk, p@);
                assert(st.take(k + 1).drop_last() =~= st.take(k as int));
                assert(st.take(k + 1).last() == sk);
            }
        }
        k += 1;
    }
    proof {
        if resolvable(fd, sv) {
            assert(st.take(k as int) =~= st);
            if k == 0 {
                assert(!b.contains('\\'));
                assert(b.contains(b.last()));
            }
            assert(ext_ok(p@));
            lemma_stem_dotless(p@);
        }
    }
    let q = path_set_extension(p.as_str(), "tsrust");
    let out = slashed_string(&q);
    proof {
        lemma_slashed_no_backslash(q@);
        if resolvable(fd, sv) {
            assert(q@ == p@ + seq!['.'] + "tsrust"@);
            assert(slashed(q@) =~= slashed(p@) + seq!['.', 't', 's', 'r', 'u', 's', 't']);
        }
    }
    Some(out)
}

// ----- the export index -----

/// `a` sorts before `b` (`str` order: by characters, a prefix first).
pub open spec fn seq_lt(a: Seq<char>, b: Seq<char>) -> bool
    decreases a.len(),
{
    if a.len() == 0 {
        b.len() > 0
    } else if b.len() == 0 {
        false
    } else if a[0] != b[0] {
        a[0] < b[0]
    } else {
        seq_lt(a.drop_first(), b.drop_first())
    }
}

pub proof fn lemma_seq_lt_trans(a: Seq<char>, b: Seq<char>, c: Seq<char>)
    requires
        seq_lt(a, b),
        seq_lt(b, c),
    ensures
        seq_lt(a, c),
    decreases a.len(),
{
    if a.len() > 0 && b.len() > 0 && c.len() > 0 && a[0] == b[0] && b[0] == c[0] {
        lemma_seq_lt_trans(a.drop_first(), b.drop_first(), c.drop_first());
    }
}

pub proof fn lemma_seq_lt_total(a: Seq<char>, b: Seq<char>)
    ensures
        a != b ==> seq_lt(a, b) || seq_lt(b, a),
        !(seq_lt(a, b) && seq_lt(b, a)),
        !seq_lt(a, a),
    decreases a.len(),
{
    if a.len() > 0 && b.len() > 0 && a[0] == b[0] {
        lemma_seq_lt_total(a.drop_first(), b.drop_first());
        if a.drop_first() == b.drop_first() {
            assert forall|i: int| 0 <= i < a.len() implies a[i] == b[i] by {
                if i > 0 {
                    assert(a[i] == a.drop_first()[i - 1]);
                    assert(b[i] == b.drop_first()[i - 1]);
                }
            }
            assert(a =~= b);
        }
    }
    if a.len() > 0 {
        lemma_seq_lt_total(a.drop_first(), a.drop_first());
    }
    if a.len() == 0 && b.len() == 0 {
        assert(a =~= b);
    }
}

/// Whether `a` sorts before `b`.
pub fn str_less(a: &String, b: &String) -> (r: bool)
    ensures
        r == seq_lt(a@, b@),
{
    let x = chars_of(a.as_str());
    let y = chars_of(b.as_str());
    let mut k: usize = 0;
    assert(x@.skip(0) =~= x@);
    assert(y@.skip(0) =~= y@);
    while k < x.len() && k < y.len() && x[k] == y[k]
        invariant
            k <= x@.len(),
            k <= y@.len(),
            x@ == a@,
            y@ == b@,
            seq_lt(a@, b@) == seq_lt(x@.skip(k as int), y@.skip(k as int)),
        decreases x@.len() - k,
    {
        assert(x@.skip(k as int).drop_first() =~= x@.skip(k + 1));
        assert(y@.skip(k as int).drop_first() =~= y@.skip(k + 1));
        k += 1;
    }
    if k == x.len() {
        return k < y.len();
    }
    if k == y.len() {
        return false;
    }
    x[k] < y[k]
}

/// The exports of each module, by module key (its path below the source root),
/// kept in key order.
#[derive(Debug, Clone)]
pub struct ExportIndex {
    pub per_module: Vec<(String, Vec<String>)>,
}

pub open spec fn index_view(v: Seq<(String, Vec<String>)>) -> Seq<(Seq<char>, Seq<Seq<char>>)> {
    v.map_values(|e: (String, Vec<String>)| (e.0@, strings_view(e.1@)))
}

impl View for ExportIndex {
    type V = Seq<(Seq<char>, Seq<Seq<char>>)>;

    open spec fn view(&self) -> Seq<(Seq<char>, Seq<Seq<char>>)> {
        index_view(self.per_module@)
    }
}

/// Keys strictly increase.
pub open spec fn keys_sorted(v: Seq<(Seq<char>, Seq<Seq<char>>)>) -> bool {
    forall|i: int, j: int| 0 <= i < j < v.len() ==> seq_lt(#[trigger] v[i].0, #[trigger] v[j].0)
}

/// The exports recorded for `key`.
pub open spec fn lookup(v: Seq<(Seq<char>, Seq<Seq<char>>)>, key: Seq<char>) -> Option<Seq<Seq<char>>>
    decreases v.len(),
{
    if v.len() == 0 {
        None
    } else if v[0].0 == key {
        Some(v[0].1)
    } else {
        lookup(v.drop_first(), key)
    }
}

impl ExportIndex {
    /// An empty index.
    pub fn new() -> (r: Self)
        ensures
            r@.len() == 0,
    {
        ExportIndex { per_module: Vec::new() }
    }

    /// Records the exports of module `key`, replacing what was recorded for it.
    pub fn insert(&mut self, key: String, exports: Vec<String>)
        requires
            keys_sorted(old(self)@),
        ensures
            keys_sorted(final(self)@),
            forall|k: Seq<char>| #[trigger] lookup(final(self)@, k) == if k == key@ {
                Some(strings_view(exports@))
            } else {
                lookup(old(self)@, k)
            },
    {
        let ghost v0 = self@;
        let mut i: usize = 0;
        while i < self.per_module.len() && str_less(&self.per_module[i].0, &key)
            invariant
                i <= self.per_module@.len(),
                self@ == v0,
                keys_sorted(v0),
                forall|j: int| 0 <= j < i ==> seq_lt(#[trigger] v0[j].0, key@),
            decreases self.per_module@.len() - i,
        {
            assert(v0[i as int].0 == self.per_module@[i as int].0@);
            i += 1;
        }
        let ghost ev = strings_view(exports@);
        if i < self.per_module.len() && same_text(&self.per_module[i].0, &key) {
            assert(v0[i as int].0 == key@);
            self.per_module.set(i, (key, exports));
            assert(self@ =~= v0.update(i as int, (v0[i as int].0, ev)));
            proof {
                self.lemma_lookup_update(v0, i as int, ev);
            }
        } else {
            let ghost kv = key@;
            proof {
                if i < v0.len() {
                    assert(v0[i as int].0 == self.per_module@[i as int].0@);
                    lemma_seq_lt_total(v0[i as int].0, kv);
                    assert(seq_lt(kv, v0[i as int].0));
                }
                assert forall|j: int| i <= j < v0.len() implies seq_lt(kv, #[trigger] v0[j].0) by {
                    if j > i {
                        lemma_seq_lt_trans(kv, v0[i as int].0, v0[j].0);
                    }
                }
                assert forall|j: int| 0 <= j < v0.len() implies v0[j].0 != kv by {
                    lemma_seq_lt_total(v0[j].0, kv);
                    if j >= i {
                        assert(seq_lt(kv, v0[j].0));
                    } else {
                        assert(seq_lt(v0[j].0, kv));
                    }
                }
            }
            self.per_module.insert(i, (key, exports));
            assert(self@ =~= v0.insert(i as int, (kv, ev)));
            proof {
                assert forall|a: int, b: int| 0 <= a < b < self@.len() implies seq_lt(
                    #[trigger] self@[a].0,
                    #[trigger] self@[b].0,
                ) by {
                    if a < i && b > i {
                        assert(seq_lt(kv, v0[b - 1].0));
                        lemma_seq_lt_trans(v0[a].0, kv, v0[b - 1].0);
                    } else if a == i && b > i {
                        assert(seq_lt(kv, v0[b - 1].0));
                    } else if a < i && b == i {
                    } else if b < i {
                    } else {
                        assert(v0[a - 1].0 == self@[a].0);
                    }
                }
                lemma_lookup_insert(v0, i as int, kv, ev);
            }
        }
    }

    proof fn lemma_lookup_update(&self, v0: Seq<(Seq<char>, Seq<Seq<char>>)>, i: int, ev: Seq<Seq<char>>)
        requires
            keys_sorted(v0),
            0 <= i < v0.len(),
            self@ == v0.update(i, (v0[i].0, ev)),
        ensures
            keys_sorted(self@),
            forall|k: Seq<char>| #[trigger] lookup(self@, k) == if k == v0[i].0 {
                Some(ev)
            } else {
                lookup(v0, k)
            },
    {
        assert forall|k: Seq<char>| #[trigger] lookup(self@, k) == if k == v0[i].0 {
            Some(ev)
        } else {
            lookup(v0, k)
        } by {
            lemma_lookup_update_rec(v0, i, ev, k);
        }
    }
}

proof fn lemma_lookup_update_rec(v0: Seq<(Seq<char>, Seq<Seq<char>>)>, i: int, ev: Seq<Seq<char>>, k: Seq<char>)
    requires
        keys_sorted(v0),
        0 <= i < v0.len(),
    ensures
        lookup(v0.update(i, (v0[i].0, ev)), k) == if k == v0[i].0 {
            Some(ev)
        } else {
            lookup(v0, k)
        },
    decreases v0.len(),
{
    let u = v0.update(i, (v0[i].0, ev));
    if i == 0 {
        if k != v0[0].0 {
            assert(u.drop_first() =~= v0.drop_first());
        }
    } else {
        assert(u.drop_first() =~= v0.drop_first().update(i - 1, (v0[i].0, ev)));
        if k == v0[0].0 {
            lemma_seq_lt_total(v0[0].0, v0[i].0);
        } else {
            lemma_lookup_update_rec(v0.drop_first(), i - 1, ev, k);
        }
    }
}

proof fn lemma_lookup_insert(
    v0: Seq<(Seq<char>, Seq<Seq<char>>)>,
    i: int,
    kv: Seq<char>,
    ev: Seq<Seq<char>>,
)
    requires
        0 <= i <= v0.len(),
        forall|j: int| 0 <= j < v0.len() ==> v0[j].0 != kv,
    ensures
        forall|k: Seq<char>| #[trigger] lookup(v0.insert(i, (kv, ev)), k) == if k == kv {
            Some(ev)
        } else {
            lookup(v0, k)
        },
    decreases v0.len(),
{
    assert forall|k: Seq<char>| #[trigger] lookup(v0.insert(i, (kv, ev)), k) == if k == kv {
        Some(ev)
    } else {
        lookup(v0, k)
    } by {
        lemma_lookup_insert_one(v0, i, kv, ev, k);
    }
}

proof fn lemma_lookup_insert_one(
    v0: Seq<(Seq<char>, Seq<Seq<char>>)>,
    i: int,
    kv: Seq<char>,
    ev: Seq<Seq<char>>,
    k: Seq<char>,
)
    requires
        0 <= i <= v0.len(),
        forall|j: int| 0 <= j < v0.len() ==> v0[j].0 != kv,
    ensures
        lookup(v0.insert(i, (kv, ev)), k) == if k == kv {
            Some(ev)
        } else {
            lookup(v0, k)
        },
    decreases v0.len(),
{
    let w = v0.insert(i, (kv, ev));
    if i == 0 {
        assert(w.drop_first() =~= v0);
        if k == kv {
        } else {
        }
    } else {
        assert(w.drop_first() =~= v0.drop_first().insert(i - 1, (kv, ev)));
        if k != v0[0].0 {
            lemma_lookup_insert_one(v0.drop_first(), i - 1, kv, ev, k);
        }
    }
}

/// The modules (in key order) whose exports include `sym`.
pub open spec fn spec_who_has(v: Seq<(Seq<char>, Seq<Seq<char>>)>, sym: Seq<char>) -> Seq<Seq<char>>
    decreases v.len(),
{
    if v.len() == 0 {
        Seq::empty()
    } else {
        let prev = spec_who_has(v.drop_last(), sym);
        if v.last().1.contains(sym) {
            prev.push(v.last().0)
        } else {
            prev
        }
    }
}

fn contains_name(names: &Vec<String>, sym: &String) -> (r: bool)
    ensures
        r == strings_view(names@).contains(sym@),
{
    let mut k: usize = 0;
    while k < names.len()
        invariant
            k <= names@.len(),
            forall|j: int| 0 <= j < k ==> strings_view(names@)[j] != sym@,
        decreases names@.len() - k,
    {
        if same_text(&names[k], sym) {
            assert(strings_view(names@)[k as int] == sym@);
            return true;
        }
        k += 1;
    }
    false
}

/// The modules exporting `sym`, in key order.
pub fn who_has(idx: &ExportIndex, sym: &String) -> (r: Vec<String>)
    ensures
        strings_view(r@) == spec_who_has(idx@, sym@),
{
    let ghost v = idx@;
    let mut out: Vec<String> = Vec::new();
    let mut k: usize = 0;
    while k < idx.per_module.len()
        invariant
            k <= idx.per_module@.len(),
            v == idx@,
            strings_view(out@) == spec_who_has(v.take(k as int), sym@),
        decreases idx.per_module@.len() - k,
    {
        assert(v.take(k + 1).drop_last() =~= v.take(k as int));
        assert(v.take(k + 1).last() == v[k as int]);
        if contains_name(&idx.per_module[k].1, sym) {
            let ghost before = strings_view(out@);
            out.push(copy_string(&idx.per_module[k].0));
            assert(strings_view(out@) =~= before.push(v[k as int].0));
        }
        k += 1;
    }
    assert(v.take(k as int) =~= v);
    out
}

fn lookup_exports<'a>(idx: &'a ExportIndex, key: &String) -> (r: Option<&'a Vec<String>>)
    ensures
        match lookup(idx@, key@) {
            Some(e) => r matches Some(x) && strings_view(x@) == e,
            None => r is None,
        },
{
    let ghost v = idx@;
    let mut k: usize = 0;
    assert(v.skip(0) =~= v);
    while k < idx.per_module.len()
        invariant
            k <= idx.per_module@.len(),
            v == idx@,
            lookup(v, key@) == lookup(v.skip(k as int), key@),
        decreases idx.per_module@.len() - k,
    {
        assert(v.skip(k as int)[0] == v[k as int]);
        assert(v.skip(k as int).drop_first() =~= v.skip(k + 1));
        if same_text(&idx.per_module[k].0, key) {
            return Some(&idx.per_module[k].1);
        }
        k += 1;
    }
    None
}

// ----- import errors -----

/// The message for `it` imported on line `line_no` but not exported by `spec`,
/// with the modules that do export it (as shown) when there are any.
pub open spec fn import_message(
    file: Seq<char>,
    line_no: nat,
    col: nat,
    it: Seq<char>,
    spec: Seq<char>,
    shown: Seq<Seq<char>>,
) -> Seq<char> {
    file + ":"@ + decimal(line_no) + ":"@ + decimal(col) + ": `"@ + it + "`\nis not exported by \""@ + spec + "\""@
        + if shown.len() == 0 {
        Seq::empty()
    } else {
        "\n        hint: found `"@ + it + "` in "@ + crate::paths::join(shown, ", "@)
    }
}

/// Builds the message of `import_message`.
pub fn import_error_message(
    file: &str,
    line_no: usize,
    col: usize,
    it: &String,
    spec: &String,
    shown: &Vec<String>,
) -> (r: String)
    ensures
        r@ == import_message(file@, line_no as nat, col as nat, it@, spec@, strings_view(shown@)),
{
    let mut msg = String::new();
    push_str(&mut msg, file);
    push_str(&mut msg, ":");
    push_decimal(&mut msg, line_no as u128);
    push_str(&mut msg, ":");
    push_decimal(&mut msg, col as u128);
    push_str(&mut msg, ": `");
    push_str(&mut msg, it.as_str());
    push_str(&mut msg, "`\nis not exported by \"");
    push_str(&mut msg, spec.as_str());
    push_str(&mut msg, "\"");
    let ghost mid = msg@;
    if shown.len() > 0 {
        push_str(&mut msg, "\n        hint: found `");
        push_str(&mut msg, it.as_str());
        push_str(&mut msg, "` in ");
        crate::lowering::push_joined(&mut msg, shown, ", ");
    }
    assert(msg@ =~= import_message(file@, line_no as nat, col as nat, it@, spec@, strings_view(shown@)));
    msg
}

/// All messages joined by a blank line; `Ok` when there are none.
pub open spec fn spec_join_errors(errs: Seq<Seq<char>>) -> Result<(), Seq<char>> {
    if errs.len() == 0 {
        Ok(())
    } else {
        Err(crate::paths::join(errs, "\n\n"@))
    }
}

pub fn join_errors(errs: &Vec<String>) -> (r: Result<(), String>)
    ensures
        match spec_join_errors(strings_view(errs@)) {
            Ok(()) => r is Ok,
            Err(m) => r matches Err(x) && x@ == m,
        },
{
    if errs.len() == 0 {
        return Ok(());
    }
    let mut agg = String::new();
    crate::lowering::push_joined(&mut agg, errs, "\n\n");
    assert(agg@ =~= crate::paths::join(strings_view(errs@), "\n\n"@));
    Err(agg)
}

/// `str::lines`: the pieces between line feeds, a `\r` before a line feed dropped,
/// and no last piece when the text ends with a line feed (or is empty).
pub open spec fn std_lines(s: Seq<char>) -> Seq<Seq<char>> {
    let ps = split_on(s, '\n');
    let body = ps.drop_last().map_values(
        |p: Seq<char>| if p.len() > 0 && p.last() == '\r' {
            p.drop_last()
        } else {
            p
        },
    );
    if ps.last().len() == 0 {
        body
    } else {
        body.push(ps.last())
    }
}

pub fn std_lines_of(s: &str) -> (r: Vec<String>)
    ensures
        strings_view(r@) == std_lines(s@),
{
    let ps = split_at_char(s, '\n');
    let ghost pv = strings_view(ps@);
    proof {
        crate::transpile::lemma_split_on_len(s@, '\n');
    }
    let n = ps.len();
    let mut out: Vec<String> = Vec::new();
    let mut k: usize = 0;
    let ghost f = |p: Seq<char>| if p.len() > 0 && p.last() == '\r' { p.drop_last() } else { p };
    while k + 1 < n
        invariant
            n == ps@.len(),
            n >= 1,
            k < n,
            pv == strings_view(ps@),
            pv == split_on(s@, '\n'),
            f == (|p: Seq<char>| if p.len() > 0 && p.last() == '\r' { p.drop_last() } else { p }),
            strings_view(out@) == pv.drop_last().take(k as int).map_values(f),
        decreases n - k,
    {
        let v = chars_of(ps[k].as_str());
        let line = if v.len() > 0 && v[v.len() - 1] == '\r' {
            crate::text::string_of_range(&v, 0, v.len() - 1)
        } else {
            copy_string(&ps[k])
        };
        assert(pv.drop_last()[k as int] == ps@[k as int]@);
        proof {
            if v@.len() > 0 && v@.last() == '\r' {
                assert(v@.subrange(0, v@.len() - 1) =~= v@.drop_last());
            }
        }
        let ghost before = strings_view(out@);
        out.push(line);
        assert(strings_view(out@) =~= before.push(f(pv.drop_last()[k as int])));
        assert(pv.drop_last().take(k + 1) =~= pv.drop_last().take(k as int).push(pv.drop_last()[k as int]));
        assert(pv.drop_last().take(k + 1).map_values(f) =~= pv.drop_last().take(k as int).map_values(f).push(
            f(pv.drop_last()[k as int]),
        ));
        k += 1;
    }
    assert(pv.drop_last().take(k as int) =~= pv.drop_last());
    assert(pv.last() == ps@[n - 1]@);
    if ps[n - 1].unicode_len() > 0 {
        let ghost before = strings_view(out@);
        out.push(copy_string(&ps[n - 1]));
        assert(strings_view(out@) =~= before.push(pv.last()));
    }
    out
}

/// A `.tsrust` file to check: how it is named in messages, its directory, its text.
#[derive(Debug, Clone)]
pub struct SourceText {
    pub display: String,
    pub dir: String,
    pub text: String,
}

/// The items of `items` not exported by the target (all of them when the target
/// module is unknown), in order.
pub open spec fn missing_items(items: Seq<Seq<char>>, exported: Option<Seq<Seq<char>>>) -> Seq<Seq<char>>
    decreases items.len(),
{
    if items.len() == 0 {
        Seq::empty()
    } else {
        let prev = missing_items(items.drop_last(), exported);
        let it = items.last();
        if exported matches Some(e) && e.contains(it) {
            prev
        } else {
            prev.push(it)
        }
    }
}

/// The messages for missing items `miss`, the `j`-th hinting at `shows[j]`.
pub open spec fn item_messages(
    file: Seq<char>,
    line_no: nat,
    line: Seq<char>,
    miss: Seq<Seq<char>>,
    spec: Seq<char>,
    shows: Seq<Seq<Seq<char>>>,
) -> Seq<Seq<char>>
    decreases miss.len(),
{
    if miss.len() == 0 || shows.len() < miss.len() {
        Seq::empty()
    } else {
        item_messages(file, line_no, line, miss.drop_last(), spec, shows) + seq![
            import_message(
                file,
                line_no,
                spec_find_col(line, miss.last()) as nat,
                miss.last(),
                spec,
                shows[miss.len() - 1],
            ),
        ]
    }
}

/// The relative import on `line`, if any: its items and specifier.
pub open spec fn relative_import(line: Seq<char>) -> Option<(Seq<Seq<char>>, Seq<char>)> {
    match spec_import_items_of_line(line) {
        Some((items, spec)) => if is_relative(spec) {
            Some((items, spec))
        } else {
            None
        },
        None => None,
    }
}

/// The items of `line` that module `key` of the index does not export.
pub open spec fn line_missing(line: Seq<char>, key: Seq<char>, idx: Seq<(Seq<char>, Seq<Seq<char>>)>) -> Seq<Seq<char>> {
    match relative_import(line) {
        Some((items, spec)) => missing_items(items, lookup(idx, key)),
        None => Seq::empty(),
    }
}

/// The messages of `line` (line `line_no`) for target key `key`, hints `shows`.
pub open spec fn line_messages(
    file: Seq<char>,
    line_no: nat,
    line: Seq<char>,
    key: Seq<char>,
    idx: Seq<(Seq<char>, Seq<Seq<char>>)>,
    shows: Seq<Seq<Seq<char>>>,
) -> Seq<Seq<char>> {
    match relative_import(line) {
        Some((items, spec)) => item_messages(file, line_no, line, missing_items(items, lookup(idx, key)), spec, shows),
        None => Seq::empty(),
    }
}

/// How a module exporting a missing item is named in the hint: `./` and its key
/// without the extension.
pub open spec fn hint_name(key: Seq<char>) -> Seq<char> {
    seq!['.', '/'] + ext_spec(key, Seq::empty())
}

/// Each hint list has one module name per module exporting the item, in key
/// order; a key whose file name every platform reads alike (`ext_ok`) is named
/// by `hint_name`.
pub open spec fn shows_fit(
    miss: Seq<Seq<char>>,
    idx: Seq<(Seq<char>, Seq<Seq<char>>)>,
    shows: Seq<Seq<Seq<char>>>,
) -> bool {
    &&& shows.len() == miss.len()
    &&& forall|j: int| 0 <= j < miss.len() ==> #[trigger] shows[j].len() == spec_who_has(idx, miss[j]).len()
    &&& forall|j: int, q: int|
        0 <= j < miss.len() && 0 <= q < shows[j].len() && ext_ok(spec_who_has(idx, miss[j])[q]) ==> #[trigger] shows[j][q]
            == hint_name(spec_who_has(idx, miss[j])[q])
}

/// The messages for the first `n` lines of `lines`, line `i` resolved to `keys[i]`
/// with hints `shows[i]`.
pub open spec fn lines_messages(
    file: Seq<char>,
    lines: Seq<Seq<char>>,
    n: int,
    keys: Seq<Seq<char>>,
    idx: Seq<(Seq<char>, Seq<Seq<char>>)>,
    shows: Seq<Seq<Seq<Seq<char>>>>,
) -> Seq<Seq<char>>
    decreases n,
{
    if n <= 0 {
        Seq::empty()
    } else {
        lines_messages(file, lines, n - 1, keys, idx, shows) + line_messages(
            file,
            (n - 1 + 1) as nat,
            lines[n - 1],
            keys[n - 1],
            idx,
            shows[n - 1],
        )
    }
}

/// Messages for the items of one import line that the target module does not
/// export; `key` is the target module's key and `shows` the hint names.
fn line_import_errors(
    file: &str,
    line_no: usize,
    line: &str,
    items: &Vec<String>,
    spec: &String,
    key: &String,
    idx: &ExportIndex,
    out: &mut Vec<String>,
) -> (shows: Ghost<Seq<Seq<Seq<char>>>>)
    ensures
        shows_fit(missing_items(strings_view(items@), lookup(idx@, key@)), idx@, shows@),
        strings_view(final(out)@) == strings_view(old(out)@) + item_messages(
            file@,
            line_no as nat,
            line@,
            missing_items(strings_view(items@), lookup(idx@, key@)),
            spec@,
            shows@,
        ),
{
    let exported = lookup_exports(idx, key);
    let ghost ev = lookup(idx@, key@);
    let ghost iv = strings_view(items@);
    let ghost start = strings_view(out@);
    let ghost mut shows: Seq<Seq<Seq<char>>> = Seq::empty();
    let mut k: usize = 0;
    while k < items.len()
        invariant
            k <= items@.len(),
            iv == strings_view(items@),
            ev == lookup(idx@, key@),
            match ev {
                Some(e) => exported matches Some(x) && strings_view(x@) == e,
                None => exported is None,
            },
            shows_fit(missing_items(iv.take(k as int), ev), idx@, shows),
            strings_view(out@) == start + item_messages(
                file@,
                line_no as nat,
                line@,
                missing_items(iv.take(k as int), ev),
                spec@,
                shows,
            ),
        decreases items@.len() - k,
    {
        let it = &items[k];
        assert(iv.take(k + 1).drop_last() =~= iv.take(k as int));
        assert(iv.take(k + 1).last() == it@);
        let found = match exported {
            Some(e) => contains_name(e, it),
            None => false,
        };
        if !found {
            let col = find_col(line, it.as_str());
            let cands = who_has(idx, it);
            let ghost cv = strings_view(cands@);
            let mut shown: Vec<String> = Vec::new();
            let mut q: usize = 0;
            proof {
                reveal_strlit("");
                reveal_strlit("./");
            }
            while q < cands.len()
                invariant
                    q <= cands@.len(),
                    cv == strings_view(cands@),
                    shown@.len() == q,
                    ""@ =~= Seq::<char>::empty(),
                    "./"@ =~= seq!['.', '/'],
                    forall|m: int| 0 <= m < q && ext_ok(cv[m]) ==> #[trigger] shown@[m]@ == hint_name(cv[m]),
                decreases cands@.len() - q,
            {
                let mut nm = String::new();
                push_str(&mut nm, "./");
                assert(cv[q as int] == cands@[q as int]@);
                let stem = path_with_extension(cands[q].as_str(), "");
                push_str(&mut nm, stem.as_str());
                shown.push(nm);
                q += 1;
            }
            let msg = import_error_message(file, line_no, col, it, spec, &shown);
            let ghost before = strings_view(out@);
            let ghost miss0 = missing_items(iv.take(k as int), ev);
            out.push(msg);
            proof {
                let miss1 = missing_items(iv.take(k + 1), ev);
                assert(miss1 == miss0.push(it@));
                let sh1 = shows.push(strings_view(shown@));
                assert(miss1.drop_last() =~= miss0);
                assert(sh1.len() == miss1.len());
                assert forall|j: int| 0 <= j < miss1.len() implies #[trigger] sh1[j].len() == spec_who_has(
                    idx@,
                    miss1[j],
                ).len() by {
                    if j < miss0.len() {
                        assert(shows[j].len() == spec_who_has(idx@, miss0[j]).len());
                    }
                }
                assert forall|j: int, q2: int|
                    0 <= j < miss1.len() && 0 <= q2 < sh1[j].len() && ext_ok(spec_who_has(idx@, miss1[j])[q2])
                        implies #[trigger] sh1[j][q2] == hint_name(spec_who_has(idx@, miss1[j])[q2]) by {
                    if j < miss0.len() {
                        assert(sh1[j] == shows[j]);
                        assert(miss1[j] == miss0[j]);
                    } else {
                        assert(miss1[j] == it@);
                        assert(sh1[j] == strings_view(shown@));
                        assert(sh1[j][q2] == shown@[q2]@);
                    }
                }
                lemma_item_messages_prefix(file@, line_no as nat, line@, miss0, spec@, shows, sh1);
                assert(strings_view(out@) =~= before.push(msg@));
                shows = sh1;
            }
        }
        k += 1;
    }
    assert(iv.take(k as int) =~= iv);
    Ghost(shows)
}

proof fn lemma_item_messages_prefix(
    file: Seq<char>,
    line_no: nat,
    line: Seq<char>,
    miss: Seq<Seq<char>>,
    spec: Seq<char>,
    shows: Seq<Seq<Seq<char>>>,
    more: Seq<Seq<Seq<char>>>,
)
    requires
        shows.len() == miss.len(),
        more.len() >= miss.len(),
        forall|j: int| 0 <= j < shows.len() ==> more[j] == shows[j],
    ensures
        item_messages(file, line_no, line, miss, spec, more) == item_messages(file, line_no, line, miss, spec, shows),
    decreases miss.len(),
{
    if miss.len() > 0 {
        lemma_item_messages_prefix(
            file,
            line_no,
            line,
            miss.drop_last(),
            spec,
            shows.drop_last(),
            more,
        );
        lemma_item_messages_prefix(file, line_no, line, miss.drop_last(), spec, shows.drop_last(), shows);
    }
}

/// Each file to check as (name in messages, directory, text).
pub open spec fn files_view(v: Seq<SourceText>) -> Seq<(Seq<char>, Seq<char>, Seq<char>)> {
    v.map_values(|f: SourceText| (f.display@, f.dir@, f.text@))
}

/// The key checked for `line` is the module its relative specifier names from
/// `dir`, wherever that is the same on every platform (`key_determined`).
pub open spec fn line_key_ok(line: Seq<char>, key: Seq<char>, dir: Seq<char>, root: Seq<char>) -> bool {
    match relative_import(line) {
        Some((items, spec)) => key_determined(dir, spec, root) ==> key == target_spec(dir, spec, root),
        None => true,
    }
}

/// Every import line of every file is checked against the module its specifier
/// names from the file's directory (see `line_key_ok`).
pub open spec fn keys_resolved(
    files: Seq<(Seq<char>, Seq<char>, Seq<char>)>,
    keys: Seq<Seq<Seq<char>>>,
    root: Seq<char>,
) -> bool {
    forall|k: int, i: int|
        0 <= k < files.len() && 0 <= i < std_lines(files[k].2).len() ==> line_key_ok(
            std_lines(files[k].2)[i],
            #[trigger] keys[k][i],
            files[k].1,
            root,
        )
}

/// Every line's hints fit its missing items (see `shows_fit`).
pub open spec fn lines_fit(
    lines: Seq<Seq<char>>,
    keys: Seq<Seq<char>>,
    idx: Seq<(Seq<char>, Seq<Seq<char>>)>,
    shows: Seq<Seq<Seq<Seq<char>>>>,
) -> bool {
    &&& keys.len() == lines.len()
    &&& shows.len() == lines.len()
    &&& forall|i: int| 0 <= i < lines.len() ==> shows_fit(line_missing(lines[i], keys[i], idx), idx, #[trigger] shows[i])
}

/// The messages of the first `n` files.
pub open spec fn files_messages(
    files: Seq<(Seq<char>, Seq<char>, Seq<char>)>,
    n: int,
    keys: Seq<Seq<Seq<char>>>,
    idx: Seq<(Seq<char>, Seq<Seq<char>>)>,
    shows: Seq<Seq<Seq<Seq<Seq<char>>>>>,
) -> Seq<Seq<char>>
    decreases n,
{
    if n <= 0 {
        Seq::empty()
    } else {
        let lines = std_lines(files[n - 1].2);
        files_messages(files, n - 1, keys, idx, shows) + lines_messages(
            files[n - 1].0,
            lines,
            lines.len() as int,
            keys[n - 1],
            idx,
            shows[n - 1],
        )
    }
}

pub open spec fn files_fit(
    files: Seq<(Seq<char>, Seq<char>, Seq<char>)>,
    keys: Seq<Seq<Seq<char>>>,
    idx: Seq<(Seq<char>, Seq<Seq<char>>)>,
    shows: Seq<Seq<Seq<Seq<Seq<char>>>>>,
) -> bool {
    &&& keys.len() == files.len()
    &&& shows.len() == files.len()
    &&& forall|k: int| 0 <= k < files.len() ==> lines_fit(std_lines(files[k].2), #[trigger] keys[k], idx, shows[k])
}

proof fn lemma_lines_messages_ext(
    file: Seq<char>,
    lines: Seq<Seq<char>>,
    n: int,
    keys: Seq<Seq<char>>,
    keys2: Seq<Seq<char>>,
    idx: Seq<(Seq<char>, Seq<Seq<char>>)>,
    shows: Seq<Seq<Seq<Seq<char>>>>,
    shows2: Seq<Seq<Seq<Seq<char>>>>,
)
    requires
        n <= keys.len(),
        n <= keys2.len(),
        n <= shows.len(),
        n <= shows2.len(),
        forall|i: int| 0 <= i < n ==> keys[i] == keys2[i] && shows[i] == shows2[i],
    ensures
        lines_messages(file, lines, n, keys, idx, shows) == lines_messages(file, lines, n, keys2, idx, shows2),
    decreases n,
{
    if n > 0 {
        lemma_lines_messages_ext(file, lines, n - 1, keys, keys2, idx, shows, shows2);
    }
}

proof fn lemma_files_messages_ext(
    files: Seq<(Seq<char>, Seq<char>, Seq<char>)>,
    n: int,
    keys: Seq<Seq<Seq<char>>>,
    keys2: Seq<Seq<Seq<char>>>,
    idx: Seq<(Seq<char>, Seq<Seq<char>>)>,
    shows: Seq<Seq<Seq<Seq<Seq<char>>>>>,
    shows2: Seq<Seq<Seq<Seq<Seq<char>>>>>,
)
    requires
        n <= keys.len(),
        n <= keys2.len(),
        n <= shows.len(),
        n <= shows2.len(),
        forall|k: int| 0 <= k < n ==> keys[k] == keys2[k] && shows[k] == shows2[k],
    ensures
        files_messages(files, n, keys, idx, shows) == files_messages(files, n, keys2, idx, shows2),
    decreases n,
{
    if n > 0 {
        lemma_files_messages_ext(files, n - 1, keys, keys2, idx, shows, shows2);
    }
}

/// The inputs on which the key of an imported module is the same on every
/// platform: a relative specifier that resolves alike (`resolvable`) to a plain
/// path, and a plain source root.
pub open spec fn key_determined(dir: Seq<char>, spec: Seq<char>, root: Seq<char>) -> bool {
    is_relative(spec) && resolvable(dir, spec) && plain_path(resolve_spec(dir, spec)) && plain_path(root)
}

/// The key of the module that `spec` names from directory `dir`: its resolved
/// path below `root` when `root` begins it, else the whole resolved path.
pub open spec fn target_spec(dir: Seq<char>, spec: Seq<char>, root: Seq<char>) -> Seq<char> {
    key_spec(resolve_spec(dir, spec), strip_spec(resolve_spec(dir, spec), root))
}

/// The key of the module a relative specifier names, seen from directory `dir`:
/// the resolved path below `src_root` (or the whole path when it is not below it),
/// with `/` separators: `target_spec` wherever every platform resolves it alike
/// (`key_determined`); elsewhere what the platform's path rules gave, made into a
/// key by `key_of`.
fn target_key(dir: &str, spec: &str, src_root: &str) -> (r: String)
    ensures
        exists|path: Seq<char>, stripped: Option<Seq<char>>| r@ == key_spec(path, stripped),
        !r@.contains('\\'),
        key_determined(dir@, spec@, src_root@) ==> r@ == target_spec(dir@, spec@, src_root@),
{
    let abs = match normalize_rel_path(dir, spec) {
        Some(a) => a,
        None => String::new(),
    };
    let stripped = path_strip_prefix(abs.as_str(), src_root);
    let ghost sv: Option<Seq<char>> = match &stripped {
        Some(x) => Some(x@),
        None => None,
    };
    let r = key_of(&abs, stripped);
    assert(r@ == key_spec(abs@, sv));
    r
}

/// Checks that every relative import names items its target module exports.
/// The error lists one message per missing item, separated by blank lines: where
/// it is (`file:line:col`), what is missing and from which specifier, and which
/// modules do export it. Each import is checked against the module its specifier
/// names from the file's directory: exactly the key `target_spec` wherever every
/// platform resolves it alike (`keys_resolved`), else the key the platform's path
/// rules gave; hints name modules by `hint_name` likewise (`shows_fit`).
pub fn validate_imports(src_root: &str, files: &Vec<SourceText>, idx: &ExportIndex) -> (r: Result<(), String>)
    ensures
        exists|keys: Seq<Seq<Seq<char>>>, shows: Seq<Seq<Seq<Seq<Seq<char>>>>>|
            #![trigger files_messages(files_view(files@), files@.len() as int, keys, idx@, shows)]
            {
                &&& files_fit(files_view(files@), keys, idx@, shows)
                &&& keys_resolved(files_view(files@), keys, src_root@)
                &&& match spec_join_errors(files_messages(files_view(files@), files@.len() as int, keys, idx@, shows)) {
                    Ok(()) => r is Ok,
                    Err(m) => r matches Err(x) && x@ == m,
                }
            },
{
    let ghost fv = files_view(files@);
    let ghost mut keys: Seq<Seq<Seq<char>>> = Seq::empty();
    let ghost mut shows: Seq<Seq<Seq<Seq<Seq<char>>>>> = Seq::empty();
    let mut errors: Vec<String> = Vec::new();
    let mut k: usize = 0;
    while k < files.len()
        invariant
            k <= files@.len(),
            fv == files_view(files@),
            keys.len() == k,
            shows.len() == k,
            forall|j: int| 0 <= j < k ==> lines_fit(std_lines(fv[j].2), #[trigger] keys[j], idx@, shows[j]),
            forall|j: int, i: int|
                0 <= j < k && 0 <= i < std_lines(fv[j].2).len() ==> line_key_ok(
                    std_lines(fv[j].2)[i],
                    #[trigger] keys[j][i],
                    fv[j].1,
                    src_root@,
                ),
            strings_view(errors@) == files_messages(fv, k as int, keys, idx@, shows),
        decreases files@.len() - k,
    {
        let f = &files[k];
        assert(fv[k as int] == (f.display@, f.dir@, f.text@));
        let lines = std_lines_of(f.text.as_str());
        let ghost lv = strings_view(lines@);
        let ghost mut lkeys: Seq<Seq<char>> = Seq::empty();
        let ghost mut lshows: Seq<Seq<Seq<Seq<char>>>> = Seq::empty();
        let ghost before = strings_view(errors@);
        let mut i: usize = 0;
        while i < lines.len()
            invariant
                i <= lines@.len(),
                lv == strings_view(lines@),
                lv == std_lines(f.text@),
                lkeys.len() == i,
                lshows.len() == i,
                forall|q: int| 0 <= q < i ==> shows_fit(line_missing(lv[q], lkeys[q], idx@), idx@, #[trigger] lshows[q]),
                forall|q: int| 0 <= q < i ==> line_key_ok(lv[q], #[trigger] lkeys[q], f.dir@, src_root@),
                strings_view(errors@) == before + lines_messages(f.display@, lv, i as int, lkeys, idx@, lshows),
            decreases lines@.len() - i,
        {
            let line = &lines[i];
            assert(lv[i as int] == line@);
            let ghost b2 = strings_view(errors@);
            let ghost mut key_i: Seq<char> = Seq::empty();
            let ghost mut show_i: Seq<Seq<Seq<char>>> = Seq::empty();
            match import_items_of_line(line.as_str()) {
                Some((items, spec)) => {
                    let sv = chars_of(spec.as_str());
                    proof {
                        reveal_strlit("./");
                        reveal_strlit("../");
                    }
                    assert("./"@ =~= dot_slash());
                    assert("../"@ =~= dot_dot_slash());
                    if matches_at(&sv, 0, "./") || matches_at(&sv, 0, "../") {
                        let key = target_key(f.dir.as_str(), spec.as_str(), src_root);
                        let line_no = if i < usize::MAX { i + 1 } else { i };
                        assert(line_no == i + 1) by {
                            assert(i < lines@.len());
                        }
                        let g = line_import_errors(
                            f.display.as_str(),
                            line_no,
                            line.as_str(),
                            &items,
                            &spec,
                            &key,
                            idx,
                            &mut errors,
                        );
                        proof {
                            key_i = key@;
                            show_i = g@;
                        }
                    }
                },
                None => {},
            }
            proof {
                assert(lkeys.push(key_i).len() == i + 1);
                lemma_lines_messages_ext(
                    f.display@,
                    lv,
                    i as int,
                    lkeys,
                    lkeys.push(key_i),
                    idx@,
                    lshows,
                    lshows.push(show_i),
                );
                if relative_import(lv[i as int]) is None {
                    assert(line_messages(f.display@, (i + 1) as nat, lv[i as int], key_i, idx@, show_i) =~= Seq::<Seq<char>>::empty());
                    assert(line_missing(lv[i as int], key_i, idx@) =~= Seq::<Seq<char>>::empty());
                }
                assert(line_key_ok(lv[i as int], key_i, f.dir@, src_root@));
                lkeys = lkeys.push(key_i);
                lshows = lshows.push(show_i);
                assert(strings_view(errors@) =~= before + lines_messages(f.display@, lv, i + 1, lkeys, idx@, lshows));
            }
            i += 1;
        }
        proof {
            lemma_files_messages_ext(fv, k as int, keys, keys.push(lkeys), idx@, shows, shows.push(lshows));
            assert(std_lines(fv[k as int].2) == lv);
            keys = keys.push(lkeys);
            shows = shows.push(lshows);
            assert(strings_view(errors@) =~= files_messages(fv, k + 1, keys, idx@, shows));
        }
        k += 1;
    }
    let r = join_errors(&errors);
    assert(files_fit(fv, keys, idx@, shows));
    assert(keys_resolved(fv, keys, src_root@));
    r
}

} // verus!
