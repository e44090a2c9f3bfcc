//! Module-path normalisation: tsrust import specifiers to Rust paths.
use vstd::prelude::*;
use vstd::string::*;
use crate::text::{chars_of, matches_at, push_char, push_str, starts_at};

verus! {

pub open spec fn colons() -> Seq<char> {
    seq![':', ':']
}

pub open spec fn dot_slash() -> Seq<char> {
    seq!['.', '/']
}

pub open spec fn dot_dot_slash() -> Seq<char> {
    seq!['.', '.', '/']
}

/// `s` contains `pat` somewhere.
pub open spec fn contains_seq(s: Seq<char>, pat: Seq<char>) -> bool {
    exists|i: int| 0 <= i && #[trigger] starts_at(s, i, pat)
}

/// Hyphens become underscores.
pub open spec fn underscore(s: Seq<char>) -> Seq<char> {
    s.map_values(|c: char| if c == '-' { '_' } else { c })
}

/// Separator of path segments: `.` always, and `/` when `slash` is set.
pub open spec fn is_sep(c: char, slash: bool) -> bool {
    c == '.' || (slash && c == '/')
}

/// The segments of `s` seen so far and the segment still open, reading `s` left to right.
pub open spec fn piece_state(s: Seq<char>, slash: bool) -> (Seq<Seq<char>>, Seq<char>)
    decreases s.len(),
{
    if s.len() == 0 {
        (Seq::empty(), Seq::empty())
    } else {
        let (acc, cur) = piece_state(s.drop_last(), slash);
        if is_sep(s.last(), slash) {
            (if cur.len() > 0 { acc.push(cur) } else { acc }, Seq::empty())
        } else {
            (acc, cur.push(s.last()))
        }
    }
}

/// The non-empty segments of `s` between separators, in order.
pub open spec fn pieces(s: Seq<char>, slash: bool) -> Seq<Seq<char>> {
    let (acc, cur) = piece_state(s, slash);
    if cur.len() > 0 {
        acc.push(cur)
    } else {
        acc
    }
}

/// `parts.join(sep)`.
pub open spec fn join(parts: Seq<Seq<char>>, sep: Seq<char>) -> Seq<char>
    decreases parts.len(),
{
    if parts.len() == 0 {
        Seq::empty()
    } else if parts.len() == 1 {
        parts[0]
    } else {
        join(parts.drop_last(), sep) + sep + parts.last()
    }
}

pub proof fn lemma_join_push(parts: Seq<Seq<char>>, sep: Seq<char>, p: Seq<char>)
    ensures
        join(parts.push(p), sep) == if parts.len() == 0 {
            p
        } else {
            join(parts, sep) + sep + p
        },
{
    assert(parts.push(p).drop_last() =~= parts);
}

/// Leading `../` steps of `s`, and what follows them.
pub open spec fn strip_parents(s: Seq<char>) -> (nat, Seq<char>)
    decreases s.len(),
{
    if starts_at(s, 0, dot_dot_slash()) {
        let (k, r) = strip_parents(s.skip(3));
        (k + 1, r)
    } else {
        (0, s)
    }
}

/// `crate` followed by `k` times `::super`.
pub open spec fn crate_prefix(k: nat) -> Seq<char>
    decreases k,
{
    if k == 0 {
        seq!['c', 'r', 'a', 't', 'e']
    } else {
        crate_prefix((k - 1) as nat) + seq![':', ':', 's', 'u', 'p', 'e', 'r']
    }
}

/// The Rust path for a tsrust module specifier.
///
/// Specifiers that already hold `::` keep their text, but for each `-`, which becomes
/// `_`. Relative specifiers (`./`, `../`) become `crate` paths with one `super` per
/// `../`, their `/`- and `.`-separated segments joined by `::`. Other dotted
/// specifiers have their `.`-separated segments joined by `::`. Empty segments are
/// dropped and `-` becomes `_` in every segment.
pub open spec fn spec_normalize_path(p: Seq<char>) -> Seq<char> {
    if contains_seq(p, colons()) {
        underscore(p)
    } else if starts_at(p, 0, dot_slash()) || starts_at(p, 0, dot_dot_slash()) {
        let (k, r0) = strip_parents(p);
        let r = if starts_at(r0, 0, dot_slash()) {
            r0.skip(2)
        } else {
            r0
        };
        let parts = pieces(r, true);
        if parts.len() == 0 {
            crate_prefix(k)
        } else {
            crate_prefix(k) + colons() + join(parts.map_values(|q: Seq<char>| underscore(q)), colons())
        }
    } else if p.contains('.') {
        join(pieces(p, false).map_values(|q: Seq<char>| underscore(q)), colons())
    } else {
        underscore(p)
    }
}

pub open spec fn under_spec(c: char) -> char {
    if c == '-' { '_' } else { c }
}

fn under(c: char) -> (r: char)
    ensures
        r == (if c == '-' { '_' } else { c }),
{
    if c == '-' {
        '_'
    } else {
        c
    }
}

/// Appends `join(pieces(v[from..]).map(underscore), "::")` to `out`; returns whether
/// there was at least one piece.
fn push_joined_pieces(out: &mut String, v: &Vec<char>, from: usize, slash: bool) -> (nonempty: bool)
    requires
        from <= v@.len(),
    ensures
        final(out)@ == old(out)@ + join(
            pieces(v@.subrange(from as int, v@.len() as int), slash).map_values(
                |q: Seq<char>| underscore(q),
            ),
            colons(),
        ),
        nonempty == (pieces(v@.subrange(from as int, v@.len() as int), slash).len() > 0),
{
    let ghost start = old(out)@;
    let mut cur = String::new();
    let mut any = false;
    let mut done = String::new();
    let mut i = from;
    let ghost f = |q: Seq<char>| underscore(q);
    while i < v.len()
        invariant
            from <= i <= v@.len(),
            ({
                let (acc, c) = piece_state(v@.subrange(from as int, i as int), slash);
                &&& done@ == join(acc.map_values(f), colons())
                &&& cur@ == underscore(c)
                &&& any == (acc.len() > 0)
            }),
            f == (|q: Seq<char>| underscore(q)),
            *out == *old(out),
        decreases v@.len() - i,
    {
        let ghost pre = v@.subrange(from as int, i as int);
        let ghost (acc, c0) = piece_state(pre, slash);
        let c = v[i];
        assert(v@.subrange(from as int, i + 1).drop_last() =~= pre);
        assert(v@.subrange(from as int, i + 1).last() == c);
        if c == '.' || (slash && c == '/') {
            if cur.unicode_len() > 0 {
                proof {
                    lemma_join_push(acc.map_values(f), colons(), underscore(c0));
                    assert(acc.push(c0).map_values(f) =~= acc.map_values(f).push(f(c0)));
                }
                if any {
                    push_str(&mut done, "::");
                    proof { reveal_strlit("::"); }
                    assert("::"@ =~= colons());
                }
                push_str(&mut done, cur.as_str());
                any = true;
                cur = String::new();
            } else {
                assert(c0.len() == 0);
                cur = String::new();
            }
        } else {
            push_char(&mut cur, under(c));
            assert(underscore(c0.push(c)) =~= underscore(c0).push(if c == '-' { '_' } else { c }));
        }
        i += 1;
    }
    assert(v@.subrange(from as int, i as int) =~= v@.subrange(from as int, v@.len() as int));
    let ghost (acc, c0) = piece_state(v@.subrange(from as int, v@.len() as int), slash);
    if cur.unicode_len() > 0 {
        proof {
            lemma_join_push(acc.map_values(f), colons(), underscore(c0));
            assert(acc.push(c0).map_values(f) =~= acc.map_values(f).push(f(c0)));
        }
        if any {
            push_str(&mut done, "::");
            proof { reveal_strlit("::"); }
            assert("::"@ =~= colons());
        }
        push_str(&mut done, cur.as_str());
        any = true;
    } else {
        assert(c0.len() == 0);
    }
    push_str(out, done.as_str());
    any
}

/// Normalises a module specifier to a Rust path.
pub fn normalize_path(path: &str) -> (r: String)
    ensures
        r@ == spec_normalize_path(path@),
{
    let v = chars_of(path);
    let n = v.len();
    // already a Rust path?
    let mut i: usize = 0;
    while i < n
        invariant
            n == v@.len(),
            v@ == path@,
            i <= n,
            forall|j: int| 0 <= j < i ==> !starts_at(v@, j, colons()),
        decreases n - i,
    {
        if matches_at(&v, i, "::") {
            proof { reveal_strlit("::"); }
            assert("::"@ =~= colons());
            assert(starts_at(path@, i as int, colons()));
            let mut out = String::new();
            let mut q: usize = 0;
            while q < n
                invariant
                    n == v@.len(),
                    v@ == path@,
                    q <= n,
                    out@ == underscore(v@.take(q as int)),
                decreases n - q,
            {
                push_char(&mut out, under(v[q]));
                assert(underscore(v@.take(q + 1)) =~= underscore(v@.take(q as int)).push(under_spec(v@[q as int])));
                q += 1;
            }
            assert(v@.take(n as int) =~= v@);
            return out;
        }
        proof { reveal_strlit("::"); }
        assert("::"@ =~= colons());
        i += 1;
    }
    assert(!contains_seq(path@, colons())) by {
        if contains_seq(path@, colons()) {
            let j = choose|j: int| 0 <= j && #[trigger] starts_at(path@, j, colons());
            assert(j < n);
        }
    }
    proof {
        reveal_strlit("./");
        reveal_strlit("../");
    }
    assert("./"@ =~= dot_slash());
    assert("../"@ =~= dot_dot_slash());
    if matches_at(&v, 0, "./") || matches_at(&v, 0, "../") {
        let mut k: usize = 0;
        let mut pos: usize = 0;
        let mut out = String::from_str("crate");
        proof { reveal_strlit("crate"); }
        assert("crate"@ =~= crate_prefix(0));
        assert(v@.skip(0) =~= v@);
        while matches_at(&v, pos, "../")
            invariant
                v@ == path@,
                n == v@.len(),
                pos <= v@.len(),
                pos == 3 * k,
                "../"@ =~= dot_dot_slash(),
                out@ == crate_prefix(k as nat),
                ({
                    let (k0, r0) = strip_parents(path@);
                    let (k1, r1) = strip_parents(v@.skip(pos as int));
                    k0 == k + k1 && r0 == r1
                }),
            decreases v@.len() - pos,
        {
            assert(pos + 3 <= v@.len());
            proof {
                reveal_strlit("::super");
                assert(v@.skip(pos as int).skip(3) =~= v@.skip(pos + 3));
                assert(v@.skip(pos as int).subrange(0, 3) =~= v@.subrange(pos as int, pos + 3));
            }
            assert("::super"@ =~= seq![':', ':', 's', 'u', 'p', 'e', 'r']);
            push_str(&mut out, "::super");
            k += 1;
            pos += 3;
        }
        assert(!starts_at(v@.skip(pos as int), 0, dot_dot_slash())) by {
            if starts_at(v@.skip(pos as int), 0, dot_dot_slash()) {
                assert(v@.skip(pos as int).subrange(0, 3) =~= v@.subrange(pos as int, pos + 3));
            }
        }
        let ghost r0 = v@.skip(pos as int);
        if matches_at(&v, pos, "./") {
            assert(starts_at(r0, 0, dot_slash())) by {
                assert(r0.subrange(0, 2) =~= v@.subrange(pos as int, pos + 2));
            }
            assert(r0.skip(2) =~= v@.skip(pos + 2));
            pos += 2;
        } else {
            assert(!starts_at(r0, 0, dot_slash())) by {
                if starts_at(r0, 0, dot_slash()) {
                    assert(r0.subrange(0, 2) =~= v@.subrange(pos as int, pos + 2));
                }
            }
        }
        assert(v@.skip(pos as int) =~= v@.subrange(pos as int, v@.len() as int));
        let mut rest = String::new();
        let nonempty = push_joined_pieces(&mut rest, &v, pos, true);
        if nonempty {
            push_str(&mut out, "::");
            proof { reveal_strlit("::"); }
            assert("::"@ =~= colons());
            push_str(&mut out, rest.as_str());
        }
        assert(rest@ =~= Seq::<char>::empty() + rest@);
        out
    } else {
        let mut has_dot = false;
        let mut j: usize = 0;
        while j < n
            invariant
                n == v@.len(),
                j <= n,
                has_dot == (exists|t: int| 0 <= t < j && v@[t] == '.'),
            decreases n - j,
        {
            if v[j] == '.' {
                has_dot = true;
            }
            j += 1;
        }
        assert(has_dot == path@.contains('.'));
        if has_dot {
            let mut out = String::new();
            push_joined_pieces(&mut out, &v, 0, false);
            assert(v@.subrange(0, v@.len() as int) =~= path@);
            assert(out@ =~= Seq::<char>::empty() + out@);
            out
        } else {
            let mut out = String::new();
            let mut t: usize = 0;
            while t < n
                invariant
                    n == v@.len(),
                    t <= n,
                    out@ == underscore(v@.subrange(0, t as int)),
                decreases n - t,
            {
                push_char(&mut out, under(v[t]));
                t += 1;
                assert(underscore(v@.subrange(0, t as int)) =~= out@);
            }
            assert(v@.subrange(0, n as int) =~= path@);
            out
        }
    }
}

} // verus!
