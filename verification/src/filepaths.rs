//! File paths as the standard library's `Path` reads them, stated for the paths
//! that every platform reads alike, and the calls into `Path` that the library makes.
use vstd::prelude::*;
use crate::paths::contains_seq;
use crate::text::starts_at;

verus! {

/// A character that separates path components on some platform: `/` everywhere,
/// `\` on Windows.
pub open spec fn any_sep(c: char) -> bool {
    c == '/' || c == '\\'
}

/// The path starts with two separators (a network path on Windows).
pub open spec fn two_sep_start(p: Seq<char>) -> bool {
    p.len() >= 2 && any_sep(p[0]) && any_sep(p[1])
}

pub open spec fn double_slash() -> Seq<char> {
    seq!['/', '/']
}

pub open spec fn slash_dot_slash() -> Seq<char> {
    seq!['/', '.', '/']
}

/// A path that every platform reads alike and whose text is its components: no
/// backslash, no `:` (a Windows drive), no empty component (`//`), no trailing
/// `/` but for the root `/` itself, and no `.` component but a leading one.
pub open spec fn plain_path(p: Seq<char>) -> bool {
    &&& !p.contains('\\')
    &&& !p.contains(':')
    &&& !contains_seq(p, double_slash())
    &&& !contains_seq(p, slash_dot_slash())
    &&& (p.len() > 1 ==> p.last() != '/')
    &&& !(p.len() >= 2 && p[p.len() - 2] == '/' && p.last() == '.')
}

/// The position of the last `/` of `p` before position `k`.
pub open spec fn last_slash(p: Seq<char>, k: int) -> Option<int>
    decreases k,
{
    if k <= 0 {
        None
    } else if p[k - 1] == '/' {
        Some(k - 1)
    } else {
        last_slash(p, k - 1)
    }
}

/// The position of the last `.` of `p` before position `k`.
pub open spec fn last_dot(p: Seq<char>, k: int) -> Option<int>
    decreases k,
{
    if k <= 0 {
        None
    } else if p[k - 1] == '.' {
        Some(k - 1)
    } else {
        last_dot(p, k - 1)
    }
}

/// `Path::parent` of a plain path: the path without its last component (`""` for
/// a relative path of one component, `/` for an absolute one), `None` for the
/// empty path and for the root.
pub open spec fn parent_spec(p: Seq<char>) -> Option<Seq<char>> {
    if p.len() == 0 || p =~= seq!['/'] {
        None
    } else {
        match last_slash(p, p.len() as int) {
            None => Some(Seq::empty()),
            Some(k) => if k == 0 {
                Some(seq!['/'])
            } else {
                Some(p.take(k))
            },
        }
    }
}

/// A component that every platform joins on the same way: not empty, with no
/// separator and no `:`.
pub open spec fn seg_ok(s: Seq<char>) -> bool {
    s.len() > 0 && !s.contains('/') && !s.contains('\\') && !s.contains(':')
}

/// A path that a component can be joined onto alike on every platform (up to the
/// separator written): no `:`, no leading pair of separators, no trailing `\`.
pub open spec fn joinable(b: Seq<char>) -> bool {
    !b.contains(':') && !two_sep_start(b) && !(b.len() > 0 && b.last() == '\\')
}

/// `s` joined onto `b` with `/`: no separator after an empty path or a trailing `/`.
pub open spec fn join1(b: Seq<char>, s: Seq<char>) -> Seq<char> {
    if b.len() == 0 {
        s
    } else if b.last() == '/' {
        b + s
    } else {
        b + seq!['/'] + s
    }
}

/// `Path::strip_prefix` on plain paths: the rest of `p` after the components of
/// `base`, when `base`'s components begin `p`'s.
pub open spec fn strip_spec(p: Seq<char>, base: Seq<char>) -> Option<Seq<char>> {
    if base.len() == 0 {
        Some(p)
    } else if p =~= base {
        Some(Seq::empty())
    } else if base =~= seq!['/'] {
        if p.len() > 0 && p[0] == '/' {
            Some(p.skip(1))
        } else {
            None
        }
    } else if starts_at(p, 0, base.push('/')) {
        Some(p.skip(base.len() + 1int))
    } else {
        None
    }
}

/// Where the last component of `p` starts (after its last `/`).
pub open spec fn tail_start(p: Seq<char>) -> int {
    match last_slash(p, p.len() as int) {
        Some(k) => k + 1,
        None => 0,
    }
}

/// The text after the last `/` of `p`.
pub open spec fn tail(p: Seq<char>) -> Seq<char> {
    p.skip(tail_start(p))
}

/// `p` without the extension of its file name: up to the last `.` of the name,
/// unless that `.` begins the name.
pub open spec fn stem_spec(p: Seq<char>) -> Seq<char> {
    match last_dot(p, p.len() as int) {
        Some(d) => if d > tail_start(p) {
            p.take(d)
        } else {
            p
        },
        None => p,
    }
}

/// What `PathBuf::set_extension(ext)` makes of `p`: the extension replaced, or
/// added, or (for an empty `ext`) removed.
pub open spec fn ext_spec(p: Seq<char>, ext: Seq<char>) -> Seq<char> {
    stem_spec(p) + if ext.len() > 0 {
        seq!['.'] + ext
    } else {
        Seq::empty()
    }
}

/// A path whose file name every platform reads alike: not empty, no `:`, no
/// leading pair of separators, not ending in a separator, and either its last
/// component has no `.` or it holds no backslash and its last component is not
/// `.` or `..`.
pub open spec fn ext_ok(p: Seq<char>) -> bool {
    &&& p.len() > 0
    &&& !p.contains(':')
    &&& !two_sep_start(p)
    &&& !any_sep(p.last())
    &&& (!tail(p).contains('.') || (!p.contains('\\') && !(tail(p) =~= seq!['.']) && !(tail(p) =~= seq!['.', '.'])))
}

/// `Path::extension` of `p`: the text after the last `.` of its file name, none
/// where the name has no `.` or its only `.` begins it.
pub open spec fn extension_spec(p: Seq<char>) -> Option<Seq<char>> {
    match last_dot(p, p.len() as int) {
        Some(d) => if d > tail_start(p) {
            Some(p.skip(d + 1))
        } else {
            None
        },
        None => None,
    }
}

/// `Path::file_stem` of `p`: its file name up to the last `.`, the whole name
/// where it has no `.` or its only `.` begins it.
pub open spec fn file_stem_spec(p: Seq<char>) -> Seq<char> {
    match last_dot(p, p.len() as int) {
        Some(d) => if d > tail_start(p) {
            p.subrange(tail_start(p), d)
        } else {
            tail(p)
        },
        None => tail(p),
    }
}

pub open spec fn opt_string_view(o: Option<String>) -> Option<Seq<char>> {
    match o {
        Some(s) => Some(s@),
        None => None,
    }
}

/// Runs `Path::new(p).parent()`. The contract claims what std documents for plain
/// paths: the path without its final component (`""` for a relative path of one
/// component), `None` for the empty path and a root. Other paths follow each
/// platform's own rules and are not stated.
#[verifier::external_body]
pub(crate) fn path_parent(p: &str) -> (r: Option<String>)
    ensures
        plain_path(p@) ==> opt_string_view(r) == parent_spec(p@),
{
    std::path::Path::new(p).parent().map(|q| q.to_string_lossy().into_owned())
}

/// Runs `Path::new(base).join(seg)`. For a component `seg` with no separator or
/// `:` and a `base` that every platform reads alike, the contract claims what std
/// documents for pushing a relative path: `seg` is appended, after a separator
/// unless `base` is empty or ends in one. Which separator is written (`/`, or `\`
/// on Windows) is the platform's, so either is admitted.
#[verifier::external_body]
pub(crate) fn path_join(base: &str, seg: &str) -> (r: String)
    ensures
        joinable(base@) && seg_ok(seg@) ==> if base@.len() == 0 {
            r@ == seg@
        } else if base@.last() == '/' {
            r@ == base@ + seg@
        } else {
            r@ == base@ + seq!['/'] + seg@ || r@ == base@ + seq!['\\'] + seg@
        },
{
    std::path::Path::new(base).join(seg).to_string_lossy().into_owned()
}

/// Runs `PathBuf::set_extension(ext)` on `p`. It panics on an extension holding
/// a separator, which `requires` leaves out. For paths whose file name every
/// platform reads alike (`ext_ok`) the contract claims what std documents: the
/// file name's extension is replaced, added where it has none, removed for an
/// empty `ext`.
#[verifier::external_body]
pub(crate) fn path_set_extension(p: &str, ext: &str) -> (r: String)
    requires
        !ext@.contains('/'),
        !ext@.contains('\\'),
    ensures
        ext_ok(p@) ==> r@ == ext_spec(p@, ext@),
{
    let mut b = std::path::PathBuf::from(p);
    b.set_extension(ext);
    b.to_string_lossy().into_owned()
}

/// Runs `Path::new(p).strip_prefix(base)`. For plain paths the contract claims
/// what std documents: when `base`'s components begin `p`'s, the rest of `p`
/// (which joined onto `base` gives `p`), else `None`.
#[verifier::external_body]
pub(crate) fn path_strip_prefix(p: &str, base: &str) -> (r: Option<String>)
    ensures
        plain_path(p@) && plain_path(base@) ==> opt_string_view(r) == strip_spec(p@, base@),
{
    std::path::Path::new(p).strip_prefix(base).ok().map(|q| q.to_string_lossy().into_owned())
}

/// Runs `Path::new(p).with_extension(ext)`, which is `set_extension` on a copy:
/// it panics on an extension holding a separator, which `requires` leaves out,
/// and the contract claims the same as `path_set_extension`'s.
#[verifier::external_body]
pub(crate) fn path_with_extension(p: &str, ext: &str) -> (r: String)
    requires
        !ext@.contains('/'),
        !ext@.contains('\\'),
    ensures
        ext_ok(p@) ==> r@ == ext_spec(p@, ext@),
{
    std::path::Path::new(p).with_extension(ext).to_string_lossy().into_owned()
}

/// Runs `Path::new(p).extension()`. For paths whose file name every platform reads
/// alike (`ext_ok`) the contract claims what std documents: the text after the
/// final `.` of the file name, `None` where the name has no `.` or only a leading one.
#[verifier::external_body]
pub(crate) fn path_extension(p: &str) -> (r: Option<String>)
    ensures
        ext_ok(p@) ==> opt_string_view(r) == extension_spec(p@),
{
    std::path::Path::new(p).extension().map(|e| e.to_string_lossy().into_owned())
}

/// Runs `Path::new(p).file_stem()`. For paths whose file name every platform reads
/// alike and that hold no backslash, the contract claims what std documents: the
/// file name before its final `.`, the whole name where it has no `.` or only a
/// leading one.
#[verifier::external_body]
pub(crate) fn path_file_stem(p: &str) -> (r: Option<String>)
    ensures
        ext_ok(p@) && !p@.contains('\\') ==> opt_string_view(r) == Some(file_stem_spec(p@)),
{
    std::path::Path::new(p).file_stem().map(|s| s.to_string_lossy().into_owned())
}

// ----- facts about these specifications -----

pub proof fn lemma_last_slash(p: Seq<char>, k: int)
    requires
        0 <= k <= p.len(),
    ensures
        match last_slash(p, k) {
            Some(j) => 0 <= j < k && p[j] == '/' && forall|m: int| j < m < k ==> #[trigger] p[m] != '/',
            None => forall|m: int| 0 <= m < k ==> #[trigger] p[m] != '/',
        },
    decreases k,
{
    if k > 0 && p[k - 1] != '/' {
        lemma_last_slash(p, k - 1);
    }
}

pub proof fn lemma_last_dot(p: Seq<char>, k: int)
    requires
        0 <= k <= p.len(),
    ensures
        match last_dot(p, k) {
            Some(j) => 0 <= j < k && p[j] == '.',
            None => true,
        },
    decreases k,
{
    if k > 0 && p[k - 1] != '.' {
        lemma_last_dot(p, k - 1);
    }
}

/// Appending text without `/` keeps the last `/`.
pub proof fn lemma_last_slash_append(x: Seq<char>, y: Seq<char>, k: int)
    requires
        !y.contains('/'),
        x.len() <= k <= x.len() + y.len(),
    ensures
        last_slash(x + y, k) == last_slash(x, x.len() as int),
    decreases k,
{
    if k > x.len() {
        assert((x + y)[k - 1] == y[k - 1 - x.len()]);
        lemma_last_slash_append(x, y, k - 1);
    } else {
        lemma_last_slash_same(x, x + y, k);
    }
}

proof fn lemma_last_slash_same(x: Seq<char>, z: Seq<char>, k: int)
    requires
        0 <= k <= x.len(),
        k <= z.len(),
        forall|m: int| 0 <= m < k ==> z[m] == x[m],
    ensures
        last_slash(z, k) == last_slash(x, k),
    decreases k,
{
    if k > 0 {
        lemma_last_slash_same(x, z, k - 1);
    }
}

/// After a `/` and text without `/`, the last component is that text.
pub proof fn lemma_tail_after_slash(x: Seq<char>, s: Seq<char>)
    requires
        !s.contains('/'),
    ensures
        tail(x.push('/') + s) == s,
{
    let xs = x.push('/');
    lemma_last_slash_append(xs, s, (xs + s).len() as int);
    assert(last_slash(xs, xs.len() as int) == Some(x.len() as int));
    assert((xs + s).skip(x.len() + 1int) =~= s);
}

/// Text without `/` extends the last component.
pub proof fn lemma_tail_extend(x: Seq<char>, y: Seq<char>)
    requires
        !y.contains('/'),
    ensures
        tail(x + y) == tail(x) + y,
{
    lemma_last_slash_append(x, y, (x + y).len() as int);
    lemma_last_slash(x, x.len() as int);
    assert((x + y).skip(tail_start(x)) =~= x.skip(tail_start(x)) + y);
}

/// A path without `/` is its own last component.
pub proof fn lemma_tail_no_slash(s: Seq<char>)
    requires
        !s.contains('/'),
    ensures
        tail(s) == s,
{
    lemma_last_slash_append(Seq::empty(), s, s.len() as int);
    assert(Seq::<char>::empty() + s =~= s);
    assert(s.skip(0) =~= s);
}

/// A last component without `.` leaves nothing to strip.
pub proof fn lemma_stem_dotless(p: Seq<char>)
    requires
        !tail(p).contains('.'),
    ensures
        stem_spec(p) == p,
{
    lemma_last_dot(p, p.len() as int);
    lemma_last_slash(p, p.len() as int);
    match last_dot(p, p.len() as int) {
        Some(d) => {
            if d > tail_start(p) {
                assert(tail(p)[d - tail_start(p)] == '.');
            }
        },
        None => {},
    }
}

/// A plain path does not start with two separators.
pub proof fn lemma_plain_joinable(p: Seq<char>)
    requires
        plain_path(p),
    ensures
        joinable(p),
{
    if two_sep_start(p) {
        assert(p[0] != '\\' && p[1] != '\\') by {
            assert(p.contains(p[0]) && p.contains(p[1])) by {
                assert(p[0] == p[0]);
            }
        }
        assert(p.subrange(0, 2) =~= double_slash());
        assert(starts_at(p, 0, double_slash()));
    }
    if p.len() > 0 && p.last() == '\\' {
        assert(p.contains(p[p.len() - 1]));
    }
}

/// The parent of a plain path is plain.
pub proof fn lemma_parent_plain(p: Seq<char>)
    requires
        plain_path(p),
        parent_spec(p) is Some,
    ensures
        plain_path(parent_spec(p).unwrap()),
{
    lemma_last_slash(p, p.len() as int);
    let q = parent_spec(p).unwrap();
    match last_slash(p, p.len() as int) {
        None => {
            assert(q =~= Seq::<char>::empty());
            assert(!contains_seq(q, double_slash()));
            assert(!contains_seq(q, slash_dot_slash()));
        },
        Some(k) => {
            if k == 0 {
                assert(q =~= seq!['/']);
                assert(!contains_seq(q, double_slash()));
                assert(!contains_seq(q, slash_dot_slash()));
            } else {
                assert(q =~= p.take(k));
                assert forall|c: char| q.contains(c) implies p.contains(c) by {
                    let i = choose|i: int| 0 <= i < q.len() && q[i] == c;
                    assert(p[i] == c);
                }
                assert(!contains_seq(q, double_slash())) by {
                    if contains_seq(q, double_slash()) {
                        let i = choose|i: int| 0 <= i && #[trigger] starts_at(q, i, double_slash());
                        assert(p.subrange(i, i + 2) =~= q.subrange(i, i + 2));
                        assert(starts_at(p, i, double_slash()));
                    }
                }
                assert(!contains_seq(q, slash_dot_slash())) by {
                    if contains_seq(q, slash_dot_slash()) {
                        let i = choose|i: int| 0 <= i && #[trigger] starts_at(q, i, slash_dot_slash());
                        assert(p.subrange(i, i + 3) =~= q.subrange(i, i + 3));
                        assert(starts_at(p, i, slash_dot_slash()));
                    }
                }
                // `p[k]` is a `/`, so `p[k - 1]` is not one
                assert(q.last() != '/') by {
                    if p[k - 1] == '/' {
                        assert(p.subrange(k - 1, k + 1) =~= double_slash());
                        assert(starts_at(p, k - 1, double_slash()));
                    }
                }
                assert(!(q.len() >= 2 && q[q.len() - 2] == '/' && q.last() == '.')) by {
                    if q.len() >= 2 && q[q.len() - 2] == '/' && q.last() == '.' {
                        assert(p.subrange(k - 2, k + 1) =~= slash_dot_slash());
                        assert(starts_at(p, k - 2, slash_dot_slash()));
                    }
                }
            }
        },
    }
}

} // verus!
