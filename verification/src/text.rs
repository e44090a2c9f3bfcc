//! Character-level helpers shared by the lexer, parser, lowering and rewrites.
//!
//! Text is handled as a sequence of `char`s: inputs are read into `Vec<char>`
//! for random access and results are assembled in `String`s.
use vstd::prelude::*;
use vstd::string::*;
use vstd::utf8::*;

verus! {

broadcast use vstd::utf8::group_utf8_lib;

/// `u8::is_ascii_whitespace`: space, tab, line feed, form feed, carriage return.
pub open spec fn is_ascii_ws(c: char) -> bool {
    c == ' ' || c == '\t' || c == '\n' || c == '\x0C' || c == '\r'
}

/// `char::is_whitespace`: the Unicode `White_Space` property.
pub open spec fn is_ws(c: char) -> bool {
    ('\t' <= c && c <= '\r') || c == ' ' || c == '\u{85}' || c == '\u{a0}' || c == '\u{1680}'
        || ('\u{2000}' <= c && c <= '\u{200a}') || c == '\u{2028}' || c == '\u{2029}'
        || c == '\u{202f}' || c == '\u{205f}' || c == '\u{3000}'
}

pub open spec fn is_digit(c: char) -> bool {
    '0' <= c && c <= '9'
}

pub open spec fn is_alpha(c: char) -> bool {
    ('a' <= c && c <= 'z') || ('A' <= c && c <= 'Z')
}

pub open spec fn is_alnum(c: char) -> bool {
    is_alpha(c) || is_digit(c)
}

/// A character that may continue an identifier: ASCII alphanumeric or `_`.
pub open spec fn is_ident_char(c: char) -> bool {
    is_alnum(c) || c == '_'
}

pub fn ascii_ws(c: char) -> (r: bool)
    ensures
        r == is_ascii_ws(c),
{
    c == ' ' || c == '\t' || c == '\n' || c == '\x0C' || c == '\r'
}

pub fn unicode_ws(c: char) -> (r: bool)
    ensures
        r == is_ws(c),
{
    ('\t' <= c && c <= '\r') || c == ' ' || c == '\u{85}' || c == '\u{a0}' || c == '\u{1680}'
        || ('\u{2000}' <= c && c <= '\u{200a}') || c == '\u{2028}' || c == '\u{2029}'
        || c == '\u{202f}' || c == '\u{205f}' || c == '\u{3000}'
}

pub fn digit(c: char) -> (r: bool)
    ensures
        r == is_digit(c),
{
    '0' <= c && c <= '9'
}

pub fn alpha(c: char) -> (r: bool)
    ensures
        r == is_alpha(c),
{
    ('a' <= c && c <= 'z') || ('A' <= c && c <= 'Z')
}

pub fn alnum(c: char) -> (r: bool)
    ensures
        r == is_alnum(c),
{
    alpha(c) || digit(c)
}

pub fn ident_char(c: char) -> (r: bool)
    ensures
        r == is_ident_char(c),
{
    alnum(c) || c == '_'
}

/// The characters of `s`, in order.
pub fn chars_of(s: &str) -> (v: Vec<char>)
    ensures
        v@ == s@,
{
    let n = s.unicode_len();
    let mut v: Vec<char> = Vec::new();
    let mut i: usize = 0;
    while i < n
        invariant
            n == s@.len(),
            i <= n,
            v@ == s@.subrange(0, i as int),
        decreases n - i,
    {
        v.push(s.get_char(i));
        i += 1;
    }
    assert(v@ =~= s@);
    v
}

/// Each byte of the UTF-8 encoding of `bytes` read as the character with that
/// code (so ASCII text reads as itself and every byte is one position).
pub open spec fn byte_units(bytes: Seq<u8>) -> Seq<char> {
    Seq::new(bytes.len(), |k: int| bytes[k] as char)
}

/// The UTF-8 bytes of `s`, one character per byte (see `byte_units`).
pub fn units_of(s: &str) -> (v: Vec<char>)
    ensures
        v@ == byte_units(s.spec_bytes()),
{
    let b = s.as_bytes();
    let n = b.len();
    let mut v: Vec<char> = Vec::new();
    let mut i: usize = 0;
    while i < n
        invariant
            n == b@.len(),
            b@ == s.spec_bytes(),
            i <= n,
            v@ =~= byte_units(s.spec_bytes()).subrange(0, i as int),
        decreases n - i,
    {
        let c = b[i] as char;
        v.push(c);
        i += 1;
    }
    v
}

/// The bytes that the units `u` stand for.
pub open spec fn unit_bytes(u: Seq<char>) -> Seq<u8> {
    Seq::new(u.len(), |k: int| u[k] as u8)
}

/// Units `a..b` of `s` read back as UTF-8 text.
pub open spec fn unit_text(s: Seq<char>, a: int, b: int) -> Seq<char> {
    decode_utf8(unit_bytes(s.subrange(a, b)))
}

/// Unit `j` of `s` exists and is an ASCII character.
pub open spec fn ascii_at(s: Seq<char>, j: int) -> bool {
    0 <= j < s.len() && (s[j] as u32) < 0x80
}

/// Position `k` of the units `s` is one that text can be cut at: an end, or next
/// to an ASCII unit.
pub open spec fn unit_cut(s: Seq<char>, k: int) -> bool {
    0 <= k <= s.len() && (k == 0 || k == s.len() || ascii_at(s, k) || ascii_at(s, k - 1))
}

pub proof fn lemma_unit_bytes(bytes: Seq<u8>, a: int, b: int)
    requires
        0 <= a <= b <= bytes.len(),
    ensures
        unit_bytes(byte_units(bytes).subrange(a, b)) =~= bytes.subrange(a, b),
        unit_text(byte_units(bytes), a, b) == decode_utf8(bytes.subrange(a, b)),
{
    let u = byte_units(bytes).subrange(a, b);
    assert forall|k: int| 0 <= k < b - a implies unit_bytes(u)[k] == bytes.subrange(a, b)[k] by {
        let x = bytes[a + k];
        assert((x as char) as u8 == x);
    }
    assert(unit_bytes(u) =~= bytes.subrange(a, b));
}

/// In valid UTF-8, the position just after an ASCII byte starts a character.
proof fn lemma_boundary_after_ascii(bytes: Seq<u8>, i: int)
    requires
        valid_utf8(bytes),
        0 < i <= bytes.len(),
        bytes[i - 1] < 0x80,
    ensures
        is_char_boundary(bytes, i),
    decreases bytes.len(),
{
    let l = length_of_first_scalar(bytes);
    let tail = pop_first_scalar(bytes);
    assert(tail.len() == bytes.len() - l);
    if i - l > 0 {
        assert(tail[i - l - 1] == bytes[i - 1]);
        lemma_boundary_after_ascii(tail, i - l);
    } else if i - l == 0 {
        is_char_boundary_start_end_of_seq(tail);
    } else {
        assert(false);
    }
}

/// A cut position of the units of valid UTF-8 bytes is a character boundary.
pub proof fn lemma_unit_cut(bytes: Seq<u8>, k: int)
    requires
        valid_utf8(bytes),
        unit_cut(byte_units(bytes), k),
    ensures
        is_char_boundary(bytes, k),
{
    is_char_boundary_start_end_of_seq(bytes);
    let s = byte_units(bytes);
    if k == 0 || k == bytes.len() {
    } else if ascii_at(s, k) {
        let x = bytes[k];
        assert(((x as char) as u32) < 0x80 ==> x < 0x80);
        is_char_boundary_iff_not_is_continuation_byte(bytes, k);
    } else {
        let x = bytes[k - 1];
        assert(((x as char) as u32) < 0x80 ==> x < 0x80);
        lemma_boundary_after_ascii(bytes, k);
    }
}

/// Cutting the units of `src` at two cut positions gives the text between them.
pub proof fn lemma_unit_slice(src: Seq<char>, a: int, b: int)
    requires
        a <= b,
        unit_cut(byte_units(encode_utf8(src)), a),
        unit_cut(byte_units(encode_utf8(src)), b),
    ensures
        is_char_boundary(encode_utf8(src), a),
        is_char_boundary(encode_utf8(src), b),
        unit_text(byte_units(encode_utf8(src)), a, b) == decode_utf8(encode_utf8(src).subrange(a, b)),
{
    let bytes = encode_utf8(src);
    encode_utf8_valid_utf8(src);
    lemma_unit_cut(bytes, a);
    lemma_unit_cut(bytes, b);
    lemma_unit_bytes(bytes, a, b);
}

/// The byte units of ASCII text are the text itself.
pub proof fn lemma_ascii_units(t: Seq<char>)
    requires
        is_ascii_chars(t),
    ensures
        byte_units(encode_utf8(t)) == t,
{
    is_ascii_chars_encode_utf8(t);
    let u = byte_units(encode_utf8(t));
    assert forall|k: int| 0 <= k < t.len() implies u[k] == t[k] by {
        let c = t[k];
        assert('\0' <= c <= '\u{7f}');
        assert(c as u8 == encode_utf8(t)[k]);
        assert(((c as u8) as char) == c);
    }
    assert(u =~= t);
}

/// Runs `String::push`: the contract claims that `s` gains `c` at its end, as
/// the standard library documents.
#[verifier::external_body]
pub(crate) fn push_char(s: &mut String, c: char)
    ensures
        final(s)@ == old(s)@.push(c),
{
    s.push(c);
}

/// Appends `t` to `s`.
pub fn push_str(s: &mut String, t: &str)
    ensures
        final(s)@ == old(s)@ + t@,
{
    s.append(t);
}

/// Appends the characters `v[a..b]` to `s`.
pub fn push_range(s: &mut String, v: &Vec<char>, a: usize, b: usize)
    requires
        a <= b <= v@.len(),
    ensures
        final(s)@ == old(s)@ + v@.subrange(a as int, b as int),
{
    let mut i = a;
    while i < b
        invariant
            a <= i <= b <= v@.len(),
            s@ == old(s)@ + v@.subrange(a as int, i as int),
        decreases b - i,
    {
        push_char(s, v[i]);
        i += 1;
        assert(s@ =~= old(s)@ + v@.subrange(a as int, i as int));
    }
}

/// A `String` holding the characters `v[a..b]`.
pub fn string_of_range(v: &Vec<char>, a: usize, b: usize) -> (s: String)
    requires
        a <= b <= v@.len(),
    ensures
        s@ == v@.subrange(a as int, b as int),
{
    let mut s = String::new();
    push_range(&mut s, v, a, b);
    assert(s@ =~= v@.subrange(a as int, b as int));
    s
}

/// `s[i..]` starts with `pat`.
pub open spec fn starts_at(s: Seq<char>, i: int, pat: Seq<char>) -> bool {
    0 <= i && i + pat.len() <= s.len() && s.subrange(i, i + pat.len()) =~= pat
}

pub fn matches_at(s: &Vec<char>, i: usize, pat: &str) -> (r: bool)
    ensures
        r == starts_at(s@, i as int, pat@),
{
    let n = pat.unicode_len();
    if i > s.len() || n > s.len() - i {
        return false;
    }
    let mut k: usize = 0;
    while k < n
        invariant
            n == pat@.len(),
            i + n <= s.len(),
            k <= n,
            forall|j: int| 0 <= j < k ==> s@[i + j] == pat@[j],
        decreases n - k,
    {
        if s[i + k] != pat.get_char(k) {
            return false;
        }
        k += 1;
    }
    true
}

/// `s` is exactly `pat`.
pub fn eq_lit(s: &Vec<char>, pat: &str) -> (r: bool)
    ensures
        r == (s@ =~= pat@),
{
    let r = s.len() == pat.unicode_len() && matches_at(s, 0, pat);
    proof {
        if s@.len() == pat@.len() {
            assert(s@.subrange(0, s@.len() as int) =~= s@);
        }
    }
    r
}

/// First position at or after `i` where `pat` occurs in `s`.
pub open spec fn find_from(s: Seq<char>, pat: Seq<char>, i: int) -> Option<int>
    decreases s.len() - i,
{
    if i < 0 || i + pat.len() > s.len() {
        None
    } else if starts_at(s, i, pat) {
        Some(i)
    } else {
        find_from(s, pat, i + 1)
    }
}

pub proof fn lemma_find_from(s: Seq<char>, pat: Seq<char>, i: int)
    requires
        0 <= i,
    ensures
        find_from(s, pat, i) matches Some(k) ==> i <= k && k + pat.len() <= s.len() && starts_at(s, k, pat),
        find_from(s, pat, i) matches Some(k) ==> forall|j: int| i <= j < k ==> !starts_at(s, j, pat),
        find_from(s, pat, i) is None ==> forall|j: int| i <= j ==> !starts_at(s, j, pat),
    decreases s.len() - i,
{
    if i + pat.len() <= s.len() && !starts_at(s, i, pat) {
        lemma_find_from(s, pat, i + 1);
    }
}

/// `find_from` computed.
pub fn find_lit(v: &Vec<char>, from: usize, pat: &str) -> (r: Option<usize>)
    ensures
        match find_from(v@, pat@, from as int) {
            Some(k) => r == Some(k as usize),
            None => r is None,
        },
        r matches Some(k) ==> find_from(v@, pat@, from as int) == Some(k as int),
{
    proof {
        lemma_find_from(v@, pat@, from as int);
    }
    let n = pat.unicode_len();
    let mut i = from;
    while i <= v.len() && n <= v.len() - i
        invariant
            n == pat@.len(),
            from <= i,
            find_from(v@, pat@, from as int) == find_from(v@, pat@, i as int),
        decreases v@.len() + 1 - i,
    {
        if matches_at(v, i, pat) {
            return Some(i);
        }
        i += 1;
    }
    None
}

/// `s` with every non-overlapping occurrence of `pat` (leftmost first) replaced by `rep`.
pub open spec fn replace_all(s: Seq<char>, pat: Seq<char>, rep: Seq<char>) -> Seq<char>
    decreases s.len(),
{
    if s.len() == 0 || pat.len() == 0 {
        s
    } else if starts_at(s, 0, pat) {
        rep + replace_all(s.skip(pat.len() as int), pat, rep)
    } else {
        seq![s[0]] + replace_all(s.drop_first(), pat, rep)
    }
}

/// `replace_all(v, pat, rep)` as a `String`.
pub fn replace_lit(v: &Vec<char>, pat: &str, rep: &str) -> (r: String)
    requires
        pat@.len() > 0,
    ensures
        r@ == replace_all(v@, pat@, rep@),
{
    let n = pat.unicode_len();
    let mut out = String::new();
    let mut i: usize = 0;
    assert(v@.skip(0) =~= v@);
    assert(out@ + replace_all(v@, pat@, rep@) =~= replace_all(v@, pat@, rep@));
    while i < v.len()
        invariant
            n == pat@.len(),
            n > 0,
            i <= v@.len(),
            out@ + replace_all(v@.skip(i as int), pat@, rep@) == replace_all(v@, pat@, rep@),
        decreases v@.len() - i,
    {
        let ghost rest = v@.skip(i as int);
        if matches_at(v, i, pat) {
            assert(starts_at(rest, 0, pat@)) by {
                assert(rest.subrange(0, n as int) =~= v@.subrange(i as int, i + n));
            }
            assert(rest.skip(n as int) =~= v@.skip(i + n));
            push_str(&mut out, rep);
            i += n;
        } else {
            assert(!starts_at(rest, 0, pat@)) by {
                if starts_at(rest, 0, pat@) {
                    assert(rest.subrange(0, n as int) =~= v@.subrange(i as int, i + n));
                }
            }
            assert(rest.drop_first() =~= v@.skip(i + 1));
            push_char(&mut out, v[i]);
            i += 1;
        }
    }
    assert(v@.skip(i as int) =~= Seq::<char>::empty());
    assert(out@ + Seq::<char>::empty() =~= out@);
    out
}

/// Number of leading characters of `s` satisfying `is_ws`.
pub open spec fn lead_ws(s: Seq<char>) -> nat
    decreases s.len(),
{
    if s.len() == 0 {
        0
    } else if is_ws(s[0]) {
        1 + lead_ws(s.drop_first())
    } else {
        0
    }
}

/// Number of trailing characters of `s` satisfying `is_ws`.
pub open spec fn trail_ws(s: Seq<char>) -> nat
    decreases s.len(),
{
    if s.len() == 0 {
        0
    } else if is_ws(s.last()) {
        1 + trail_ws(s.drop_last())
    } else {
        0
    }
}

/// `str::trim`: `s` without leading and trailing whitespace.
pub open spec fn trim(s: Seq<char>) -> Seq<char> {
    let a = lead_ws(s);
    if a == s.len() {
        Seq::empty()
    } else {
        s.subrange(a as int, s.len() - trail_ws(s))
    }
}

/// Bounds of `trim(v[a..b])` within `v`.
pub fn trim_bounds(v: &Vec<char>, a: usize, b: usize) -> (r: (usize, usize))
    requires
        a <= b <= v@.len(),
    ensures
        a <= r.0 <= r.1 <= b,
        v@.subrange(r.0 as int, r.1 as int) == trim(v@.subrange(a as int, b as int)),
{
    let ghost s = v@.subrange(a as int, b as int);
    let mut i = a;
    while i < b && unicode_ws(v[i])
        invariant
            a <= i <= b <= v@.len(),
            s == v@.subrange(a as int, b as int),
            lead_ws(s) == (i - a) + lead_ws(v@.subrange(i as int, b as int)),
        decreases b - i,
    {
        assert(v@.subrange(i as int, b as int).drop_first() =~= v@.subrange(i + 1, b as int));
        i += 1;
    }
    if i == b {
        assert(lead_ws(s) == s.len());
        return (a, a);
    }
    assert(lead_ws(v@.subrange(i as int, b as int)) == 0);
    let mut j = b;
    while j > a && unicode_ws(v[j - 1])
        invariant
            a <= j <= b <= v@.len(),
            s == v@.subrange(a as int, b as int),
            trail_ws(s) == (b - j) + trail_ws(v@.subrange(a as int, j as int)),
        decreases j,
    {
        assert(v@.subrange(a as int, j as int).drop_last() =~= v@.subrange(a as int, j - 1));
        j -= 1;
    }
    assert(trail_ws(v@.subrange(a as int, j as int)) == 0) by {
        if j > a {
        }
    }
    assert(j > i) by {
        // v[i] is not whitespace, so trailing whitespace stops at or after i + 1
        if j <= i {
            lemma_trail_ws_bound(s, (i - a) as int);
        }
    }
    assert(v@.subrange(i as int, j as int) =~= s.subrange(lead_ws(s) as int, s.len() - trail_ws(s)));
    (i, j)
}

/// Trailing whitespace never covers a non-whitespace position.
pub proof fn lemma_trail_ws_bound(s: Seq<char>, k: int)
    requires
        0 <= k < s.len(),
        !is_ws(s[k]),
    ensures
        trail_ws(s) <= s.len() - k - 1,
    decreases s.len(),
{
    if k < s.len() - 1 && is_ws(s.last()) {
        lemma_trail_ws_bound(s.drop_last(), k);
    }
}

/// `trim(v[a..b])` as a new `String`.
pub fn trimmed(v: &Vec<char>, a: usize, b: usize) -> (s: String)
    requires
        a <= b <= v@.len(),
    ensures
        s@ == trim(v@.subrange(a as int, b as int)),
{
    let (x, y) = trim_bounds(v, a, b);
    string_of_range(v, x, y)
}

} // verus!
