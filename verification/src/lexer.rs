//! Tokenizer for tsrust source text.
use vstd::prelude::*;
use vstd::string::*;
use crate::ast::Span;
use crate::text::{alpha, ascii_at, byte_units, eq_lit, ascii_ws, chars_of, digit, ident_char, is_alpha, is_ascii_ws, is_digit, is_ident_char, push_char, starts_at, string_of_range, units_of};

verus! {

/// Token kinds, generic over the text they carry (`String` at run time, `Seq<char>` in specs).
#[derive(Debug, Clone, PartialEq, Eq)]
pub enum Tok<S> {
    Ident(S),
    Number(S),
    Str(S),
    Import,
    Export,
    From,
    As,
    Function,
    Return,
    Let,
    Const,
    Pub,
    Move,
    LParen,
    RParen,
    LBrace,
    RBrace,
    Comma,
    Colon,
    Semicolon,
    Star,
    Eq,
    Dot,
    Question,
    FatArrow,
}

/// A token kind as produced by the lexer.
pub type TokKind = Tok<String>;

/// Token kind as a specification value.
pub type SpecTok = Tok<Seq<char>>;

impl View for Tok<String> {
    type V = Tok<Seq<char>>;

    open spec fn view(&self) -> Tok<Seq<char>> {
        match self {
            Tok::Ident(s) => Tok::Ident(s@),
            Tok::Number(s) => Tok::Number(s@),
            Tok::Str(s) => Tok::Str(s@),
            Tok::Import => Tok::Import,
            Tok::Export => Tok::Export,
            Tok::From => Tok::From,
            Tok::As => Tok::As,
            Tok::Function => Tok::Function,
            Tok::Return => Tok::Return,
            Tok::Let => Tok::Let,
            Tok::Const => Tok::Const,
            Tok::Pub => Tok::Pub,
            Tok::Move => Tok::Move,
            Tok::LParen => Tok::LParen,
            Tok::RParen => Tok::RParen,
            Tok::LBrace => Tok::LBrace,
            Tok::RBrace => Tok::RBrace,
            Tok::Comma => Tok::Comma,
            Tok::Colon => Tok::Colon,
            Tok::Semicolon => Tok::Semicolon,
            Tok::Star => Tok::Star,
            Tok::Eq => Tok::Eq,
            Tok::Dot => Tok::Dot,
            Tok::Question => Tok::Question,
            Tok::FatArrow => Tok::FatArrow,
        }
    }
}

/// A token with the source range it was read from.
#[derive(Debug, Clone)]
pub struct Token {
    pub kind: TokKind,
    pub span: Span,
}

impl View for Token {
    type V = (SpecTok, Span);

    open spec fn view(&self) -> (SpecTok, Span) {
        (self.kind@, self.span)
    }
}

// ---------------------------------------------------------------------------
// Specification of tokenization, over the units `s` of a source: one character
// per byte of its UTF-8 encoding (see `byte_units`), so that positions are byte
// offsets and a quoted literal keeps each byte as the character of that code.
// ---------------------------------------------------------------------------

/// First position at or after `i` that is not ASCII whitespace.
pub open spec fn ws_end(s: Seq<char>, i: int) -> int
    decreases s.len() - i,
{
    if 0 <= i < s.len() && is_ascii_ws(s[i]) {
        ws_end(s, i + 1)
    } else {
        i
    }
}

/// Position just after the first line feed at or after `i` (or the end of `s`).
pub open spec fn line_end(s: Seq<char>, i: int) -> int
    decreases s.len() - i,
{
    if i < 0 || i >= s.len() {
        i
    } else if s[i] == '\n' {
        i + 1
    } else {
        line_end(s, i + 1)
    }
}

/// Position after a block comment whose body starts at `i`: just past the first `*/`,
/// or, when the comment is not closed, the last character of `s`.
pub open spec fn block_end(s: Seq<char>, i: int) -> int
    decreases s.len() - i,
{
    if 0 <= i && i + 1 < s.len() {
        if s[i] == '*' && s[i + 1] == '/' {
            i + 2
        } else {
            block_end(s, i + 1)
        }
    } else {
        i
    }
}

pub proof fn lemma_ws_end(s: Seq<char>, i: int)
    requires
        0 <= i <= s.len(),
    ensures
        i <= ws_end(s, i) <= s.len(),
        ws_end(s, i) < s.len() ==> !is_ascii_ws(s[ws_end(s, i)]),
    decreases s.len() - i,
{
    if i < s.len() && is_ascii_ws(s[i]) {
        lemma_ws_end(s, i + 1);
    }
}

pub proof fn lemma_line_end(s: Seq<char>, i: int)
    requires
        0 <= i < s.len(),
    ensures
        i < line_end(s, i) <= s.len(),
    decreases s.len() - i,
{
    if s[i] != '\n' {
        if i + 1 < s.len() {
            lemma_line_end(s, i + 1);
        } else {
            assert(line_end(s, i + 1) == i + 1);
        }
    }
}

pub proof fn lemma_block_end(s: Seq<char>, i: int)
    requires
        0 <= i <= s.len(),
    ensures
        i <= block_end(s, i) <= s.len(),
    decreases s.len() - i,
{
    if i + 1 < s.len() && !(s[i] == '*' && s[i + 1] == '/') {
        lemma_block_end(s, i + 1);
    }
}

pub open spec fn slash_slash() -> Seq<char> {
    seq!['/', '/']
}

pub open spec fn slash_star() -> Seq<char> {
    seq!['/', '*']
}

/// Position of the next token candidate at or after `i`: whitespace, `//` line
/// comments and `/* */` block comments are skipped.
pub open spec fn skip_trivia(s: Seq<char>, i: int) -> int
    decreases s.len() - i,
{
    if 0 <= i <= s.len() {
        let j = ws_end(s, i);
        proof {
            lemma_ws_end(s, i);
        }
        if starts_at(s, j, slash_slash()) {
            proof {
                lemma_line_end(s, j);
            }
            skip_trivia(s, line_end(s, j))
        } else if starts_at(s, j, slash_star()) {
            proof {
                lemma_block_end(s, j + 2);
            }
            skip_trivia(s, block_end(s, j + 2))
        } else {
            j
        }
    } else {
        i
    }
}

pub proof fn lemma_skip_trivia(s: Seq<char>, i: int)
    requires
        0 <= i <= s.len(),
    ensures
        i <= skip_trivia(s, i) <= s.len(),
    decreases s.len() - i,
{
    let j = ws_end(s, i);
    lemma_ws_end(s, i);
    if starts_at(s, j, slash_slash()) {
        lemma_line_end(s, j);
        lemma_skip_trivia(s, line_end(s, j));
    } else if starts_at(s, j, slash_star()) {
        lemma_block_end(s, j + 2);
        lemma_skip_trivia(s, block_end(s, j + 2));
    }
}

/// End of the run of identifier characters starting at `i`.
pub open spec fn ident_end(s: Seq<char>, i: int) -> int
    decreases s.len() - i,
{
    if 0 <= i < s.len() && is_ident_char(s[i]) {
        ident_end(s, i + 1)
    } else {
        i
    }
}

/// End of the run of digits and `_` starting at `i`.
pub open spec fn number_end(s: Seq<char>, i: int) -> int
    decreases s.len() - i,
{
    if 0 <= i < s.len() && (is_digit(s[i]) || s[i] == '_') {
        number_end(s, i + 1)
    } else {
        i
    }
}

pub proof fn lemma_run_ends(s: Seq<char>, i: int)
    requires
        0 <= i <= s.len(),
    ensures
        i <= ident_end(s, i) <= s.len(),
        i <= number_end(s, i) <= s.len(),
        forall|k: int| i <= k < ident_end(s, i) ==> is_ident_char(#[trigger] s[k]),
        forall|k: int| i <= k < number_end(s, i) ==> is_digit(#[trigger] s[k]) || s[k] == '_',
    decreases s.len() - i,
{
    if i < s.len() {
        lemma_run_ends(s, i + 1);
    }
}

/// Body of a quoted literal read from `i` with closing quote `q`: the characters read
/// (a backslash takes the next character literally) and the position after the
/// closing quote, or the end of `s` when the literal is not closed.
pub open spec fn str_scan(s: Seq<char>, i: int, q: char, esc: bool, acc: Seq<char>) -> (Seq<char>, int)
    decreases s.len() - i,
{
    if i < 0 || i >= s.len() {
        (acc, i)
    } else if esc {
        str_scan(s, i + 1, q, false, acc.push(s[i]))
    } else if s[i] == '\\' {
        str_scan(s, i + 1, q, true, acc)
    } else if s[i] == q {
        (acc, i + 1)
    } else {
        str_scan(s, i + 1, q, false, acc.push(s[i]))
    }
}

pub proof fn lemma_str_scan(s: Seq<char>, i: int, q: char, esc: bool, acc: Seq<char>)
    requires
        0 <= i <= s.len(),
    ensures
        i <= str_scan(s, i, q, esc, acc).1 <= s.len(),
    decreases s.len() - i,
{
    if i < s.len() {
        lemma_str_scan(s, i + 1, q, false, acc.push(s[i]));
        lemma_str_scan(s, i + 1, q, true, acc);
    }
}

/// The keyword spelled by `w`, or an identifier.
pub open spec fn keyword_or_ident(w: Seq<char>) -> SpecTok {
    if w =~= seq!['i', 'm', 'p', 'o', 'r', 't'] {
        Tok::Import
    } else if w =~= seq!['e', 'x', 'p', 'o', 'r', 't'] {
        Tok::Export
    } else if w =~= seq!['f', 'r', 'o', 'm'] {
        Tok::From
    } else if w =~= seq!['a', 's'] {
        Tok::As
    } else if w =~= seq!['f', 'u', 'n', 'c', 't', 'i', 'o', 'n'] {
        Tok::Function
    } else if w =~= seq!['r', 'e', 't', 'u', 'r', 'n'] {
        Tok::Return
    } else if w =~= seq!['l', 'e', 't'] {
        Tok::Let
    } else if w =~= seq!['c', 'o', 'n', 's', 't'] {
        Tok::Const
    } else if w =~= seq!['p', 'u', 'b'] {
        Tok::Pub
    } else if w =~= seq!['m', 'o', 'v', 'e'] {
        Tok::Move
    } else {
        Tok::Ident(w)
    }
}

/// The single-character punctuation token spelled by `c`, if any.
pub open spec fn punct(c: char) -> Option<SpecTok> {
    if c == '(' {
        Some(Tok::LParen)
    } else if c == ')' {
        Some(Tok::RParen)
    } else if c == '{' {
        Some(Tok::LBrace)
    } else if c == '}' {
        Some(Tok::RBrace)
    } else if c == ',' {
        Some(Tok::Comma)
    } else if c == ':' {
        Some(Tok::Colon)
    } else if c == ';' {
        Some(Tok::Semicolon)
    } else if c == '*' {
        Some(Tok::Star)
    } else if c == '=' {
        Some(Tok::Eq)
    } else if c == '.' {
        Some(Tok::Dot)
    } else if c == '?' {
        Some(Tok::Question)
    } else {
        None
    }
}

pub open spec fn mk_span(a: int, b: int) -> Span {
    Span { start: a as usize, end: b as usize }
}

/// The token read from position `i` and the position after it, or `None` at the end.
/// Characters that start no token are skipped.
pub open spec fn next_tok(s: Seq<char>, i: int) -> Option<((SpecTok, Span), int)>
    decreases s.len() - i,
{
    if 0 <= i <= s.len() {
        let j = skip_trivia(s, i);
        proof {
            lemma_skip_trivia(s, i);
        }
        if j >= s.len() {
            None
        } else {
            let c = s[j];
            if c == '"' || c == '\'' {
                let (body, e) = str_scan(s, j + 1, c, false, Seq::empty());
                Some(((Tok::Str(body), mk_span(j, e)), e))
            } else if c == '=' && j + 1 < s.len() && s[j + 1] == '>' {
                Some(((Tok::FatArrow, mk_span(j, j + 2)), j + 2))
            } else if punct(c) is Some {
                Some(((punct(c).unwrap(), mk_span(j, j + 1)), j + 1))
            } else if is_alpha(c) || c == '_' {
                let e = ident_end(s, j);
                Some(((keyword_or_ident(s.subrange(j, e)), mk_span(j, e)), e))
            } else if is_digit(c) {
                let e = number_end(s, j + 1);
                Some(((Tok::Number(s.subrange(j, e)), mk_span(j, e)), e))
            } else {
                next_tok(s, j + 1)
            }
        }
    } else {
        None
    }
}

pub proof fn lemma_next_tok(s: Seq<char>, i: int)
    requires
        0 <= i <= s.len(),
    ensures
        next_tok(s, i) matches Some((t, e)) ==> i < e <= s.len(),
        s.len() <= usize::MAX ==> (next_tok(s, i) matches Some((t, e)) ==> i <= t.1.start <= t.1.end
            && t.1.end == e),
    decreases s.len() - i,
{
    let j = skip_trivia(s, i);
    lemma_skip_trivia(s, i);
    if j < s.len() {
        let c = s[j];
        lemma_str_scan(s, j + 1, c, false, Seq::empty());
        lemma_run_ends(s, j);
        lemma_run_ends(s, j + 1);
        if !(c == '"' || c == '\'') && !(c == '=' && j + 1 < s.len() && s[j + 1] == '>')
            && !(punct(c) is Some) && !(is_alpha(c) || c == '_') && !is_digit(c) {
            lemma_next_tok(s, j + 1);
        }
    }
}

/// A quoted literal ends at the end of the source or just after its closing quote.
proof fn lemma_str_scan_end(s: Seq<char>, i: int, q: char, esc: bool, acc: Seq<char>)
    requires
        0 <= i <= s.len(),
    ensures
        ({
            let e = str_scan(s, i, q, esc, acc).1;
            e == s.len() || (i < e && s[e - 1] == q)
        }),
    decreases s.len() - i,
{
    if i < s.len() {
        lemma_str_scan_end(s, i + 1, q, false, acc.push(s[i]));
        lemma_str_scan_end(s, i + 1, q, true, acc);
    }
}

/// A token read by `next_tok` starts on an ASCII unit and ends at the end of the
/// source or just after an ASCII unit.
proof fn lemma_next_tok_ascii(s: Seq<char>, i: int)
    requires
        0 <= i <= s.len(),
        s.len() <= usize::MAX,
    ensures
        next_tok(s, i) matches Some((t, e)) ==> ascii_at(s, t.1.start as int) && (t.1.end == s.len()
            || ascii_at(s, t.1.end - 1)),
    decreases s.len() - i,
{
    let j = skip_trivia(s, i);
    lemma_skip_trivia(s, i);
    if j < s.len() {
        let c = s[j];
        if c == '"' || c == '\'' {
            lemma_str_scan_end(s, j + 1, c, false, Seq::empty());
            lemma_str_scan(s, j + 1, c, false, Seq::empty());
        } else if c == '=' && j + 1 < s.len() && s[j + 1] == '>' {
        } else if punct(c) is Some {
        } else if is_alpha(c) || c == '_' {
            lemma_run_ends(s, j);
            lemma_run_ends(s, j + 1);
            assert(ident_end(s, j) == ident_end(s, j + 1));
            let e = ident_end(s, j);
            assert(is_ident_char(s[e - 1]));
        } else if is_digit(c) {
            lemma_run_ends(s, j + 1);
            let e = number_end(s, j + 1);
            if e > j + 1 {
                assert(is_digit(s[e - 1]) || s[e - 1] == '_');
            }
        } else {
            lemma_next_tok_ascii(s, j + 1);
        }
    }
}

/// Every token of `s` from `i` on starts on an ASCII unit and ends at the end of
/// `s` or just after an ASCII unit, so that its range can be cut out of the text.
pub proof fn lemma_token_ascii(s: Seq<char>, i: int)
    requires
        0 <= i <= s.len(),
        s.len() <= usize::MAX,
    ensures
        forall|k: int|
            0 <= k < tokens_from(s, i).len() ==> ascii_at(s, (#[trigger] tokens_from(s, i)[k]).1.start as int)
                && (tokens_from(s, i)[k].1.end == s.len() || ascii_at(s, tokens_from(s, i)[k].1.end - 1)),
    decreases s.len() - i,
{
    lemma_next_tok(s, i);
    lemma_next_tok_ascii(s, i);
    match next_tok(s, i) {
        Some((t, e)) => {
            lemma_token_ascii(s, e);
            let r = tokens_from(s, e);
            assert forall|k: int| 0 <= k < tokens_from(s, i).len() implies ascii_at(
                s,
                (#[trigger] tokens_from(s, i)[k]).1.start as int,
            ) && (tokens_from(s, i)[k].1.end == s.len() || ascii_at(s, tokens_from(s, i)[k].1.end - 1)) by {
                if k > 0 {
                    assert(tokens_from(s, i)[k] == r[k - 1]);
                }
            }
        },
        None => {},
    }
}

/// All tokens of `s` read from position `i` on.
pub open spec fn tokens_from(s: Seq<char>, i: int) -> Seq<(SpecTok, Span)>
    decreases s.len() - i,
{
    if 0 <= i <= s.len() {
        proof {
            lemma_next_tok(s, i);
        }
        match next_tok(s, i) {
            Some((t, e)) => seq![t] + tokens_from(s, e),
            None => Seq::empty(),
        }
    } else {
        Seq::empty()
    }
}

/// Token ranges lie within the source and follow one another.
pub proof fn lemma_token_spans(s: Seq<char>, i: int)
    requires
        0 <= i <= s.len(),
        s.len() <= usize::MAX,
    ensures
        forall|k: int|
            0 <= k < tokens_from(s, i).len() ==> i <= (#[trigger] tokens_from(s, i)[k]).1.start
                <= tokens_from(s, i)[k].1.end <= s.len(),
    decreases s.len() - i,
{
    lemma_next_tok(s, i);
    match next_tok(s, i) {
        Some((t, e)) => {
            lemma_token_spans(s, e);
            let r = tokens_from(s, e);
            assert forall|k: int| 0 <= k < tokens_from(s, i).len() implies i <= (
            #[trigger] tokens_from(s, i)[k]).1.start <= tokens_from(s, i)[k].1.end <= s.len() by {
                if k > 0 {
                    assert(tokens_from(s, i)[k] == r[k - 1]);
                }
            }
        },
        None => {},
    }
}

/// The tokens of the source `s`.
pub open spec fn tokenize_spec(s: Seq<char>) -> Seq<(SpecTok, Span)> {
    tokens_from(s, 0)
}

/// The specification values of a token sequence.
pub open spec fn token_views(v: Seq<Token>) -> Seq<(SpecTok, Span)> {
    v.map_values(|t: Token| t@)
}

/// A lexer over a source text; positions are byte offsets into its UTF-8 encoding.
pub struct Lexer<'a> {
    src: &'a str,
    chars: Vec<char>,
    i: usize,
}

impl<'a> Lexer<'a> {
    /// The units of the source being read (one per byte).
    pub closed spec fn source(&self) -> Seq<char> {
        byte_units(self.src.spec_bytes())
    }

    /// The current read position.
    pub closed spec fn pos(&self) -> int {
        self.i as int
    }

    /// The lexer's characters are those of its source and its position is in range.
    pub closed spec fn wf(&self) -> bool {
        &&& self.chars@ == byte_units(self.src.spec_bytes())
        &&& self.i <= self.chars.len()
    }

    /// A lexer at the start of `src`.
    pub fn new(src: &'a str) -> (l: Self)
        ensures
            l.wf(),
            l.source() == byte_units(src.spec_bytes()),
            l.pos() == 0,
    {
        Lexer { src, chars: units_of(src), i: 0 }
    }

    fn peek(&self) -> (r: Option<char>)
        requires
            self.wf(),
        ensures
            r == (if self.i < self.chars@.len() { Some(self.chars@[self.i as int]) } else { None }),
    {
        if self.i < self.chars.len() {
            Some(self.chars[self.i])
        } else {
            None
        }
    }

    fn bump(&mut self) -> (r: Option<char>)
        requires
            old(self).wf(),
        ensures
            final(self).wf(),
            final(self).src == old(self).src,
            final(self).chars == old(self).chars,
            old(self).i < old(self).chars@.len() ==> r == Some(old(self).chars@[old(self).i as int])
                && final(self).i == old(self).i + 1,
            old(self).i >= old(self).chars@.len() ==> r is None && final(self).i == old(self).i,
    {
        if self.i < self.chars.len() {
            let b = self.chars[self.i];
            self.i += 1;
            Some(b)
        } else {
            None
        }
    }

    fn starts_with(&self, pat: &str) -> (r: bool)
        requires
            self.wf(),
        ensures
            r == starts_at(self.chars@, self.i as int, pat@),
    {
        crate::text::matches_at(&self.chars, self.i, pat)
    }

    fn skip_ws_comments(&mut self)
        requires
            old(self).wf(),
        ensures
            final(self).wf(),
            final(self).src == old(self).src,
            final(self).chars == old(self).chars,
            final(self).i == skip_trivia(old(self).chars@, old(self).i as int),
    {
        let ghost s = self.chars@;
        let ghost target = skip_trivia(s, self.i as int);
        proof {
            reveal_strlit("//");
            reveal_strlit("/*");
        }
        assert("//"@ =~= slash_slash());
        assert("/*"@ =~= slash_star());
        loop
            invariant
                self.wf(),
                self.src == old(self).src,
                self.chars == old(self).chars,
                s == self.chars@,
                skip_trivia(s, self.i as int) == target,
                "//"@ =~= slash_slash(),
                "/*"@ =~= slash_star(),
            ensures
                self.i == target,
            decreases s.len() - self.i,
        {
            let before = self.i;
            while self.i < self.chars.len() && ascii_ws(self.chars[self.i])
                invariant
                    self.wf(),
                    self.src == old(self).src,
                    self.chars == old(self).chars,
                    s == self.chars@,
                    before <= self.i,
                    ws_end(s, before as int) == ws_end(s, self.i as int),
                decreases s.len() - self.i,
            {
                self.i += 1;
            }
            proof {
                lemma_ws_end(s, before as int);
            }
            assert(self.i == ws_end(s, before as int));
            assert(skip_trivia(s, before as int) == if starts_at(s, self.i as int, slash_slash()) {
                skip_trivia(s, line_end(s, self.i as int))
            } else if starts_at(s, self.i as int, slash_star()) {
                skip_trivia(s, block_end(s, self.i + 2))
            } else {
                self.i as int
            });
            if self.starts_with("//") {
                proof {
                    lemma_line_end(s, self.i as int);
                }
                let ghost j = self.i as int;
                loop
                    invariant_except_break
                        line_end(s, j) == line_end(s, self.i as int),
                    invariant
                        self.wf(),
                        self.src == old(self).src,
                        self.chars == old(self).chars,
                        s == self.chars@,
                        j <= self.i,
                    ensures
                        self.i == line_end(s, j),
                    decreases s.len() - self.i,
                {
                    if self.i >= self.chars.len() {
                        break;
                    }
                    let b = self.chars[self.i];
                    self.i += 1;
                    if b == '\n' {
                        break;
                    }
                }
                assert(self.i == line_end(s, j));
                continue;
            }
            if self.starts_with("/*") {
                self.i += 2;
                let ghost j = self.i as int;
                while self.i < self.chars.len() && self.i + 1 < self.chars.len() && !(self.chars[self.i] == '*'
                    && self.chars[self.i + 1] == '/')
                    invariant
                        self.wf(),
                        self.src == old(self).src,
                        self.chars == old(self).chars,
                        s == self.chars@,
                        j <= self.i,
                        block_end(s, j) == block_end(s, self.i as int),
                    decreases s.len() - self.i,
                {
                    self.i += 1;
                }
                if self.i < self.chars.len() && self.i + 1 < self.chars.len() {
                    self.i += 2;
                }
                assert(self.i == block_end(s, j));
                continue;
            }
            if self.i == before {
                break;
            }
        }
    }

    fn ident_or_kw(&mut self) -> (t: Token)
        requires
            old(self).wf(),
            old(self).i < old(self).chars.len(),
        ensures
            final(self).wf(),
            final(self).src == old(self).src,
            final(self).chars == old(self).chars,
            final(self).i == ident_end(old(self).chars@, old(self).i as int),
            t@ == (
                keyword_or_ident(old(self).chars@.subrange(old(self).i as int, final(self).i as int)),
                mk_span(old(self).i as int, final(self).i as int),
            ),
    {
        let ghost s = self.chars@;
        let start = self.i;
        while self.i < self.chars.len() && ident_char(self.chars[self.i])
            invariant
                self.wf(),
                self.src == old(self).src,
                self.chars == old(self).chars,
                s == self.chars@,
                start <= self.i,
                ident_end(s, start as int) == ident_end(s, self.i as int),
            decreases s.len() - self.i,
        {
            self.i += 1;
        }
        let w = string_of_range(&self.chars, start, self.i);
        let kind = keyword_or_ident_exec(w);
        Token { kind, span: Span { start, end: self.i } }
    }

    fn string_lit(&mut self) -> (t: Token)
        requires
            old(self).wf(),
            old(self).i < old(self).chars.len(),
        ensures
            final(self).wf(),
            final(self).src == old(self).src,
            final(self).chars == old(self).chars,
            ({
                let s = old(self).chars@;
                let j = old(self).i as int;
                let (body, e) = str_scan(s, j + 1, s[j], false, Seq::empty());
                &&& final(self).i == e
                &&& t@ == (Tok::Str(body), mk_span(j, e))
            }),
    {
        let ghost s = self.chars@;
        let q = self.chars[self.i];
        self.i += 1;
        let start = self.i - 1;
        let mut out = String::new();
        let mut esc = false;
        let ghost target = str_scan(s, start + 1, q, false, Seq::empty());
        while self.i < self.chars.len()
            invariant_except_break
                str_scan(s, self.i as int, q, esc, out@) == target,
            invariant
                self.wf(),
                self.src == old(self).src,
                self.chars == old(self).chars,
                s == self.chars@,
                start < self.i,
            ensures
                target == (out@, self.i as int),
            decreases s.len() - self.i,
        {
            let b = self.chars[self.i];
            self.i += 1;
            if esc {
                push_char(&mut out, b);
                esc = false;
                continue;
            }
            if b == '\\' {
                esc = true;
                continue;
            }
            if b == q {
                break;
            }
            push_char(&mut out, b);
        }
        Token { kind: Tok::Str(out), span: Span { start, end: self.i } }
    }

    /// Reads the next token; `None` at the end of the source.
    pub fn next_token(&mut self) -> (r: Option<Token>)
        requires
            old(self).wf(),
        ensures
            final(self).wf(),
            final(self).source() == old(self).source(),
            match next_tok(old(self).source(), old(self).pos()) {
                Some((t, e)) => r matches Some(tok) && tok@ == t && final(self).pos() == e,
                None => r is None,
            },
        decreases old(self).source().len() - old(self).pos(),
    {
        let ghost s = self.chars@;
        let ghost i0 = self.i as int;
        self.skip_ws_comments();
        proof {
            lemma_skip_trivia(s, i0);
        }
        let start = self.i;
        let b = match self.peek() {
            Some(b) => b,
            None => return None,
        };
        if b == '"' || b == '\'' {
            return Some(self.string_lit());
        }
        if b == '=' && start + 1 < self.chars.len() && self.chars[start + 1] == '>' {
            self.i += 2;
            return Some(Token { kind: Tok::FatArrow, span: Span { start, end: self.i } });
        }
        let kind = if b == '(' {
            Tok::LParen
        } else if b == ')' {
            Tok::RParen
        } else if b == '{' {
            Tok::LBrace
        } else if b == '}' {
            Tok::RBrace
        } else if b == ',' {
            Tok::Comma
        } else if b == ':' {
            Tok::Colon
        } else if b == ';' {
            Tok::Semicolon
        } else if b == '*' {
            Tok::Star
        } else if b == '=' {
            Tok::Eq
        } else if b == '.' {
            Tok::Dot
        } else if b == '?' {
            Tok::Question
        } else {
            if alpha(b) || b == '_' {
                return Some(self.ident_or_kw());
            }
            if digit(b) {
                let s0 = self.i;
                self.i += 1;
                while self.i < self.chars.len() && (digit(self.chars[self.i]) || self.chars[self.i] == '_')
                    invariant
                        self.wf(),
                        self.src == old(self).src,
                        self.chars == old(self).chars,
                        s == self.chars@,
                        s0 < self.i,
                        number_end(s, s0 + 1) == number_end(s, self.i as int),
                    decreases s.len() - self.i,
                {
                    self.i += 1;
                }
                let text = string_of_range(&self.chars, s0, self.i);
                return Some(Token { kind: Tok::Number(text), span: Span { start: s0, end: self.i } });
            }
            self.i += 1;
            return self.next_token();
        };
        self.i += 1;
        Some(Token { kind, span: Span { start, end: self.i } })
    }

    /// All tokens of the source, in order.
    pub fn tokenize(self) -> (v: Vec<Token>)
        requires
            self.wf(),
        ensures
            token_views(v@) == tokens_from(self.source(), self.pos()),
    {
        let ghost s = self.source();
        let ghost i0 = self.pos();
        let mut me = self;
        let mut v: Vec<Token> = Vec::new();
        loop
            invariant_except_break
                token_views(v@) + tokens_from(s, me.i as int) == tokens_from(s, i0),
            invariant
                me.wf(),
                s == me.chars@,
                s == byte_units(me.src.spec_bytes()),
                0 <= me.i <= s.len(),
            ensures
                token_views(v@) == tokens_from(s, i0),
            decreases s.len() - me.i,
        {
            let ghost before = me.i as int;
            proof {
                lemma_next_tok(s, before);
            }
            match me.next_token() {
                Some(t) => {
                    let ghost tv = t@;
                    let ghost old_v = v@;
                    v.push(t);
                    assert(token_views(v@) =~= token_views(old_v).push(tv));
                    assert(token_views(old_v) + tokens_from(s, before) =~= token_views(v@) + tokens_from(
                        s,
                        me.i as int,
                    ));
                },
                None => {
                    assert(next_tok(s, before) is None);
                    assert(tokens_from(s, before) =~= Seq::<(SpecTok, Span)>::empty());
                    assert(token_views(v@) + Seq::<(SpecTok, Span)>::empty() =~= token_views(v@));
                    break;
                },
            }
        }
        v
    }
}

fn keyword_or_ident_exec(w: String) -> (k: TokKind)
    ensures
        k@ == keyword_or_ident(w@),
{
    let v = chars_of(w.as_str());
    proof {
        reveal_strlit("import");
        reveal_strlit("export");
        reveal_strlit("from");
        reveal_strlit("as");
        reveal_strlit("function");
        reveal_strlit("return");
        reveal_strlit("let");
        reveal_strlit("const");
        reveal_strlit("pub");
        reveal_strlit("move");
    }
    assert("import"@ =~= seq!['i', 'm', 'p', 'o', 'r', 't']);
    assert("export"@ =~= seq!['e', 'x', 'p', 'o', 'r', 't']);
    assert("from"@ =~= seq!['f', 'r', 'o', 'm']);
    assert("as"@ =~= seq!['a', 's']);
    assert("function"@ =~= seq!['f', 'u', 'n', 'c', 't', 'i', 'o', 'n']);
    assert("return"@ =~= seq!['r', 'e', 't', 'u', 'r', 'n']);
    assert("let"@ =~= seq!['l', 'e', 't']);
    assert("const"@ =~= seq!['c', 'o', 'n', 's', 't']);
    assert("pub"@ =~= seq!['p', 'u', 'b']);
    assert("move"@ =~= seq!['m', 'o', 'v', 'e']);
    if eq_lit(&v, "import") {
        Tok::Import
    } else if eq_lit(&v, "export") {
        Tok::Export
    } else if eq_lit(&v, "from") {
        Tok::From
    } else if eq_lit(&v, "as") {
        Tok::As
    } else if eq_lit(&v, "function") {
        Tok::Function
    } else if eq_lit(&v, "return") {
        Tok::Return
    } else if eq_lit(&v, "let") {
        Tok::Let
    } else if eq_lit(&v, "const") {
        Tok::Const
    } else if eq_lit(&v, "pub") {
        Tok::Pub
    } else if eq_lit(&v, "move") {
        Tok::Move
    } else {
        Tok::Ident(w)
    }
}

} // verus!
