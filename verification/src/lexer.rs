//! The lexical grammar of Snowflake SQL: a total, lossless tokenizer.

use vstd::prelude::*;
use crate::text::{
    is_space, is_digit, is_word_char, is_space_exec, is_digit_exec, is_word_char_exec,
    collect_chars, push_chars,
};

verus! {

/// The kinds of token.
#[derive(PartialEq, Eq, Structural, Clone, Copy, Debug)]
pub enum TokenKind {
    /// One whitespace character.
    Whitespace,
    /// `-- ...` or `// ...` up to (not including) the end of the line.
    LineComment,
    /// `/* ... */`.
    BlockComment,
    /// An unquoted identifier or keyword.
    Word,
    /// A `"quoted"` identifier.
    QuotedIdent,
    /// A `'string'` literal.
    Str,
    /// A `$$ ... $$` literal.
    DollarStr,
    /// A numeric literal.
    Number,
    /// An operator or punctuation.
    Symbol,
}

/// A token of the model: its kind and its exact text.
pub struct Tok {
    pub kind: TokenKind,
    pub text: Seq<char>,
}

impl TokenKind {
    /// Whitespace or a comment: a token that carries no meaning.
    pub fn is_trivia(&self) -> (b: bool)
        ensures
            b == is_trivia_kind(*self),
    {
        match self {
            TokenKind::Whitespace => true,
            TokenKind::LineComment => true,
            TokenKind::BlockComment => true,
            _ => false,
        }
    }

    pub fn is_comment(&self) -> (b: bool)
        ensures
            b == is_comment_kind(*self),
    {
        match self {
            TokenKind::LineComment => true,
            TokenKind::BlockComment => true,
            _ => false,
        }
    }
}

pub open spec fn is_trivia_kind(k: TokenKind) -> bool {
    k == TokenKind::Whitespace || k == TokenKind::LineComment || k == TokenKind::BlockComment
}

pub open spec fn is_comment_kind(k: TokenKind) -> bool {
    k == TokenKind::LineComment || k == TokenKind::BlockComment
}

/// End of the run of word characters from `i`.
pub open spec fn word_end(s: Seq<char>, i: int) -> int
    decreases s.len() - i,
{
    if 0 <= i < s.len() && is_word_char(s[i]) {
        word_end(s, i + 1)
    } else {
        i
    }
}

pub open spec fn is_number_char(c: char) -> bool {
    is_word_char(c) || c == '.'
}

/// The sign of an exponent, as in `1e-5`: `+` or `-` right after `e` or `E`
/// and right before a digit.
pub open spec fn exp_sign(s: Seq<char>, i: int) -> bool {
    &&& 1 <= i && i + 1 < s.len()
    &&& s[i] == '+' || s[i] == '-'
    &&& s[i - 1] == 'e' || s[i - 1] == 'E'
    &&& is_digit(s[i + 1])
}

/// The number that has reached `i` goes on at `i`.
pub open spec fn number_goes_on(s: Seq<char>, i: int) -> bool {
    0 <= i < s.len() && (is_number_char(s[i]) || exp_sign(s, i))
}

/// End of the number whose characters run from `i`.
pub open spec fn number_end(s: Seq<char>, i: int) -> int
    decreases s.len() - i,
{
    if number_goes_on(s, i) {
        number_end(s, i + 1)
    } else {
        i
    }
}

/// End of the line from `i` (the line break is not included).
pub open spec fn line_end(s: Seq<char>, i: int) -> int
    decreases s.len() - i,
{
    if 0 <= i < s.len() && s[i] != '\n' {
        line_end(s, i + 1)
    } else {
        i
    }
}

/// End of a text closed by the two characters `a` `b` (searched from `i`).
pub open spec fn pair_end(s: Seq<char>, i: int, a: char, b: char) -> Option<int>
    decreases s.len() - i,
{
    if 0 <= i && i + 1 < s.len() {
        if s[i] == a && s[i + 1] == b {
            Some(i + 2)
        } else {
            pair_end(s, i + 1, a, b)
        }
    } else {
        None
    }
}

/// End of a quoted text whose closing quote `q` is escaped by doubling it;
/// when `backslash` holds, `\` also escapes the character after it.
pub open spec fn quoted_end(s: Seq<char>, i: int, q: char, backslash: bool) -> Option<int>
    decreases s.len() - i,
{
    if 0 <= i < s.len() {
        if backslash && s[i] == '\\' {
            if i + 1 < s.len() {
                quoted_end(s, i + 2, q, backslash)
            } else {
                None
            }
        } else if s[i] == q {
            if i + 1 < s.len() && s[i + 1] == q {
                quoted_end(s, i + 2, q, backslash)
            } else {
                Some(i + 1)
            }
        } else {
            quoted_end(s, i + 1, q, backslash)
        }
    } else {
        None
    }
}

/// Two-character operators.
pub open spec fn two_op(a: char, b: char) -> bool {
    ||| a == '=' && b == '>'
    ||| a == '-' && b == '>'
    ||| a == ':' && b == ':'
    ||| a == '<' && (b == '=' || b == '>')
    ||| a == '>' && b == '='
    ||| a == '!' && b == '='
    ||| a == '|' && b == '|'
}

/// Length of the operator or punctuation at the start of `s`.
pub open spec fn symbol_len(s: Seq<char>) -> int {
    if s.len() >= 3 && s[0] == '-' && s[1] == '>' && s[2] == '>' {
        3
    } else if s.len() >= 2 && two_op(s[0], s[1]) {
        2
    } else {
        1
    }
}

pub open spec fn starts_line_comment(s: Seq<char>) -> bool {
    s.len() >= 2 && ((s[0] == '-' && s[1] == '-') || (s[0] == '/' && s[1] == '/'))
}

pub open spec fn starts_block_comment(s: Seq<char>) -> bool {
    s.len() >= 2 && s[0] == '/' && s[1] == '*'
}

pub open spec fn starts_dollar(s: Seq<char>) -> bool {
    s.len() >= 2 && s[0] == '$' && s[1] == '$'
}

pub open spec fn with_kind(k: TokenKind, e: Option<int>) -> Option<(TokenKind, int)> {
    match e {
        Some(n) => Some((k, n)),
        None => None,
    }
}

/// The token at the start of `s`: its kind and its length, or `None` where a
/// quoted text or block comment is never closed.
pub open spec fn scan(s: Seq<char>) -> Option<(TokenKind, int)> {
    if s.len() == 0 {
        None
    } else if is_space(s[0]) {
        Some((TokenKind::Whitespace, 1))
    } else if starts_line_comment(s) {
        Some((TokenKind::LineComment, line_end(s, 2)))
    } else if starts_block_comment(s) {
        with_kind(TokenKind::BlockComment, pair_end(s, 2, '*', '/'))
    } else if s[0] == '\'' {
        with_kind(TokenKind::Str, quoted_end(s, 1, '\'', true))
    } else if s[0] == '"' {
        with_kind(TokenKind::QuotedIdent, quoted_end(s, 1, '"', false))
    } else if starts_dollar(s) {
        with_kind(TokenKind::DollarStr, pair_end(s, 2, '$', '$'))
    } else if is_digit(s[0]) {
        Some((TokenKind::Number, number_end(s, 1)))
    } else if is_word_char(s[0]) {
        Some((TokenKind::Word, word_end(s, 1)))
    } else {
        Some((TokenKind::Symbol, symbol_len(s)))
    }
}

/// The tokens of `s`, in order, or `None` where some token is never closed.
pub open spec fn lex(s: Seq<char>) -> Option<Seq<Tok>>
    decreases s.len(),
{
    if s.len() == 0 {
        Some(Seq::empty())
    } else {
        match scan(s) {
            Some((k, n)) => if 0 < n <= s.len() {
                match lex(s.skip(n)) {
                    Some(rest) => Some(seq![Tok { kind: k, text: s.take(n) }] + rest),
                    None => None,
                }
            } else {
                None
            },
            None => None,
        }
    }
}

// ---------------------------------------------------------------------------
// Bounds of the scanning functions.

proof fn lemma_word_end_bounds(s: Seq<char>, i: int)
    requires
        0 <= i <= s.len(),
    ensures
        i <= word_end(s, i) <= s.len(),
    decreases s.len() - i,
{
    if i < s.len() && is_word_char(s[i]) {
        lemma_word_end_bounds(s, i + 1);
    }
}

proof fn lemma_number_end_bounds(s: Seq<char>, i: int)
    requires
        0 <= i <= s.len(),
    ensures
        i <= number_end(s, i) <= s.len(),
    decreases s.len() - i,
{
    if number_goes_on(s, i) {
        lemma_number_end_bounds(s, i + 1);
    }
}

proof fn lemma_line_end_bounds(s: Seq<char>, i: int)
    requires
        0 <= i <= s.len(),
    ensures
        i <= line_end(s, i) <= s.len(),
    decreases s.len() - i,
{
    if i < s.len() && s[i] != '\n' {
        lemma_line_end_bounds(s, i + 1);
    }
}

proof fn lemma_pair_end_bounds(s: Seq<char>, i: int, a: char, b: char)
    requires
        0 <= i,
    ensures
        pair_end(s, i, a, b) matches Some(e) ==> i + 2 <= e <= s.len(),
    decreases s.len() - i,
{
    if 0 <= i && i + 1 < s.len() && !(s[i] == a && s[i + 1] == b) {
        lemma_pair_end_bounds(s, i + 1, a, b);
    }
}

proof fn lemma_quoted_end_bounds(s: Seq<char>, i: int, q: char, bs: bool)
    requires
        0 <= i,
    ensures
        quoted_end(s, i, q, bs) matches Some(e) ==> i + 1 <= e <= s.len(),
    decreases s.len() - i,
{
    if 0 <= i < s.len() {
        if bs && s[i] == '\\' {
            if i + 1 < s.len() {
                lemma_quoted_end_bounds(s, i + 2, q, bs);
            }
        } else if s[i] == q {
            if i + 1 < s.len() && s[i + 1] == q {
                lemma_quoted_end_bounds(s, i + 2, q, bs);
            }
        } else {
            lemma_quoted_end_bounds(s, i + 1, q, bs);
        }
    }
}

/// A token is never empty and never runs past the text.
pub proof fn lemma_scan_bounds(s: Seq<char>)
    ensures
        scan(s) matches Some((k, n)) ==> 0 < n <= s.len(),
{
    if s.len() > 0 {
        lemma_word_end_bounds(s, 1);
        lemma_number_end_bounds(s, 1);
        if s.len() >= 2 {
            lemma_line_end_bounds(s, 2);
        }
        lemma_pair_end_bounds(s, 2, '*', '/');
        lemma_pair_end_bounds(s, 2, '$', '$');
        lemma_quoted_end_bounds(s, 1, '\'', true);
        lemma_quoted_end_bounds(s, 1, '"', false);
    }
}

// ---------------------------------------------------------------------------
// Where a token ends depends only on its own text and the character after it.

/// The character `c` cannot continue a token of kind `k` whose text is `text`.
pub open spec fn stops(k: TokenKind, text: Seq<char>, c: char) -> bool {
    match k {
        TokenKind::Whitespace => true,
        TokenKind::LineComment => c == '\n',
        TokenKind::BlockComment => true,
        TokenKind::DollarStr => true,
        TokenKind::Str => c != '\'',
        TokenKind::QuotedIdent => c != '"',
        TokenKind::Number => !is_number_char(c) && !((c == '+' || c == '-') && text.len() > 0 && (
        text.last() == 'e' || text.last() == 'E')),
        TokenKind::Word => !is_word_char(c),
        TokenKind::Symbol => symbol_stops(text, c),
    }
}

/// `c` cannot extend the operator `text`, nor turn it into a comment.
pub open spec fn symbol_stops(text: Seq<char>, c: char) -> bool {
    &&& !(text.len() == 1 && two_op(text[0], c))
    &&& !(text.len() == 2 && text[0] == '-' && text[1] == '>' && c == '>')
    &&& !(text.len() == 1 && text[0] == '-' && c == '-')
    &&& !(text.len() == 1 && text[0] == '/' && (c == '/' || c == '*'))
}

/// `s2` starts with the first `n` characters of `s1`, and what follows them in
/// `s2` (if anything) cannot continue the token.
pub open spec fn continues_same(s1: Seq<char>, s2: Seq<char>, k: TokenKind, n: int) -> bool {
    &&& 0 <= n <= s1.len()
    &&& n <= s2.len()
    &&& s2.take(n) == s1.take(n)
    &&& n < s2.len() ==> stops(k, s1.take(n), s2[n])
}

proof fn lemma_word_end_stable(s1: Seq<char>, s2: Seq<char>, i: int)
    requires
        0 <= i <= s1.len(),
        word_end(s1, i) <= s2.len(),
        forall|j: int| i <= j < word_end(s1, i) ==> s2[j] == s1[j],
        word_end(s1, i) < s2.len() ==> !is_word_char(s2[word_end(s1, i)]),
        word_end(s1, i) < s1.len() || i <= s1.len(),
    ensures
        word_end(s2, i) == word_end(s1, i),
    decreases s1.len() - i,
{
    lemma_word_end_bounds(s1, i);
    if i < s1.len() && is_word_char(s1[i]) {
        lemma_word_end_stable(s1, s2, i + 1);
    }
}

proof fn lemma_number_end_stable(s1: Seq<char>, s2: Seq<char>, i: int)
    requires
        1 <= i <= s1.len(),
        number_end(s1, i) <= s2.len(),
        forall|j: int| 0 <= j < number_end(s1, i) ==> s2[j] == s1[j],
        number_end(s1, i) < s2.len() ==> !is_number_char(s2[number_end(s1, i)]) && !((s2[number_end(
            s1,
            i,
        )] == '+' || s2[number_end(s1, i)] == '-') && (s1[number_end(s1, i) - 1] == 'e' || s1[number_end(
            s1,
            i,
        ) - 1] == 'E')),
    ensures
        number_end(s2, i) == number_end(s1, i),
    decreases s1.len() - i,
{
    lemma_number_end_bounds(s1, i);
    if number_goes_on(s1, i) {
        lemma_number_end_bounds(s1, i + 1);
        if exp_sign(s1, i) {
            // The digit after the sign belongs to the number too.
            assert(number_goes_on(s1, i + 1));
            lemma_number_end_bounds(s1, i + 2);
        }
        lemma_number_end_stable(s1, s2, i + 1);
        assert(number_goes_on(s2, i));
    } else {
        if i < s2.len() {
            assert(s2[i - 1] == s1[i - 1]);
        }
    }
}

proof fn lemma_line_end_stable(s1: Seq<char>, s2: Seq<char>, i: int)
    requires
        0 <= i <= s1.len(),
        line_end(s1, i) <= s2.len(),
        forall|j: int| i <= j < line_end(s1, i) ==> s2[j] == s1[j],
        line_end(s1, i) < s2.len() ==> s2[line_end(s1, i)] == '\n',
    ensures
        line_end(s2, i) == line_end(s1, i),
    decreases s1.len() - i,
{
    lemma_line_end_bounds(s1, i);
    if i < s1.len() && s1[i] != '\n' {
        lemma_line_end_stable(s1, s2, i + 1);
    }
}

proof fn lemma_pair_end_stable(s1: Seq<char>, s2: Seq<char>, i: int, a: char, b: char, e: int)
    requires
        0 <= i,
        pair_end(s1, i, a, b) == Some(e),
        e <= s2.len(),
        forall|j: int| i <= j < e ==> s2[j] == s1[j],
    ensures
        pair_end(s2, i, a, b) == Some(e),
    decreases s1.len() - i,
{
    lemma_pair_end_bounds(s1, i, a, b);
    if !(s1[i] == a && s1[i + 1] == b) {
        lemma_pair_end_stable(s1, s2, i + 1, a, b, e);
    }
}

proof fn lemma_quoted_end_stable(
    s1: Seq<char>,
    s2: Seq<char>,
    i: int,
    q: char,
    bs: bool,
    e: int,
)
    requires
        0 <= i,
        quoted_end(s1, i, q, bs) == Some(e),
        e <= s2.len(),
        forall|j: int| i <= j < e ==> s2[j] == s1[j],
        e < s2.len() ==> s2[e] != q,
    ensures
        quoted_end(s2, i, q, bs) == Some(e),
    decreases s1.len() - i,
{
    lemma_quoted_end_bounds(s1, i, q, bs);
    if bs && s1[i] == '\\' {
        lemma_quoted_end_bounds(s1, i + 2, q, bs);
        lemma_quoted_end_stable(s1, s2, i + 2, q, bs, e);
    } else if s1[i] == q {
        if i + 1 < s1.len() && s1[i + 1] == q {
            lemma_quoted_end_bounds(s1, i + 2, q, bs);
            lemma_quoted_end_stable(s1, s2, i + 2, q, bs, e);
        }
    } else {
        lemma_quoted_end_bounds(s1, i + 1, q, bs);
        lemma_quoted_end_stable(s1, s2, i + 1, q, bs, e);
    }
}

/// The token at the start of `s1` is found again at the start of `s2` when
/// `s2` begins with its text and what follows cannot continue it.
pub proof fn lemma_scan_stable(s1: Seq<char>, s2: Seq<char>)
    requires
        scan(s1) is Some,
        continues_same(s1, s2, scan(s1).unwrap().0, scan(s1).unwrap().1),
    ensures
        scan(s2) == scan(s1),
{
    lemma_scan_bounds(s1);
    let (k, n) = scan(s1)->0;
    assert(forall|j: int| 0 <= j < n ==> s2[j] == s1.take(n)[j]);
    assert(forall|j: int| 0 <= j < n ==> s2[j] == s1[j]);
    if is_space(s1[0]) {
    } else if starts_line_comment(s1) {
        lemma_line_end_bounds(s1, 2);
        lemma_line_end_stable(s1, s2, 2);
    } else if starts_block_comment(s1) {
        let e = pair_end(s1, 2, '*', '/')->0;
        lemma_pair_end_bounds(s1, 2, '*', '/');
        lemma_pair_end_stable(s1, s2, 2, '*', '/', e);
    } else if s1[0] == '\'' {
        let e = quoted_end(s1, 1, '\'', true)->0;
        lemma_quoted_end_stable(s1, s2, 1, '\'', true, e);
    } else if s1[0] == '"' {
        let e = quoted_end(s1, 1, '"', false)->0;
        lemma_quoted_end_stable(s1, s2, 1, '"', false, e);
    } else if starts_dollar(s1) {
        let e = pair_end(s1, 2, '$', '$')->0;
        lemma_pair_end_bounds(s1, 2, '$', '$');
        lemma_pair_end_stable(s1, s2, 2, '$', '$', e);
    } else if is_digit(s1[0]) {
        lemma_number_end_bounds(s1, 1);
        lemma_number_end_stable(s1, s2, 1);
    } else if is_word_char(s1[0]) {
        lemma_word_end_bounds(s1, 1);
        lemma_word_end_stable(s1, s2, 1);
    } else {
    }
}

/// Every token of a lexed text is found again when its text is scanned alone.
pub open spec fn wf_tok(t: Tok) -> bool {
    scan(t.text) == Some((t.kind, t.text.len() as int))
}

/// Every token of a lexed text is well formed.
pub proof fn lemma_lex_wf(s: Seq<char>)
    ensures
        lex(s) matches Some(ts) ==> forall|i: int| 0 <= i < ts.len() ==> wf_tok(#[trigger] ts[i]),
    decreases s.len(),
{
    if s.len() > 0 {
        lemma_scan_bounds(s);
        if let Some((k, n)) = scan(s) {
            if 0 < n <= s.len() {
                lemma_lex_wf(s.skip(n));
                assert(s.take(n).take(n) =~= s.take(n));
                lemma_scan_stable(s, s.take(n));
                if let Some(rest) = lex(s.skip(n)) {
                    let ts = seq![Tok { kind: k, text: s.take(n) }] + rest;
                    assert forall|i: int| 0 <= i < ts.len() implies wf_tok(#[trigger] ts[i]) by {
                        if i > 0 {
                            assert(ts[i] == rest[i - 1]);
                        }
                    }
                }
            }
        }
    }
}

// ---------------------------------------------------------------------------
// The executable tokenizer.

/// A token as a span `start..end` of the characters it was read from.
#[derive(Clone, Copy, Debug)]
pub struct Span {
    pub kind: TokenKind,
    pub start: usize,
    pub end: usize,
}

impl Span {
    pub open spec fn tok(self, s: Seq<char>) -> Tok {
        Tok { kind: self.kind, text: s.subrange(self.start as int, self.end as int) }
    }
}

/// The tokens that spans of `s` stand for.
pub open spec fn span_toks(spans: Seq<Span>, s: Seq<char>) -> Seq<Tok> {
    spans.map_values(|sp: Span| sp.tok(s))
}

/// Every span lies within a text of length `len`.
pub open spec fn spans_in(spans: Seq<Span>, len: int) -> bool {
    forall|i: int| 0 <= i < spans.len() ==> #[trigger] spans[i].start <= spans[i].end && spans[i].end <= len
}

fn word_end_at(s: &Vec<char>, p: usize, i: usize) -> (e: usize)
    requires
        p <= i <= s.len(),
    ensures
        e == p + word_end(s@.skip(p as int), i - p),
        i <= e <= s.len(),
{
    let ghost t = s@.skip(p as int);
    let mut j = i;
    while j < s.len() && is_word_char_exec(s[j])
        invariant
            p <= i <= j <= s.len(),
            t == s@.skip(p as int),
            word_end(t, j - p) == word_end(t, i - p),
        decreases s.len() - j,
    {
        j = j + 1;
    }
    j
}

fn number_end_at(s: &Vec<char>, p: usize, i: usize) -> (e: usize)
    requires
        p <= i <= s.len(),
    ensures
        e == p + number_end(s@.skip(p as int), i - p),
        i <= e <= s.len(),
{
    let ghost t = s@.skip(p as int);
    let mut j = i;
    while j < s.len() && (is_word_char_exec(s[j]) || s[j] == '.' || ((s[j] == '+' || s[j] == '-') && p
        < j && (s[j - 1] == 'e' || s[j - 1] == 'E') && j + 1 < s.len() && is_digit_exec(s[j + 1])))
        invariant
            p <= i <= j <= s.len(),
            t == s@.skip(p as int),
            number_end(t, j - p) == number_end(t, i - p),
        decreases s.len() - j,
    {
        j = j + 1;
    }
    j
}

fn line_end_at(s: &Vec<char>, p: usize, i: usize) -> (e: usize)
    requires
        p <= i <= s.len(),
    ensures
        e == p + line_end(s@.skip(p as int), i - p),
        i <= e <= s.len(),
{
    let ghost t = s@.skip(p as int);
    let mut j = i;
    while j < s.len() && s[j] != '\n'
        invariant
            p <= i <= j <= s.len(),
            t == s@.skip(p as int),
            line_end(t, j - p) == line_end(t, i - p),
        decreases s.len() - j,
    {
        j = j + 1;
    }
    j
}

fn pair_end_at(s: &Vec<char>, p: usize, i: usize, a: char, b: char) -> (e: Option<usize>)
    requires
        p <= i <= s.len(),
    ensures
        match pair_end(s@.skip(p as int), i - p, a, b) {
            Some(n) => e == Some((p + n) as usize),
            None => e is None,
        },
{
    let ghost t = s@.skip(p as int);
    let mut j = i;
    while j < s.len() && j + 1 < s.len()
        invariant
            p <= i <= j <= s.len(),
            t == s@.skip(p as int),
            pair_end(t, j - p, a, b) == pair_end(t, i - p, a, b),
        decreases s.len() - j,
    {
        if s[j] == a && s[j + 1] == b {
            proof {
                lemma_pair_end_bounds(t, j - p, a, b);
            }
            return Some(j + 2);
        }
        j = j + 1;
    }
    None
}

fn quoted_end_at(s: &Vec<char>, p: usize, i: usize, q: char, bs: bool) -> (e: Option<usize>)
    requires
        p <= i <= s.len(),
    ensures
        match quoted_end(s@.skip(p as int), i - p, q, bs) {
            Some(n) => e == Some((p + n) as usize),
            None => e is None,
        },
{
    let ghost t = s@.skip(p as int);
    let mut j = i;
    while j < s.len()
        invariant
            p <= i <= j,
            t == s@.skip(p as int),
            quoted_end(t, j - p, q, bs) == quoted_end(t, i - p, q, bs),
        decreases s.len() - j,
    {
        if bs && s[j] == '\\' {
            if j + 1 < s.len() {
                j = j + 2;
            } else {
                return None;
            }
        } else if s[j] == q {
            if j + 1 < s.len() && s[j + 1] == q {
                j = j + 2;
            } else {
                return Some(j + 1);
            }
        } else {
            j = j + 1;
        }
    }
    None
}

fn symbol_len_at(s: &Vec<char>, p: usize) -> (n: usize)
    requires
        p < s.len(),
    ensures
        n == symbol_len(s@.skip(p as int)),
{
    let ghost t = s@.skip(p as int);
    let len = s.len() - p;
    if len >= 3 && s[p] == '-' && s[p + 1] == '>' && s[p + 2] == '>' {
        3
    } else if len >= 2 && two_op_exec(s[p], s[p + 1]) {
        2
    } else {
        1
    }
}

fn two_op_exec(a: char, b: char) -> (r: bool)
    ensures
        r == two_op(a, b),
{
    (a == '=' && b == '>') || (a == '-' && b == '>') || (a == ':' && b == ':') || (a == '<' && (b
        == '=' || b == '>')) || (a == '>' && b == '=') || (a == '!' && b == '=') || (a == '|' && b
        == '|')
}

fn kind_at(k: TokenKind, e: Option<usize>) -> (r: Option<(TokenKind, usize)>)
    ensures
        match e {
            Some(n) => r == Some((k, n)),
            None => r is None,
        },
{
    match e {
        Some(n) => Some((k, n)),
        None => None,
    }
}

/// The token starting at `p`: its kind and where it ends.
fn scan_at(s: &Vec<char>, p: usize) -> (r: Option<(TokenKind, usize)>)
    requires
        p < s.len(),
    ensures
        match scan(s@.skip(p as int)) {
            Some((k, n)) => r == Some((k, (p + n) as usize)),
            None => r is None,
        },
{
    let ghost t = s@.skip(p as int);
    let c = s[p];
    let has2 = p + 1 < s.len();
    if is_space_exec(c) {
        Some((TokenKind::Whitespace, p + 1))
    } else if has2 && ((c == '-' && s[p + 1] == '-') || (c == '/' && s[p + 1] == '/')) {
        Some((TokenKind::LineComment, line_end_at(s, p, p + 2)))
    } else if has2 && c == '/' && s[p + 1] == '*' {
        kind_at(TokenKind::BlockComment, pair_end_at(s, p, p + 2, '*', '/'))
    } else if c == '\'' {
        kind_at(TokenKind::Str, quoted_end_at(s, p, p + 1, '\'', true))
    } else if c == '"' {
        kind_at(TokenKind::QuotedIdent, quoted_end_at(s, p, p + 1, '"', false))
    } else if has2 && c == '$' && s[p + 1] == '$' {
        kind_at(TokenKind::DollarStr, pair_end_at(s, p, p + 2, '$', '$'))
    } else if is_digit_exec(c) {
        Some((TokenKind::Number, number_end_at(s, p, p + 1)))
    } else if is_word_char_exec(c) {
        Some((TokenKind::Word, word_end_at(s, p, p + 1)))
    } else {
        Some((TokenKind::Symbol, p + symbol_len_at(s, p)))
    }
}

pub open spec fn prepend(prefix: Seq<Tok>, rest: Option<Seq<Tok>>) -> Option<Seq<Tok>> {
    match rest {
        Some(r) => Some(prefix + r),
        None => None,
    }
}

/// Splits `s` into its tokens, or `None` where some token is never closed.
pub fn lex_spans(s: &Vec<char>) -> (r: Option<Vec<Span>>)
    ensures
        match lex(s@) {
            Some(ts) => r matches Some(spans) && span_toks(spans@, s@) == ts && spans_in(
                spans@,
                s@.len() as int,
            ),
            None => r is None,
        },
{
    let mut spans: Vec<Span> = Vec::new();
    let mut p: usize = 0;
    proof {
        assert(s@.skip(0) == s@);
        assert(span_toks(spans@, s@) == Seq::<Tok>::empty());
        assert(Seq::<Tok>::empty() + lex(s@)->0 == lex(s@)->0);
    }
    while p < s.len()
        invariant
            p <= s.len(),
            lex(s@) == prepend(span_toks(spans@, s@), lex(s@.skip(p as int))),
            spans_in(spans@, s@.len() as int),
        decreases s.len() - p,
    {
        let ghost t = s@.skip(p as int);
        proof {
            lemma_scan_bounds(t);
        }
        match scan_at(s, p) {
            Some((k, e)) => {
                let ghost n = e - p;
                proof {
                    assert(t.skip(n) == s@.skip(e as int));
                    assert(t.take(n) == s@.subrange(p as int, e as int));
                }
                let ghost old_spans = spans@;
                spans.push(Span { kind: k, start: p, end: e });
                proof {
                    let tok = Tok { kind: k, text: t.take(n) };
                    assert(span_toks(spans@, s@) == span_toks(old_spans, s@).push(tok));
                    match lex(s@.skip(e as int)) {
                        Some(rest) => {
                            assert(span_toks(old_spans, s@) + (seq![tok] + rest) == span_toks(
                                old_spans,
                                s@,
                            ).push(tok) + rest);
                        },
                        None => {},
                    }
                }
                p = e;
            },
            None => {
                return None;
            },
        }
    }
    proof {
        assert(s@.skip(p as int) == Seq::<char>::empty());
        assert(span_toks(spans@, s@) + Seq::<Tok>::empty() == span_toks(spans@, s@));
    }
    Some(spans)
}

/// The tokens that are not whitespace or comments.
pub open spec fn meaningful(ts: Seq<Tok>) -> Seq<Tok>
    decreases ts.len(),
{
    if ts.len() == 0 {
        Seq::empty()
    } else if is_trivia_kind(ts[0].kind) {
        meaningful(ts.drop_first())
    } else {
        seq![ts[0]] + meaningful(ts.drop_first())
    }
}

/// No token is a comment.
pub open spec fn no_comments(ts: Seq<Tok>) -> bool {
    forall|i: int| 0 <= i < ts.len() ==> !is_comment_kind(#[trigger] ts[i].kind)
}

/// `meaningful` and `no_comments` of a token followed by more tokens.
pub proof fn lemma_meaningful_cons(t: Tok, r: Seq<Tok>)
    ensures
        meaningful(seq![t] + r) == (if is_trivia_kind(t.kind) {
            meaningful(r)
        } else {
            seq![t] + meaningful(r)
        }),
        no_comments(seq![t] + r) == (!is_comment_kind(t.kind) && no_comments(r)),
{
    let ts = seq![t] + r;
    assert(ts.drop_first() =~= r);
    assert(ts[0] == t);
    if no_comments(ts) {
        assert forall|i: int| 0 <= i < r.len() implies !is_comment_kind(#[trigger] r[i].kind) by {
            assert(ts[i + 1] == r[i]);
        }
        assert(!is_comment_kind(ts[0].kind));
    }
    if !is_comment_kind(t.kind) && no_comments(r) {
        assert forall|i: int| 0 <= i < ts.len() implies !is_comment_kind(#[trigger] ts[i].kind) by {
            if i > 0 {
                assert(ts[i] == r[i - 1]);
            }
        }
    }
}

/// Every meaningful token is one of the tokens, so it is not trivia and it
/// is found again when scanned alone.
pub proof fn lemma_meaningful_wf(ts: Seq<Tok>)
    requires
        forall|i: int| 0 <= i < ts.len() ==> wf_tok(#[trigger] ts[i]),
    ensures
        forall|i: int|
            0 <= i < meaningful(ts).len() ==> wf_tok(#[trigger] meaningful(ts)[i])
                && !is_trivia_kind(meaningful(ts)[i].kind),
    decreases ts.len(),
{
    if ts.len() > 0 {
        assert forall|i: int| 0 <= i < ts.drop_first().len() implies wf_tok(
            #[trigger] ts.drop_first()[i],
        ) by {
            assert(ts.drop_first()[i] == ts[i + 1]);
        }
        lemma_meaningful_wf(ts.drop_first());
        assert(wf_tok(ts[0]));
        let m = meaningful(ts.drop_first());
        if !is_trivia_kind(ts[0].kind) {
            assert forall|i: int| 0 <= i < meaningful(ts).len() implies wf_tok(
                #[trigger] meaningful(ts)[i],
            ) && !is_trivia_kind(meaningful(ts)[i].kind) by {
                if i > 0 {
                    assert(meaningful(ts)[i] == m[i - 1]);
                }
            }
        }
    }
}

/// A token and its text.
#[derive(Debug)]
pub struct Token {
    pub kind: TokenKind,
    pub text: String,
}

/// Splits `source` into its tokens (whitespace and comments included, so that
/// their texts put together give `source` back), or `None` where a quoted
/// text or block comment is never closed.
pub fn tokenize(source: &str) -> (r: Option<Vec<Token>>)
    ensures
        match lex(source@) {
            Some(ts) => r matches Some(toks) && toks.len() == ts.len() && forall|i: int|
                0 <= i < ts.len() ==> (#[trigger] toks@[i]).kind == ts[i].kind && toks@[i].text@
                    == ts[i].text,
            None => r is None,
        },
{
    let chars = collect_chars(source);
    match lex_spans(&chars) {
        None => None,
        Some(spans) => {
            let ghost ts = span_toks(spans@, chars@);
            let mut toks: Vec<Token> = Vec::new();
            let mut i: usize = 0;
            while i < spans.len()
                invariant
                    i <= spans.len(),
                    ts == span_toks(spans@, chars@),
                    spans_in(spans@, chars@.len() as int),
                    toks.len() == i,
                    forall|j: int|
                        0 <= j < i ==> (#[trigger] toks@[j]).kind == ts[j].kind && toks@[j].text@
                            == ts[j].text,
                decreases spans.len() - i,
            {
                let sp = spans[i];
                assert(sp.start <= sp.end && sp.end <= chars.len()) by {
                    assert(spans@[i as int] == sp);
                }
                let mut text = String::new();
                push_chars(&mut text, &chars, sp.start, sp.end);
                assert(text@ =~= ts[i as int].text);
                toks.push(Token { kind: sp.kind, text });
                i = i + 1;
            }
            Some(toks)
        },
    }
}

// ---------------------------------------------------------------------------
// The first and last characters of a token.

proof fn lemma_word_end_last(s: Seq<char>, i: int)
    requires
        1 <= i <= s.len(),
        is_word_char(s[i - 1]),
    ensures
        is_word_char(s[word_end(s, i) - 1]),
        i <= word_end(s, i) <= s.len(),
    decreases s.len() - i,
{
    if i < s.len() && is_word_char(s[i]) {
        lemma_word_end_last(s, i + 1);
    }
}

proof fn lemma_number_end_last(s: Seq<char>, i: int)
    requires
        1 <= i <= s.len(),
        is_number_char(s[i - 1]),
    ensures
        is_number_char(s[number_end(s, i) - 1]),
        i <= number_end(s, i) <= s.len(),
    decreases s.len() - i,
{
    if number_goes_on(s, i) {
        if exp_sign(s, i) {
            assert(is_number_char(s[i + 1]));
            assert(number_goes_on(s, i + 1));
            assert(number_end(s, i) == number_end(s, i + 1));
            assert(number_end(s, i + 1) == number_end(s, i + 2));
            lemma_number_end_last(s, i + 2);
        } else {
            lemma_number_end_last(s, i + 1);
        }
    }
}

proof fn lemma_pair_end_last(s: Seq<char>, i: int, a: char, b: char)
    requires
        0 <= i,
    ensures
        pair_end(s, i, a, b) matches Some(e) ==> 1 <= e <= s.len() && s[e - 1] == b,
    decreases s.len() - i,
{
    if 0 <= i && i + 1 < s.len() && !(s[i] == a && s[i + 1] == b) {
        lemma_pair_end_last(s, i + 1, a, b);
    }
}

proof fn lemma_quoted_end_last(s: Seq<char>, i: int, q: char, bs: bool)
    requires
        0 <= i,
    ensures
        quoted_end(s, i, q, bs) matches Some(e) ==> 1 <= e <= s.len() && s[e - 1] == q,
    decreases s.len() - i,
{
    if 0 <= i < s.len() {
        if bs && s[i] == '\\' {
            if i + 1 < s.len() {
                lemma_quoted_end_last(s, i + 2, q, bs);
            }
        } else if s[i] == q {
            if i + 1 < s.len() && s[i + 1] == q {
                lemma_quoted_end_last(s, i + 2, q, bs);
            }
        } else {
            lemma_quoted_end_last(s, i + 1, q, bs);
        }
    }
}

/// A token that is not whitespace neither starts nor ends with a space.
pub proof fn lemma_tok_ends(t: Tok)
    requires
        wf_tok(t),
        t.kind != TokenKind::Whitespace,
    ensures
        t.text.len() > 0,
        !is_space(t.text[0]),
        t.kind != TokenKind::LineComment ==> !is_space(t.text.last()),
{
    let s = t.text;
    lemma_scan_bounds(s);
    if starts_line_comment(s) {
    } else if starts_block_comment(s) {
        lemma_pair_end_last(s, 2, '*', '/');
    } else if s[0] == '\'' {
        lemma_quoted_end_last(s, 1, '\'', true);
    } else if s[0] == '"' {
        lemma_quoted_end_last(s, 1, '"', false);
    } else if starts_dollar(s) {
        lemma_pair_end_last(s, 2, '$', '$');
    } else if is_digit(s[0]) {
        lemma_number_end_last(s, 1);
    } else if is_word_char(s[0]) {
        lemma_word_end_last(s, 1);
    } else {
    }
}

} // verus!
