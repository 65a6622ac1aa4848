//! Character-level helpers on `String`s and the trailing-newline rule.

use vstd::prelude::*;

verus! {

/// Whitespace between tokens.
pub open spec fn is_space(c: char) -> bool {
    c == ' ' || c == '\t' || c == '\n' || c == '\r' || c == '\u{b}' || c == '\u{c}'
}

pub open spec fn is_digit(c: char) -> bool {
    '0' <= c && c <= '9'
}

pub open spec fn is_lower(c: char) -> bool {
    'a' <= c && c <= 'z'
}

pub open spec fn is_upper(c: char) -> bool {
    'A' <= c && c <= 'Z'
}

/// Characters that may continue an unquoted identifier or keyword.
pub open spec fn is_word_char(c: char) -> bool {
    is_lower(c) || is_upper(c) || is_digit(c) || c == '_' || c == '$' || (c as u32) >= 128
}

/// ASCII upper-casing of one character.
pub open spec fn upper_char(c: char) -> char {
    if is_lower(c) {
        ((c as u32) - 32) as char
    } else {
        c
    }
}

/// ASCII lower-casing of one character.
pub open spec fn lower_char(c: char) -> char {
    if is_upper(c) {
        ((c as u32) + 32) as char
    } else {
        c
    }
}

/// ASCII upper-casing of a text.
pub open spec fn upper(s: Seq<char>) -> Seq<char> {
    s.map_values(|c: char| upper_char(c))
}

pub fn is_space_exec(c: char) -> (b: bool)
    ensures
        b == is_space(c),
{
    c == ' ' || c == '\t' || c == '\n' || c == '\r' || c == '\u{b}' || c == '\u{c}'
}

pub fn is_digit_exec(c: char) -> (b: bool)
    ensures
        b == is_digit(c),
{
    '0' <= c && c <= '9'
}

pub fn is_word_char_exec(c: char) -> (b: bool)
    ensures
        b == is_word_char(c),
{
    ('a' <= c && c <= 'z') || ('A' <= c && c <= 'Z') || ('0' <= c && c <= '9') || c == '_' || c
        == '$' || (c as u32) >= 128
}

/// `char::to_ascii_uppercase`: maps `'a'..='z'` to `'A'..='Z'` and leaves
/// every other character as it is.
#[verifier::external_body]
pub(crate) fn upper_char_exec(c: char) -> (r: char)
    ensures
        r == upper_char(c),
{
    c.to_ascii_uppercase()
}

/// `char::to_ascii_lowercase`: maps `'A'..='Z'` to `'a'..='z'` and leaves
/// every other character as it is.
#[verifier::external_body]
pub(crate) fn lower_char_exec(c: char) -> (r: char)
    ensures
        r == lower_char(c),
{
    c.to_ascii_lowercase()
}

/// `s` with every trailing `'\n'` removed.
pub open spec fn strip_newlines(s: Seq<char>) -> Seq<char>
    decreases s.len(),
{
    if s.len() > 0 && s.last() == '\n' {
        strip_newlines(s.drop_last())
    } else {
        s
    }
}

/// The trailing-newline rule: an empty text stays empty; any other text ends
/// in exactly one `'\n'`.
pub open spec fn spec_normalize_newline(s: Seq<char>) -> Seq<char> {
    if s.len() == 0 {
        s
    } else {
        strip_newlines(s).push('\n')
    }
}

/// `String::push`: appends one character.
#[verifier::external_body]
pub(crate) fn push_char(s: &mut String, c: char)
    ensures
        final(s)@ == old(s)@.push(c),
{
    s.push(c);
}

/// `String::pop`: removes and returns the last character, if any.
#[verifier::external_body]
pub(crate) fn pop_char(s: &mut String) -> (r: Option<char>)
    ensures
        old(s)@.len() == 0 ==> r is None && final(s)@ == old(s)@,
        old(s)@.len() > 0 ==> r == Some(old(s)@.last()) && final(s)@ == old(s)@.drop_last(),
{
    s.pop()
}

/// `str::ends_with` with a character pattern.
#[verifier::external_body]
pub(crate) fn ends_with_char(s: &str, c: char) -> (b: bool)
    ensures
        b == (s@.len() > 0 && s@.last() == c),
{
    s.ends_with(c)
}

/// Ensures the output ends with exactly one `'\n'`, unless it is empty.
pub fn normalize_trailing_newline(s: String) -> (res: String)
    ensures
        res@ == spec_normalize_newline(s@),
{
    let mut s = s;
    if s.as_str().is_empty() {
        return s;
    }
    let ghost orig = s@;
    while ends_with_char(s.as_str(), '\n')
        invariant
            orig.len() > 0,
            strip_newlines(s@) == strip_newlines(orig),
        decreases s@.len(),
    {
        pop_char(&mut s);
    }
    push_char(&mut s, '\n');
    s
}

/// The characters of `s`, in order.
pub fn collect_chars(s: &str) -> (v: Vec<char>)
    ensures
        v@ == s@,
{
    let mut v: Vec<char> = Vec::new();
    for c in it: s.chars()
        invariant
            it.seq() == s@,
            v@ == s@.take(it.index() as int),
    {
        assert(s@.take(it.index() + 1) =~= s@.take(it.index() as int).push(c));
        v.push(c);
    }
    assert(s@.take(s@.len() as int) =~= s@);
    v
}

/// Appends the characters `s[start..end]`.
pub(crate) fn push_chars(out: &mut String, s: &Vec<char>, start: usize, end: usize)
    requires
        start <= end <= s.len(),
    ensures
        final(out)@ == old(out)@ + s@.subrange(start as int, end as int),
{
    let ghost o = out@;
    let mut i = start;
    while i < end
        invariant
            start <= i <= end <= s.len(),
            out@ == o + s@.subrange(start as int, i as int),
        decreases end - i,
    {
        push_char(out, s[i]);
        assert(s@.subrange(start as int, i + 1) =~= s@.subrange(start as int, i as int).push(
            s@[i as int],
        ));
        assert(o + s@.subrange(start as int, i + 1) =~= (o + s@.subrange(start as int, i as int)).push(
            s@[i as int],
        ));
        i = i + 1;
    }
}

} // verus!
