//! Reading back a laid-out text gives the tokens it was written from.

use vstd::prelude::*;
use crate::options::KeywordCase;
use crate::text::{is_space, is_word_char, upper};
use crate::lexer::{
    Tok, TokenKind, wf_tok, is_trivia_kind, scan, lex, stops, symbol_stops, word_end,
    continues_same, lemma_scan_stable, lemma_scan_bounds, meaningful, no_comments,
    lemma_meaningful_cons,
};
use crate::layout::{
    Class, class_of, word_class, symbol_class, is_keyword_class, disp, lemma_disp, Layout, sep,
    next, glue, render, case_text, case_char, lemma_case_char, lemma_case_text,
};

verus! {

/// A token that the layout may write: it is found again when scanned alone,
/// and it is neither whitespace nor a comment.
pub open spec fn writable(t: Tok) -> bool {
    wf_tok(t) && !is_trivia_kind(t.kind)
}

/// Every token is writable.
pub open spec fn all_writable(ms: Seq<Tok>) -> bool {
    forall|i: int| 0 <= i < ms.len() ==> writable(#[trigger] ms[i])
}

proof fn lemma_word_class_range(u: Seq<char>)
    ensures
        is_keyword_class(word_class(u)) || word_class(u) == Class::Name,
{
    reveal(word_class);
}

/// What the class of a writable token says of its kind and text.
pub proof fn lemma_class_facts(t: Tok)
    requires
        writable(t),
    ensures
        ({
            let c = class_of(t);
            &&& c == Class::Open ==> t.kind == TokenKind::Symbol && t.text == seq!['(']
            &&& c == Class::Close ==> t.kind == TokenKind::Symbol && t.text == seq![')']
            &&& c == Class::OpenBracket ==> t.kind == TokenKind::Symbol && t.text == seq!['[']
            &&& c == Class::CloseBracket ==> t.kind == TokenKind::Symbol && t.text == seq![']']
            &&& c == Class::Comma ==> t.kind == TokenKind::Symbol && t.text == seq![',']
            &&& c == Class::Dot ==> t.kind == TokenKind::Symbol && t.text == seq!['.']
            &&& c == Class::Semi ==> t.kind == TokenKind::Symbol && t.text == seq![';']
            &&& c == Class::Colon ==> t.kind == TokenKind::Symbol && t.text == seq![':']
            &&& c == Class::DoubleColon ==> t.kind == TokenKind::Symbol && t.text == seq![':', ':']
            &&& c == Class::OtherSymbol ==> t.kind == TokenKind::Symbol
            &&& c == Class::Name ==> t.kind == TokenKind::Word || t.kind == TokenKind::QuotedIdent
            &&& is_keyword_class(c) ==> t.kind == TokenKind::Word
            &&& c == Class::Number ==> t.kind == TokenKind::Number
            &&& c == Class::Literal ==> t.kind == TokenKind::Str || t.kind == TokenKind::DollarStr
            &&& t.kind == TokenKind::Symbol ==> !is_keyword_class(c) && c != Class::Name
        }),
{
    reveal(symbol_class);
    lemma_word_class_range(upper(t.text));
    let x = t.text;
    if t.kind == TokenKind::Symbol && x.len() == 1 {
        assert(x =~= seq![x[0]]);
    }
    if t.kind == TokenKind::Symbol && x.len() == 2 {
        assert(x =~= seq![x[0], x[1]]);
    }
}

proof fn lemma_word_end_case(case: KeywordCase, s: Seq<char>, i: int)
    requires
        0 <= i <= s.len(),
    ensures
        word_end(case_text(case, s), i) == word_end(s, i),
    decreases s.len() - i,
{
    if i < s.len() {
        assert(case_text(case, s)[i] == case_char(case, s[i]));
        lemma_case_char(case, s[i]);
        if is_word_char(s[i]) {
            lemma_word_end_case(case, s, i + 1);
        }
    }
}

/// A writable token stays writable when written with its display text.
pub proof fn lemma_disp_writable(t: Tok, case: KeywordCase)
    requires
        writable(t),
    ensures
        writable(disp(t, case)),
        disp(t, case).text.len() > 0,
        disp(t, case).text.len() == t.text.len(),
{
    lemma_scan_bounds(t.text);
    lemma_disp(t, case);
    if t.kind == TokenKind::Word && is_keyword_class(class_of(t)) {
        let s = t.text;
        let u = case_text(case, s);
        lemma_case_text(case, s);
        lemma_word_end_case(case, s, 1);
        assert(u[0] == case_char(case, s[0]));
        lemma_case_char(case, s[0]);
        if s.len() >= 2 {
            assert(u[1] == case_char(case, s[1]));
            lemma_case_char(case, s[1]);
        }
        assert(scan(u) == scan(s));
    }
}

/// A space or a line break ends every writable token.
pub proof fn lemma_space_stops(t: Tok, c: char, case: KeywordCase)
    requires
        writable(t),
        is_space(c),
    ensures
        stops(t.kind, disp(t, case).text, c),
{
    lemma_disp_writable(t, case);
}

/// The first character of a writable token of class `c`.
proof fn lemma_first_char(t: Tok, case: KeywordCase)
    requires
        writable(t),
    ensures
        ({
            let f = disp(t, case).text[0];
            &&& class_of(t) == Class::Comma ==> f == ','
            &&& class_of(t) == Class::Close ==> f == ')'
            &&& class_of(t) == Class::CloseBracket ==> f == ']'
            &&& class_of(t) == Class::Semi ==> f == ';'
            &&& class_of(t) == Class::Dot ==> f == '.'
            &&& class_of(t) == Class::Open ==> f == '('
            &&& class_of(t) == Class::OpenBracket ==> f == '['
            &&& (class_of(t) == Class::Colon || class_of(t) == Class::DoubleColon) ==> f == ':'
            &&& (class_of(t) != Class::Colon && class_of(t) != Class::DoubleColon) ==> f != ':'
        }),
{
    lemma_class_facts(t);
    lemma_disp_writable(t, case);
    lemma_scan_bounds(t.text);
    if t.kind == TokenKind::Word && is_keyword_class(class_of(t)) {
        assert(disp(t, case).text[0] == case_char(case, t.text[0]));
        lemma_case_char(case, t.text[0]);
    }
    if t.kind == TokenKind::Symbol && t.text[0] == ':' {
        reveal(symbol_class);
        if t.text.len() >= 2 && t.text[1] == ':' {
            assert(t.text =~= seq![':', ':']);
        } else {
            assert(t.text =~= seq![':']);
        }
    }
}

/// Tokens written with nothing between them are read back apart.
pub proof fn lemma_glue_stops(t0: Tok, t1: Tok, case: KeywordCase)
    requires
        writable(t0),
        writable(t1),
        glue(class_of(t0), class_of(t1)) || class_of(t1) == Class::Semi,
    ensures
        stops(t0.kind, disp(t0, case).text, disp(t1, case).text[0]),
{
    lemma_class_facts(t0);
    lemma_class_facts(t1);
    lemma_first_char(t1, case);
    lemma_disp_writable(t0, case);
    lemma_disp_writable(t1, case);
    lemma_disp(t0, case);
    let d0 = disp(t0, case).text;
    let f = disp(t1, case).text[0];
    if t0.kind == TokenKind::Symbol {
        assert(d0 == t0.text);
        let p = class_of(t0);
        if p == Class::Colon {
            assert(f != ':');
        }
        assert(symbol_stops(d0, f));
    }
}

/// A separator is nothing, a space or a line break; it is nothing after a
/// token only where the two are glued or the second is `;`.
pub proof fn lemma_sep_shape(st: Layout, c: Class, n: nat)
    ensures
        sep(st, c, n).len() == 0 || sep(st, c, n) == seq![' '] || sep(st, c, n) == seq!['\n'],
        sep(st, c, n).len() == 0 && st.prev is Some ==> glue(st.prev->0, c) || c == Class::Semi,
{
    reveal(sep);
}

/// The first character of a non-empty laid-out text.
proof fn lemma_render_first(ms: Seq<Tok>, st: Layout, case: KeywordCase)
    requires
        ms.len() > 0,
        all_writable(ms),
    ensures
        render(ms, st, case).len() > 0,
        sep(st, class_of(ms[0]), ms[0].text.len()).len() > 0 ==> render(ms, st, case)[0] == sep(
            st,
            class_of(ms[0]),
            ms[0].text.len(),
        )[0],
        sep(st, class_of(ms[0]), ms[0].text.len()).len() == 0 ==> render(ms, st, case)[0] == disp(
            ms[0],
            case,
        ).text[0],
{
    assert(writable(ms[0]));
    lemma_disp_writable(ms[0], case);
    let c = class_of(ms[0]);
    let r = render(ms.drop_first(), next(st, ms[0], ms.drop_first()), case);
    assert(render(ms, st, case) == sep(st, c, ms[0].text.len()) + disp(ms[0], case).text + r);
}

/// A token whose text is followed by something that cannot continue it is
/// read back first.
proof fn lemma_lex_cons(t: Tok, after: Seq<char>)
    requires
        writable(t),
        lex(after) is Some,
        after.len() > 0 ==> stops(t.kind, t.text, after[0]),
    ensures
        lex(t.text + after) == Some(seq![t] + lex(after)->0),
{
    lemma_scan_bounds(t.text);
    let n = t.text.len() as int;
    let body = t.text + after;
    assert(body.take(n) =~= t.text.take(n));
    assert(t.text.take(n) =~= t.text);
    assert(continues_same(t.text, body, t.kind, n));
    lemma_scan_stable(t.text, body);
    assert(body.skip(n) =~= after);
    assert(body.take(n) =~= t.text);
    assert(Tok { kind: t.kind, text: t.text } == t);
}

/// A whitespace character is read back as a token of its own.
proof fn lemma_lex_space(s0: Seq<char>, body: Seq<char>)
    requires
        s0.len() == 1,
        is_space(s0[0]),
        lex(body) is Some,
    ensures
        lex(s0 + body) == Some(seq![Tok { kind: TokenKind::Whitespace, text: s0 }] + lex(body)->0),
{
    let all = s0 + body;
    assert(all[0] == s0[0]);
    assert(all.skip(1) =~= body);
    assert(all.take(1) =~= s0);
}

/// What follows a token in a laid-out text cannot continue it.
proof fn lemma_next_stops(t0: Tok, rest: Seq<Tok>, st1: Layout, tail: Seq<char>, case: KeywordCase)
    requires
        writable(t0),
        all_writable(rest),
        st1.prev == Some(class_of(t0)),
        tail.len() > 0 ==> is_space(tail[0]),
    ensures
        (render(rest, st1, case) + tail).len() > 0 ==> stops(
            t0.kind,
            disp(t0, case).text,
            (render(rest, st1, case) + tail)[0],
        ),
{
    let r1 = render(rest, st1, case);
    let after0 = r1 + tail;
    lemma_disp(t0, case);
    if after0.len() > 0 {
        if r1.len() > 0 {
            lemma_render_first(rest, st1, case);
            let c1 = class_of(rest[0]);
            let n1 = rest[0].text.len();
            lemma_sep_shape(st1, c1, n1);
            assert(after0[0] == r1[0]);
            if sep(st1, c1, n1).len() > 0 {
                lemma_space_stops(t0, r1[0], case);
            } else {
                assert(writable(rest[0]));
                lemma_glue_stops(t0, rest[0], case);
            }
        } else {
            assert(after0 =~= tail);
            lemma_space_stops(t0, tail[0], case);
        }
    }
}

/// Reading back a laid-out text, followed by `tail`, gives the display
/// tokens, then the tokens of `tail`; no comment appears.
#[verifier::rlimit(40)]
pub proof fn lemma_lex_render(ms: Seq<Tok>, st: Layout, tail: Seq<char>, case: KeywordCase)
    requires
        all_writable(ms),
        lex(tail) is Some,
        tail.len() > 0 ==> is_space(tail[0]),
    ensures
        lex(render(ms, st, case) + tail) matches Some(ts) && meaningful(ts) == ms.map_values(
            |t: Tok| disp(t, case),
        ) + meaningful(lex(tail)->0) && (no_comments(lex(tail)->0) ==> no_comments(ts)),
    decreases ms.len(),
{
    let dm = ms.map_values(|t: Tok| disp(t, case));
    if ms.len() == 0 {
        assert(render(ms, st, case) + tail =~= tail);
        assert(dm + meaningful(lex(tail)->0) =~= meaningful(lex(tail)->0));
    } else {
        let t0 = ms[0];
        let c0 = class_of(t0);
        let st1 = next(st, t0, ms.drop_first());
        let rest = ms.drop_first();
        assert(all_writable(rest)) by {
            assert forall|i: int| 0 <= i < rest.len() implies writable(#[trigger] rest[i]) by {
                assert(rest[i] == ms[i + 1]);
            }
        }
        lemma_lex_render(rest, st1, tail, case);
        let r1 = render(rest, st1, case);
        let s0 = sep(st, c0, t0.text.len());
        let d0 = disp(t0, case);
        assert(writable(t0));
        lemma_disp_writable(t0, case);
        lemma_disp(t0, case);
        let after0 = r1 + tail;
        lemma_next_stops(t0, rest, st1, tail, case);
        lemma_lex_cons(d0, after0);
        let body = d0.text + after0;
        let tsr = lex(after0)->0;
        lemma_meaningful_cons(d0, tsr);
        assert(dm[0] == d0);
        assert(dm.drop_first() =~= rest.map_values(|t: Tok| disp(t, case)));
        assert(dm + meaningful(lex(tail)->0) =~= seq![d0] + (rest.map_values(|t: Tok| disp(t, case))
            + meaningful(lex(tail)->0)));
        assert(render(ms, st, case) == s0 + d0.text + r1);
        lemma_sep_shape(st, c0, t0.text.len());
        if s0.len() == 0 {
            assert(render(ms, st, case) + tail =~= body);
        } else {
            assert(render(ms, st, case) + tail =~= s0 + body);
            lemma_lex_space(s0, body);
            let ws = Tok { kind: TokenKind::Whitespace, text: s0 };
            lemma_meaningful_cons(ws, lex(body)->0);
        }
    }
}

} // verus!
