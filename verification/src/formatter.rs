//! The formatter: tokenize, decline what it must not touch, lay out the rest.

use vstd::prelude::*;
use crate::options::KeywordCase;
use crate::text::{
    spec_normalize_newline, strip_newlines, push_char, normalize_trailing_newline,
    collect_chars, push_chars,
};
use crate::lexer::{
    Tok, TokenKind, Span, lex, meaningful, no_comments, scan, lemma_lex_wf, lemma_meaningful_wf,
    lex_spans, span_toks, spans_in, lemma_meaningful_cons,
};
use crate::layout::{
    Class, class_of, disp, lemma_disp, render, start_layout, terminate, semi_tok, balanced,
    balanced_from, symbol_class, lemma_render_push, lemma_render_disp, after, sep,
    start_layout_exec, sep_exec, step_exec, class_exec, is_keyword_class_exec, case_span, fits,
    next, starts_clause_exec, LayoutState,
};
use crate::relex::{writable, all_writable, lemma_class_facts, lemma_lex_render};
use crate::grammar::{
    well_formed, well_formed_exec, lemma_well_formed_disp, lemma_well_formed_terminate,
};

verus! {

/// Whether the formatter lays out a text: it reads as tokens, it has no
/// comment, its parentheses are balanced, and its statements are ones the
/// formatter knows (see [`crate::grammar`]).
pub open spec fn formattable(s: Seq<char>) -> bool {
    match lex(s) {
        Some(ts) => no_comments(ts) && balanced(meaningful(ts)) && well_formed(meaningful(ts)),
        None => false,
    }
}

/// The laid-out text of a formattable input: its tokens, keywords in the
/// chosen case, one statement per line, each clause of a query on a line of
/// its own, each statement ended by `;`, and a final line break.
pub open spec fn formatted(s: Seq<char>, case: KeywordCase, width: nat) -> Seq<char> {
    spec_normalize_newline(render(terminate(meaningful(lex(s)->0)), start_layout(width), case))
}

/// What `format_with` returns for `s` when keywords are written in `case`
/// and lines are `width` characters wide.
pub open spec fn spec_format(s: Seq<char>, case: KeywordCase, width: nat) -> Seq<char> {
    if formattable(s) {
        formatted(s, case, width)
    } else {
        s
    }
}

/// The `;` added at the end of a statement is an ordinary symbol token.
pub proof fn lemma_semi_writable()
    ensures
        writable(semi_tok()),
        class_of(semi_tok()) == Class::Semi,
        forall|case: KeywordCase| #[trigger] disp(semi_tok(), case) == semi_tok(),
{
    reveal(symbol_class);
    assert(scan(seq![';']) == Some((TokenKind::Symbol, 1int)));
}

/// Ending the tokens with `;` keeps them writable, and leaves a `;` last.
pub proof fn lemma_terminate(ms: Seq<Tok>)
    requires
        all_writable(ms),
    ensures
        all_writable(terminate(ms)),
        ms.len() > 0 ==> terminate(ms).len() > 0 && class_of(terminate(ms).last()) == Class::Semi,
        ms.len() == 0 ==> terminate(ms).len() == 0,
        terminate(ms).len() > 0 ==> terminate(ms).last().text == seq![';'],
{
    lemma_semi_writable();
    let m2 = terminate(ms);
    assert forall|i: int| 0 <= i < m2.len() implies writable(#[trigger] m2[i]) by {
        if i < ms.len() {
            assert(m2[i] == ms[i]);
        }
    }
    if m2.len() > 0 {
        assert(writable(m2.last()));
        lemma_class_facts(m2.last());
    }
}

proof fn lemma_balanced_semi(ms: Seq<Tok>, d: int)
    ensures
        balanced_from(ms.push(semi_tok()), d) == balanced_from(ms, d),
    decreases ms.len(),
{
    lemma_semi_writable();
    if ms.len() == 0 {
        assert(ms.push(semi_tok()).drop_first() =~= Seq::<Tok>::empty());
        assert(ms.push(semi_tok())[0] == semi_tok());
        assert(balanced_from(Seq::<Tok>::empty(), d) == (d == 0));
        assert(balanced_from(ms.push(semi_tok()), d) == (d >= 0 && balanced_from(
            Seq::<Tok>::empty(),
            d,
        )));
    } else {
        assert(ms.push(semi_tok()).drop_first() =~= ms.drop_first().push(semi_tok()));
        assert(ms.push(semi_tok())[0] == ms[0]);
        let c = class_of(ms[0]);
        let d2 = if c == Class::Open {
            d + 1
        } else if c == Class::Close {
            d - 1
        } else {
            d
        };
        lemma_balanced_semi(ms.drop_first(), d2);
    }
}

proof fn lemma_balanced_disp(ms: Seq<Tok>, d: int, case: KeywordCase)
    ensures
        balanced_from(ms.map_values(|t: Tok| disp(t, case)), d) == balanced_from(ms, d),
    decreases ms.len(),
{
    let dm = ms.map_values(|t: Tok| disp(t, case));
    if ms.len() > 0 {
        lemma_disp(ms[0], case);
        assert(dm.drop_first() =~= ms.drop_first().map_values(|t: Tok| disp(t, case)));
        let c = class_of(ms[0]);
        let d2 = if c == Class::Open {
            d + 1
        } else if c == Class::Close {
            d - 1
        } else {
            d
        };
        lemma_balanced_disp(ms.drop_first(), d2, case);
    }
}

/// A line break reads as one whitespace token.
pub proof fn lemma_lex_newline()
    ensures
        lex(seq!['\n']) is Some,
        meaningful(lex(seq!['\n'])->0) == Seq::<Tok>::empty(),
        no_comments(lex(seq!['\n'])->0),
        lex(seq!['\n'])->0 == seq![Tok { kind: TokenKind::Whitespace, text: seq!['\n'] }],
{
    let nl = seq!['\n'];
    let ws = Tok { kind: TokenKind::Whitespace, text: nl };
    assert(nl.skip(1) =~= Seq::<char>::empty());
    assert(nl.take(1) =~= nl);
    assert(nl[0] == '\n');
    assert(scan(nl) == Some((TokenKind::Whitespace, 1int)));
    assert(lex(nl.skip(1)) == Some(Seq::<Tok>::empty()));
    assert(lex(nl) == Some(seq![ws] + Seq::<Tok>::empty()));
    assert(seq![ws] + Seq::<Tok>::empty() =~= seq![ws]);
    assert(seq![ws].drop_first() =~= Seq::<Tok>::empty());
    assert(seq![ws][0] == ws);
    assert(meaningful(seq![ws].drop_first()) == Seq::<Tok>::empty());
    assert(meaningful(seq![ws]) == Seq::<Tok>::empty());
    assert(no_comments(seq![ws]));
}

/// A laid-out text of a terminated, non-empty token sequence ends with `;`.
pub proof fn lemma_render_ends_semi(m2: Seq<Tok>, case: KeywordCase, width: nat)
    requires
        m2.len() > 0,
        all_writable(m2),
        m2.last().text == seq![';'],
        class_of(m2.last()) == Class::Semi,
    ensures
        render(m2, start_layout(width), case).len() > 0,
        render(m2, start_layout(width), case).last() == ';',
{
    let pre = m2.drop_last();
    let t = m2.last();
    assert(pre.push(t) =~= m2);
    lemma_render_push(pre, t, start_layout(width), case);
    lemma_class_facts(t);
    assert(disp(t, case) == t);
    let x = render(pre, start_layout(width), case) + sep(after(pre, start_layout(width)), class_of(t), t.text.len());
    assert(render(m2, start_layout(width), case) =~= x + seq![';']);
}

/// The text written for a formattable input reads back as the display form of
/// its tokens, terminated, with no comment.
pub proof fn lemma_formatted_lex(s: Seq<char>, case: KeywordCase, width: nat)
    requires
        formattable(s),
    ensures
        ({
            let ms = meaningful(lex(s)->0);
            let m2 = terminate(ms);
            let out = formatted(s, case, width);
            &&& all_writable(ms)
            &&& all_writable(m2)
            &&& lex(out) is Some
            &&& meaningful(lex(out)->0) == m2.map_values(|t: Tok| disp(t, case))
            &&& no_comments(lex(out)->0)
            &&& ms.len() == 0 ==> out.len() == 0
            &&& ms.len() > 0 ==> m2.len() > 0 && class_of(m2.last()) == Class::Semi && out
                == render(m2, start_layout(width), case).push('\n') && render(m2, start_layout(width), case).len() > 0
                && render(m2, start_layout(width), case).last() == ';'
        }),
{
    let ts = lex(s)->0;
    lemma_lex_wf(s);
    lemma_meaningful_wf(ts);
    let ms = meaningful(ts);
    assert(all_writable(ms));
    lemma_terminate(ms);
    let m2 = terminate(ms);
    let r = render(m2, start_layout(width), case);
    let out = formatted(s, case, width);
    if ms.len() == 0 {
        assert(r == Seq::<char>::empty());
        assert(out == Seq::<char>::empty());
        assert(lex(out) == Some(Seq::<Tok>::empty()));
        assert(meaningful(Seq::<Tok>::empty()) == Seq::<Tok>::empty());
        assert(no_comments(Seq::<Tok>::empty()));
        assert(m2.map_values(|t: Tok| disp(t, case)) =~= Seq::<Tok>::empty());
    } else {
        lemma_render_ends_semi(m2, case, width);
        assert(strip_newlines(r) == r);
        assert(out == r.push('\n'));
        let nl = seq!['\n'];
        lemma_lex_newline();
        lemma_lex_render(m2, start_layout(width), nl, case);
        assert(r + nl =~= out);
        assert(meaningful(lex(out)->0) =~= m2.map_values(|t: Tok| disp(t, case)));
    }
}

/// The text that `format` writes for a formattable input is itself
/// formattable, and is laid out again the same way.
pub proof fn lemma_formatted_fixed(s: Seq<char>, case: KeywordCase, width: nat)
    requires
        formattable(s),
    ensures
        formattable(formatted(s, case, width)),
        formatted(formatted(s, case, width), case, width) == formatted(s, case, width),
{
    lemma_formatted_lex(s, case, width);
    let ms = meaningful(lex(s)->0);
    let m2 = terminate(ms);
    let out = formatted(s, case, width);
    if ms.len() > 0 {
        let dm = m2.map_values(|t: Tok| disp(t, case));
        // Balanced: the same classes, and the added `;` changes no depth.
        lemma_balanced_disp(m2, 0, case);
        if m2 != ms {
            lemma_balanced_semi(ms, 0);
        }
        // Well formed: the grammar sees the same classes, and accepts the added `;`.
        lemma_semi_writable();
        lemma_well_formed_terminate(ms);
        lemma_well_formed_disp(m2, case);
        assert(formattable(out));
        // Laid out again: already terminated, and the display text changes nothing.
        lemma_disp(m2.last(), case);
        assert(dm.last() == disp(m2.last(), case));
        assert(terminate(dm) == dm);
        lemma_render_disp(m2, start_layout(width), case);
        assert(strip_newlines(render(m2, start_layout(width), case)) == render(m2, start_layout(width), case));
    } else {
        assert(meaningful(lex(out)->0) =~= Seq::<Tok>::empty());
    }
}

// ---------------------------------------------------------------------------
// The executable formatter.

/// Appends the characters of `u`.
fn push_vec(out: &mut String, u: &Vec<char>)
    ensures
        final(out)@ == old(out)@ + u@,
{
    push_chars(out, u, 0, u.len());
    assert(u@.subrange(0, u@.len() as int) =~= u@);
}

/// The meaningful tokens, and whether no token is a comment.
fn keep_meaningful(s: &Vec<char>, spans: &Vec<Span>) -> (r: (Vec<Span>, bool))
    requires
        spans_in(spans@, s@.len() as int),
    ensures
        span_toks(r.0@, s@) == meaningful(span_toks(spans@, s@)),
        r.1 == no_comments(span_toks(spans@, s@)),
        spans_in(r.0@, s@.len() as int),
{
    let ghost all = span_toks(spans@, s@);
    let mut out: Vec<Span> = Vec::new();
    let mut clean = true;
    let mut i: usize = 0;
    proof {
        assert(all.skip(0) =~= all);
        assert(span_toks(out@, s@) + meaningful(all) =~= meaningful(all));
    }
    while i < spans.len()
        invariant
            i <= spans.len(),
            all == span_toks(spans@, s@),
            all.len() == spans.len(),
            spans_in(spans@, s@.len() as int),
            spans_in(out@, s@.len() as int),
            meaningful(all) == span_toks(out@, s@) + meaningful(all.skip(i as int)),
            no_comments(all) == (clean && no_comments(all.skip(i as int))),
        decreases spans.len() - i,
    {
        let sp = spans[i];
        let ghost t = sp.tok(s@);
        proof {
            assert(all[i as int] == t);
            assert(all.skip(i as int) =~= seq![t] + all.skip(i + 1));
            lemma_meaningful_cons(t, all.skip(i + 1));
        }
        let is_comment = match sp.kind {
            TokenKind::LineComment => true,
            TokenKind::BlockComment => true,
            _ => false,
        };
        let is_trivia = match sp.kind {
            TokenKind::Whitespace => true,
            TokenKind::LineComment => true,
            TokenKind::BlockComment => true,
            _ => false,
        };
        if is_comment {
            clean = false;
        }
        if !is_trivia {
            let ghost old_out = out@;
            out.push(sp);
            proof {
                assert(span_toks(out@, s@) =~= span_toks(old_out, s@).push(t));
                assert(span_toks(old_out, s@) + (seq![t] + meaningful(all.skip(i + 1)))
                    =~= span_toks(old_out, s@).push(t) + meaningful(all.skip(i + 1)));
            }
        }
        i = i + 1;
    }
    proof {
        assert(all.skip(i as int) =~= Seq::<Tok>::empty());
        assert(span_toks(out@, s@) + Seq::<Tok>::empty() =~= span_toks(out@, s@));
    }
    (out, clean)
}

/// The class of each token.
fn classes_of(s: &Vec<char>, ms: &Vec<Span>) -> (cl: Vec<Class>)
    requires
        spans_in(ms@, s@.len() as int),
    ensures
        cl.len() == ms.len(),
        forall|i: int| 0 <= i < ms.len() ==> cl@[i] == class_of(#[trigger] ms@[i].tok(s@)),
{
    let mut cl: Vec<Class> = Vec::new();
    let mut i: usize = 0;
    while i < ms.len()
        invariant
            i <= ms.len(),
            cl.len() == i,
            spans_in(ms@, s@.len() as int),
            forall|j: int| 0 <= j < i ==> cl@[j] == class_of(#[trigger] ms@[j].tok(s@)),
        decreases ms.len() - i,
    {
        let c = class_exec(s, ms[i]);
        cl.push(c);
        i = i + 1;
    }
    cl
}

/// Whether the parentheses of the tokens are balanced.
fn balanced_exec(Ghost(ms): Ghost<Seq<Tok>>, cl: &Vec<Class>) -> (b: bool)
    requires
        cl.len() == ms.len(),
        forall|i: int| 0 <= i < ms.len() ==> cl@[i] == class_of(#[trigger] ms[i]),
    ensures
        b == balanced(ms),
{
    let mut d: usize = 0;
    let mut i: usize = 0;
    proof {
        assert(ms.skip(0) =~= ms);
    }
    while i < cl.len()
        invariant
            i <= cl.len(),
            cl.len() == ms.len(),
            d <= i,
            forall|j: int| 0 <= j < ms.len() ==> cl@[j] == class_of(#[trigger] ms[j]),
            balanced(ms) == balanced_from(ms.skip(i as int), d as int),
        decreases cl.len() - i,
    {
        proof {
            assert(ms.skip(i as int)[0] == ms[i as int]);
            assert(ms.skip(i as int).drop_first() =~= ms.skip(i + 1));
        }
        let c = cl[i];
        if c == Class::Open {
            d = d + 1;
        } else if c == Class::Close {
            if d == 0 {
                return false;
            }
            d = d - 1;
        }
        i = i + 1;
    }
    proof {
        assert(ms.skip(i as int) =~= Seq::<Tok>::empty());
    }
    d == 0
}

/// Whether the clause that goes on at `from` fits in `budget` characters.
fn fits_exec(s: &Vec<char>, ms: &Vec<Span>, cl: &Vec<Class>, from: usize, budget: usize) -> (b: bool)
    requires
        spans_in(ms@, s@.len() as int),
        cl.len() == ms.len(),
        forall|i: int| 0 <= i < ms.len() ==> cl@[i] == class_of(#[trigger] ms@[i].tok(s@)),
        from <= ms.len(),
    ensures
        b == fits(span_toks(ms@, s@).skip(from as int), 0, budget as nat),
{
    let ghost toks = span_toks(ms@, s@);
    let mut j = from;
    let mut d: usize = 0;
    let mut room = budget;
    while j < ms.len()
        invariant
            from <= j <= ms.len(),
            d <= j,
            toks == span_toks(ms@, s@),
            toks.len() == ms.len(),
            spans_in(ms@, s@.len() as int),
            cl.len() == ms.len(),
            forall|i: int| 0 <= i < ms.len() ==> cl@[i] == class_of(#[trigger] ms@[i].tok(s@)),
            fits(toks.skip(from as int), 0, budget as nat) == fits(toks.skip(j as int), d as nat, room as nat),
        decreases ms.len() - j,
    {
        let sp = ms[j];
        let c = cl[j];
        proof {
            assert(toks[j as int] == sp.tok(s@));
            assert(toks.skip(j as int)[0] == toks[j as int]);
            assert(toks.skip(j as int).drop_first() =~= toks.skip(j + 1));
            assert(sp.start <= sp.end && sp.end <= s.len()) by {
                assert(ms@[j as int] == sp);
            }
        }
        let n = sp.end - sp.start;
        if c == Class::Semi || (d == 0 && starts_clause_exec(c)) {
            return true;
        }
        if n >= room {
            return false;
        }
        room = room - n - 1;
        if c == Class::Open {
            d = d + 1;
        } else if c == Class::Close && d > 0 {
            d = d - 1;
        }
        j = j + 1;
    }
    proof {
        assert(toks.skip(j as int) =~= Seq::<Tok>::empty());
    }
    true
}

/// The layout after the token at `i`, followed by the rest of the tokens.
fn next_exec(s: &Vec<char>, ms: &Vec<Span>, cl: &Vec<Class>, st: &LayoutState, i: usize) -> (r: LayoutState)
    requires
        spans_in(ms@, s@.len() as int),
        cl.len() == ms.len(),
        forall|j: int| 0 <= j < ms.len() ==> cl@[j] == class_of(#[trigger] ms@[j].tok(s@)),
        i < ms.len(),
        st.depth <= i,
        st.col <= st.width,
    ensures
        r@ == next(st@, ms@[i as int].tok(s@), span_toks(ms@, s@).skip(i + 1)),
        r.depth <= st.depth + 1,
        r.col <= r.width,
        r.width == st.width,
{
    let sp = ms[i];
    let c = cl[i];
    proof {
        assert(sp.start <= sp.end && sp.end <= s.len()) by {
            assert(ms@[i as int] == sp);
        }
    }
    let n = sp.end - sp.start;
    let starts_outer_clause = st.depth == 0 && starts_clause_exec(c);
    let mut r = step_exec(st, c, n);
    if starts_outer_clause {
        let room = r.width - r.col;
        r.explode = !fits_exec(s, ms, cl, i + 1, room);
    }
    r
}

/// Lays out the tokens.
fn render_exec(
    s: &Vec<char>,
    ms: &Vec<Span>,
    cl: &Vec<Class>,
    case: KeywordCase,
    width: usize,
) -> (out: String)
    requires
        spans_in(ms@, s@.len() as int),
        cl.len() == ms.len(),
        forall|i: int| 0 <= i < ms.len() ==> cl@[i] == class_of(#[trigger] ms@[i].tok(s@)),
    ensures
        out@ == render(terminate(span_toks(ms@, s@)), start_layout(width as nat), case),
{
    let ghost toks = span_toks(ms@, s@);
    let mut out = String::new();
    let mut st = start_layout_exec(width);
    let mut i: usize = 0;
    proof {
        assert(toks.skip(0) =~= toks);
    }
    while i < ms.len()
        invariant
            i <= ms.len(),
            toks == span_toks(ms@, s@),
            toks.len() == ms.len(),
            cl.len() == ms.len(),
            spans_in(ms@, s@.len() as int),
            forall|j: int| 0 <= j < ms.len() ==> cl@[j] == class_of(#[trigger] ms@[j].tok(s@)),
            st.depth <= i,
            st.col <= st.width,
            render(toks, start_layout(width as nat), case) == out@ + render(toks.skip(i as int), st@, case),
            after(toks, start_layout(width as nat)) == after(toks.skip(i as int), st@),
        decreases ms.len() - i,
    {
        let sp = ms[i];
        let c = cl[i];
        let ghost t = sp.tok(s@);
        proof {
            assert(toks[i as int] == t);
            assert(toks.skip(i as int)[0] == t);
            assert(toks.skip(i as int).drop_first() =~= toks.skip(i + 1));
            assert(spans_in(ms@, s@.len() as int));
            assert(sp.start <= sp.end && sp.end <= s.len()) by {
                assert(ms@[i as int] == sp);
            }
        }
        let ghost before = out@;
        let n = sp.end - sp.start;
        match sep_exec(&st, c, n) {
            Some(x) => push_char(&mut out, x),
            None => {},
        }
        let ghost with_sep = out@;
        assert(with_sep == before + sep(st@, c, n as nat)) by {
            assert(before + Seq::<char>::empty() =~= before);
        }
        if sp.kind == TokenKind::Word && is_keyword_class_exec(c) {
            let u = case_span(s, sp, case);
            push_vec(&mut out, &u);
        } else {
            push_chars(&mut out, s, sp.start, sp.end);
        }
        assert(out@ == with_sep + disp(t, case).text);
        let ghost st_old = st@;
        st = next_exec(s, ms, cl, &st, i);
        proof {
            assert(toks.skip(i as int).drop_first() == toks.skip(i + 1));
            assert(render(toks.skip(i as int), st_old, case) == sep(st_old, c, n as nat) + disp(t, case).text + render(
                toks.skip(i + 1),
                st@,
                case,
            ));
            assert(before + (sep(st_old, c, n as nat) + disp(t, case).text + render(toks.skip(i + 1), st@, case))
                =~= out@ + render(toks.skip(i + 1), st@, case));
        }
        i = i + 1;
    }
    proof {
        assert(toks.skip(i as int) =~= Seq::<Tok>::empty());
        assert(out@ + Seq::<char>::empty() =~= out@);
    }
    if ms.len() > 0 && cl[ms.len() - 1] != Class::Semi {
        proof {
            assert(toks.last() == ms@[ms.len() - 1].tok(s@));
            lemma_semi_writable();
            lemma_render_push(toks, semi_tok(), start_layout(width as nat), case);
        }
        let ghost before = out@;
        match sep_exec(&st, Class::Semi, 1) {
            Some(x) => push_char(&mut out, x),
            None => {},
        }
        push_char(&mut out, ';');
        proof {
            assert(semi_tok().text == seq![';']);
            assert(before + sep(st@, Class::Semi, 1) + seq![';'] =~= out@) by {
                assert(before + Seq::<char>::empty() =~= before);
            }
        }
    } else {
        proof {
            if ms.len() > 0 {
                assert(toks.last() == ms@[ms.len() - 1].tok(s@));
            }
        }
    }
    out
}

/// The meaningful tokens of a formattable text, with their classes; `None`
/// when the text is not formattable.
fn prepare(chars: &Vec<char>) -> (r: Option<(Vec<Span>, Vec<Class>)>)
    ensures
        r is Some <==> formattable(chars@),
        r matches Some((ms, cl)) ==> {
            &&& spans_in(ms@, chars@.len() as int)
            &&& span_toks(ms@, chars@) == meaningful(lex(chars@)->0)
            &&& cl.len() == ms.len()
            &&& forall|i: int| 0 <= i < ms.len() ==> cl@[i] == class_of(#[trigger] ms@[i].tok(chars@))
        },
{
    match lex_spans(chars) {
        None => None,
        Some(spans) => {
            let (ms, clean) = keep_meaningful(chars, &spans);
            if !clean {
                return None;
            }
            let cl = classes_of(chars, &ms);
            let ghost toks = span_toks(ms@, chars@);
            if !balanced_exec(Ghost(toks), &cl) {
                return None;
            }
            if !well_formed_exec(chars, &ms) {
                return None;
            }
            Some((ms, cl))
        },
    }
}

/// Whether `format` lays out `source` (see [`formattable`]) rather than
/// returning it unchanged.
pub fn is_formattable(source: &str) -> (b: bool)
    ensures
        b == formattable(source@),
{
    let chars = collect_chars(source);
    prepare(&chars).is_some()
}

/// Formats `source`: see [`crate::format`].
pub fn format_source(source: &str, case: KeywordCase, width: usize) -> (res: String)
    ensures
        res@ == spec_format(source@, case, width as nat),
{
    let chars = collect_chars(source);
    match prepare(&chars) {
        None => source.to_owned(),
        Some((ms, cl)) => {
            let out = render_exec(&chars, &ms, &cl, case, width);
            normalize_trailing_newline(out)
        },
    }
}

} // verus!
