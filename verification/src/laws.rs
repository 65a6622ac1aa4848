//! The guarantees of the formatter, stated over the model and proved.

use vstd::prelude::*;
use crate::options::KeywordCase;
use crate::text::{upper, spec_normalize_newline, strip_newlines};
use crate::lexer::{
    Tok, TokenKind, lex, scan, meaningful, no_comments, is_trivia_kind, lemma_tok_ends,
};
use crate::layout::{
    class_of, disp, lemma_disp, terminate, semi_tok, render, start_layout, case_text, case_char,
    lemma_case_char, lemma_case_text, Layout, sep, next, is_keyword_class, step, starts_clause, fits,
    Class,
};
use crate::relex::{all_writable, writable, lemma_disp_writable, lemma_sep_shape};
use crate::grammar::{well_formed, can_end, pair_ok, lemma_pair_semi};
use crate::formatter::{
    spec_format, formattable, formatted, lemma_formatted_fixed, lemma_semi_writable,
    lemma_formatted_lex,
};

verus! {

/// Formatting is idempotent: `format(format(x)) == format(x)`.
pub proof fn law_format_idempotent(s: Seq<char>, case: KeywordCase, width: nat)
    ensures
        spec_format(spec_format(s, case, width), case, width) == spec_format(s, case, width),
{
    if formattable(s) {
        lemma_formatted_fixed(s, case, width);
    }
}

/// The formatter never drops a comment: an input holding one is returned
/// byte for byte.
pub proof fn law_comments_kept(s: Seq<char>, case: KeywordCase, width: nat)
    requires
        lex(s) is Some,
        !no_comments(lex(s)->0),
    ensures
        spec_format(s, case, width) == s,
{
}

/// An input that the formatter does not lay out is returned unchanged: one
/// that does not read as tokens, holds a comment, has unbalanced parentheses,
/// or is not a sequence of statements that the grammar accepts.
pub proof fn law_unformattable_unchanged(s: Seq<char>, case: KeywordCase, width: nat)
    requires
        !formattable(s),
    ensures
        spec_format(s, case, width) == s,
{
}

/// Text with a syntax error that the grammar sees (an operator without an
/// operand, a clause with nothing in it, a query where none may start,
/// three operands in a row, a statement that starts with something the
/// grammar does not know) is returned byte for byte.
pub proof fn law_syntax_errors_unchanged(s: Seq<char>, case: KeywordCase, width: nat)
    requires
        lex(s) is Some,
        !well_formed(meaningful(lex(s)->0)),
    ensures
        spec_format(s, case, width) == s,
{
}

/// A `;` token.
pub open spec fn is_semi(t: Tok) -> bool {
    t.kind == TokenKind::Symbol && t.text == seq![';']
}

/// What formatting must keep of a text's tokens: the texts of the tokens
/// that are neither whitespace, comments nor `;`, in upper case.
pub open spec fn signature(ts: Seq<Tok>) -> Seq<Seq<char>>
    decreases ts.len(),
{
    if ts.len() == 0 {
        Seq::empty()
    } else if is_trivia_kind(ts[0].kind) || is_semi(ts[0]) {
        signature(ts.drop_first())
    } else {
        seq![upper(ts[0].text)] + signature(ts.drop_first())
    }
}

proof fn lemma_signature_meaningful(ts: Seq<Tok>)
    ensures
        signature(meaningful(ts)) == signature(ts),
    decreases ts.len(),
{
    if ts.len() > 0 {
        lemma_signature_meaningful(ts.drop_first());
        if !is_trivia_kind(ts[0].kind) {
            let m = seq![ts[0]] + meaningful(ts.drop_first());
            assert(m[0] == ts[0]);
            assert(m.drop_first() =~= meaningful(ts.drop_first()));
        }
    }
}

proof fn lemma_signature_disp(ms: Seq<Tok>, case: KeywordCase)
    ensures
        signature(ms.map_values(|t: Tok| disp(t, case))) == signature(ms),
    decreases ms.len(),
{
    let dm = ms.map_values(|t: Tok| disp(t, case));
    if ms.len() > 0 {
        lemma_disp(ms[0], case);
        lemma_case_text(case, ms[0].text);
        assert(dm[0] == disp(ms[0], case));
        assert(dm.drop_first() =~= ms.drop_first().map_values(|t: Tok| disp(t, case)));
        lemma_signature_disp(ms.drop_first(), case);
    }
}

proof fn lemma_signature_semi(ms: Seq<Tok>)
    ensures
        signature(ms.push(semi_tok())) == signature(ms),
    decreases ms.len(),
{
    let p = ms.push(semi_tok());
    if ms.len() == 0 {
        assert(p[0] == semi_tok());
        assert(p.drop_first() =~= Seq::<Tok>::empty());
        assert(is_semi(semi_tok()));
        assert(signature(p) == signature(Seq::<Tok>::empty()));
    } else {
        assert(p[0] == ms[0]);
        assert(p.drop_first() =~= ms.drop_first().push(semi_tok()));
        lemma_signature_semi(ms.drop_first());
    }
}

/// Formatting keeps every meaningful token, in order: what it writes reads
/// back as the same tokens, up to the case of keywords and the `;` that ends
/// each statement.
pub proof fn law_tokens_preserved(s: Seq<char>, case: KeywordCase, width: nat)
    requires
        lex(s) is Some,
    ensures
        lex(spec_format(s, case, width)) is Some,
        signature(lex(spec_format(s, case, width))->0) == signature(lex(s)->0),
{
    if formattable(s) {
        lemma_formatted_lex(s, case, width);
        let ms = meaningful(lex(s)->0);
        let m2 = terminate(ms);
        let ts2 = lex(formatted(s, case, width))->0;
        lemma_signature_meaningful(ts2);
        lemma_signature_meaningful(lex(s)->0);
        lemma_signature_disp(m2, case);
        if m2 != ms {
            lemma_signature_semi(ms);
        }
    }
}

/// `x` with every line break written as a space.
pub open spec fn flat(x: Seq<char>) -> Seq<char> {
    x.map_values(|c: char| if c == '\n' { ' ' } else { c })
}

proof fn lemma_flat_concat(a: Seq<char>, b: Seq<char>)
    ensures
        flat(a + b) == flat(a) + flat(b),
{
    assert(flat(a + b) =~= flat(a) + flat(b));
}

/// Two layouts that differ only in their column and width write the same
/// text, up to which spaces are line breaks.
proof fn lemma_render_flat(ms: Seq<Tok>, st1: Layout, st2: Layout, case: KeywordCase)
    requires
        st1.depth == st2.depth,
        st1.in_from == st2.in_from,
        st1.prev == st2.prev,
    ensures
        flat(render(ms, st1, case)) == flat(render(ms, st2, case)),
    decreases ms.len(),
{
    if ms.len() > 0 {
        let c = class_of(ms[0]);
        let n = ms[0].text.len();
        reveal(crate::layout::sep);
        let s1 = sep(st1, c, n);
        let s2 = sep(st2, c, n);
        assert(flat(s1) =~= flat(s2));
        let d = disp(ms[0], case).text;
        let r1 = render(ms.drop_first(), next(st1, ms[0], ms.drop_first()), case);
        let r2 = render(ms.drop_first(), next(st2, ms[0], ms.drop_first()), case);
        lemma_render_flat(
            ms.drop_first(),
            next(st1, ms[0], ms.drop_first()),
            next(st2, ms[0], ms.drop_first()),
            case,
        );
        lemma_flat_concat(s1 + d, r1);
        lemma_flat_concat(s1, d);
        lemma_flat_concat(s2 + d, r2);
        lemma_flat_concat(s2, d);
    }
}

/// The line width decides only where a line break stands in place of a
/// space: with every line break written as a space, what `format` writes is
/// the same at every width.
pub proof fn law_width_only_breaks_lines(s: Seq<char>, case: KeywordCase, w1: nat, w2: nat)
    ensures
        flat(spec_format(s, case, w1)) == flat(spec_format(s, case, w2)),
{
    if formattable(s) {
        lemma_formatted_lex(s, case, w1);
        lemma_formatted_lex(s, case, w2);
        let ms = meaningful(lex(s)->0);
        let m2 = terminate(ms);
        if ms.len() > 0 {
            let r1 = render(m2, start_layout(w1), case);
            let r2 = render(m2, start_layout(w2), case);
            lemma_render_flat(m2, start_layout(w1), start_layout(w2), case);
            lemma_flat_concat(r1, seq!['\n']);
            lemma_flat_concat(r2, seq!['\n']);
            assert(r1.push('\n') =~= r1 + seq!['\n']);
            assert(r2.push('\n') =~= r2 + seq!['\n']);
        }
    }
}

/// A space at `i` is directly followed by a line break.
pub open spec fn space_before_break(x: Seq<char>, i: int) -> bool {
    x[i] == ' ' && x[i + 1] == '\n'
}

/// No line of `x` ends with a space.
pub open spec fn no_trailing_space(x: Seq<char>) -> bool {
    &&& forall|i: int| 0 <= i < x.len() - 1 ==> !#[trigger] space_before_break(x, i)
    &&& x.len() > 0 ==> x.last() != ' '
}

/// No space is directly followed by a line break in `x`.
pub open spec fn no_space_break(x: Seq<char>) -> bool {
    forall|i: int| 0 <= i < x.len() - 1 ==> !#[trigger] space_before_break(x, i)
}

proof fn lemma_no_space_break_concat(a: Seq<char>, b: Seq<char>)
    requires
        no_space_break(a),
        no_space_break(b),
        a.len() > 0 ==> a.last() != ' ',
    ensures
        no_space_break(a + b),
{
    let x = a + b;
    assert forall|i: int| 0 <= i < x.len() - 1 implies !#[trigger] space_before_break(x, i) by {
        if i + 1 < a.len() {
            assert(space_before_break(a, i) == space_before_break(x, i));
        } else if i + 1 == a.len() {
            assert(x[i] == a.last());
        } else {
            assert(x[i] == b[i - a.len()]);
            assert(x[i + 1] == b[i + 1 - a.len()]);
            assert(space_before_break(b, i - a.len()) == space_before_break(x, i));
        }
    }
}

proof fn lemma_case_no_space_break(case: KeywordCase, x: Seq<char>)
    requires
        no_space_break(x),
    ensures
        no_space_break(case_text(case, x)),
{
    let u = case_text(case, x);
    assert forall|i: int| 0 <= i < u.len() - 1 implies !#[trigger] space_before_break(u, i) by {
        assert(u[i] == case_char(case, x[i]));
        assert(u[i + 1] == case_char(case, x[i + 1]));
        lemma_case_char(case, x[i]);
        lemma_case_char(case, x[i + 1]);
        assert(!space_before_break(x, i));
    }
}

/// A laid-out text has no space before a line break, and does not end with
/// a space, when none of its tokens holds a space before a line break.
proof fn lemma_render_no_trailing_space(ms: Seq<Tok>, st: Layout, case: KeywordCase)
    requires
        all_writable(ms),
        forall|i: int| 0 <= i < ms.len() ==> no_space_break(#[trigger] ms[i].text),
    ensures
        no_space_break(render(ms, st, case)),
        render(ms, st, case).len() > 0 ==> render(ms, st, case).last() != ' ',
    decreases ms.len(),
{
    if ms.len() > 0 {
        let t0 = ms[0];
        let c0 = class_of(t0);
        let rest = ms.drop_first();
        assert(all_writable(rest)) by {
            assert forall|i: int| 0 <= i < rest.len() implies writable(#[trigger] rest[i]) by {
                assert(rest[i] == ms[i + 1]);
            }
        }
        assert forall|i: int| 0 <= i < rest.len() implies no_space_break(#[trigger] rest[i].text) by {
            assert(rest[i] == ms[i + 1]);
        }
        lemma_render_no_trailing_space(rest, next(st, ms[0], rest), case);
        assert(writable(t0));
        assert(no_space_break(t0.text));
        lemma_disp_writable(t0, case);
        lemma_tok_ends(disp(t0, case));
        let d = disp(t0, case).text;
        if t0.kind == TokenKind::Word && is_keyword_class(class_of(t0)) {
            lemma_case_no_space_break(case, t0.text);
        }
        assert(no_space_break(d));
        let s0 = sep(st, c0, t0.text.len());
        lemma_sep_shape(st, c0, t0.text.len());
        let a = s0 + d;
        assert forall|i: int| 0 <= i < a.len() - 1 implies !#[trigger] space_before_break(a, i) by {
            if s0.len() == 0 {
                assert(a =~= d);
            } else if i == 0 {
                assert(a[1] == d[0]);
            } else {
                assert(a[i] == d[i - 1]);
                assert(a[i + 1] == d[i]);
                assert(space_before_break(d, i - 1) == space_before_break(a, i));
            }
        }
        assert(a.last() == d.last());
        let r1 = render(rest, next(st, ms[0], rest), case);
        lemma_no_space_break_concat(a, r1);
        assert(render(ms, st, case) == a + r1);
        if r1.len() > 0 {
            assert((a + r1).last() == r1.last());
        } else {
            assert(a + r1 =~= a);
        }
    }
}

/// What `format` writes for a formattable input is itself formattable (it
/// reads as tokens, holds no comment, its parentheses are balanced and the
/// grammar accepts its statements) and ends with exactly one line break (or
/// is empty when there is no token); no line of it ends with a space, unless
/// a token of the input (a string literal, say) holds a space before a line
/// break.
pub proof fn law_output_well_formed(s: Seq<char>, case: KeywordCase, width: nat)
    requires
        formattable(s),
    ensures
        formattable(spec_format(s, case, width)),
        well_formed(meaningful(lex(spec_format(s, case, width))->0)),
        spec_format(s, case, width).len() > 0 ==> spec_format(s, case, width).last() == '\n' && (spec_format(s, case, width).len() == 1
            || spec_format(s, case, width)[spec_format(s, case, width).len() - 2] != '\n'),
        spec_format(s, case, width).len() == 0 <==> meaningful(lex(s)->0).len() == 0,
        (forall|i: int|
            0 <= i < meaningful(lex(s)->0).len() ==> no_space_break(
                #[trigger] meaningful(lex(s)->0)[i].text,
            )) ==> no_trailing_space(spec_format(s, case, width)),
{
    lemma_formatted_fixed(s, case, width);
    lemma_formatted_lex(s, case, width);
    let ms = meaningful(lex(s)->0);
    let m2 = terminate(ms);
    let out = spec_format(s, case, width);
    if ms.len() > 0 {
        let r = render(m2, start_layout(width), case);
        assert(out.len() >= 2);
        assert(out[out.len() - 2] == r.last());
        if forall|i: int| 0 <= i < ms.len() ==> no_space_break(#[trigger] ms[i].text) {
            lemma_semi_writable();
            assert forall|i: int| 0 <= i < m2.len() implies no_space_break(#[trigger] m2[i].text) by {
                if i < ms.len() {
                    assert(m2[i] == ms[i]);
                } else {
                    assert(m2[i] == semi_tok());
                }
            }
            lemma_render_no_trailing_space(m2, start_layout(width), case);
            assert forall|i: int| 0 <= i < out.len() - 1 implies !#[trigger] space_before_break(
                out,
                i,
            ) by {
                if i + 1 < r.len() {
                    assert(space_before_break(r, i) == space_before_break(out, i));
                } else {
                    assert(out[i] == r.last());
                }
            }
        }
    }
}

proof fn lemma_strip_newlines(s: Seq<char>)
    ensures
        strip_newlines(s).len() <= s.len(),
        strip_newlines(s).len() > 0 ==> strip_newlines(s).last() != '\n',
        strip_newlines(s) == s.take(strip_newlines(s).len() as int),
        forall|i: int| strip_newlines(s).len() <= i < s.len() ==> s[i] == '\n',
    decreases s.len(),
{
    if s.len() > 0 && s.last() == '\n' {
        lemma_strip_newlines(s.drop_last());
        let k = strip_newlines(s).len() as int;
        assert(s.drop_last().take(k) =~= s.take(k));
        assert forall|i: int| k <= i < s.len() implies s[i] == '\n' by {
            if i < s.len() - 1 {
                assert(s[i] == s.drop_last()[i]);
            }
        }
    } else {
        assert(s.take(s.len() as int) =~= s);
    }
}

/// The trailing-newline rule leaves a non-empty text ending with exactly
/// one line break, takes nothing away but line breaks at the end, and
/// applied twice changes nothing more.
pub proof fn law_normalize_newline(s: Seq<char>)
    ensures
        spec_normalize_newline(spec_normalize_newline(s)) == spec_normalize_newline(s),
        s.len() == 0 ==> spec_normalize_newline(s).len() == 0,
        s.len() > 0 ==> ({
            let r = spec_normalize_newline(s);
            &&& r.last() == '\n'
            &&& r.len() >= 2 ==> r[r.len() - 2] != '\n'
            &&& r.drop_last() == strip_newlines(s)
            &&& s == strip_newlines(s) + s.skip(strip_newlines(s).len() as int)
            &&& forall|i: int| strip_newlines(s).len() <= i < s.len() ==> s[i] == '\n'
        }),
{
    if s.len() > 0 {
        lemma_strip_newlines(s);
        let t = strip_newlines(s);
        let r = t.push('\n');
        assert(r.drop_last() =~= t);
        assert(strip_newlines(r) == strip_newlines(t));
        assert(strip_newlines(t) == t);
        assert(s =~= t + s.skip(t.len() as int));
    }
}

// ---------------------------------------------------------------------------
// Laws of the parts: the table list, long clauses, keywords and operators.

/// Only the tokens between `FROM` and the next clause keyword of the
/// outermost level are a table list (written one table per line): any other
/// clause keyword at the outermost level ends it, and `FROM` starts it.
pub proof fn law_table_list_ends_at_clause(st: Layout, c: Class, n: nat)
    requires
        st.depth == 0,
        starts_clause(c),
    ensures
        step(st, c, n).in_from == (c == Class::From),
        next_in_from(st, c, n),
{
}

/// The layout after a clause keyword of the outermost level, whatever
/// follows it, is in a table list exactly when the keyword is `FROM`.
pub open spec fn next_in_from(st: Layout, c: Class, n: nat) -> bool {
    forall|t: Tok, rest: Seq<Tok>|
        class_of(t) == c && t.text.len() == n ==> #[trigger] next(st, t, rest).in_from == (c
            == Class::From)
}

/// The width of tokens written on one line, each with one space.
pub open spec fn flat_width(ms: Seq<Tok>) -> nat
    decreases ms.len(),
{
    if ms.len() == 0 {
        0
    } else {
        ms[0].text.len() + 1 + flat_width(ms.drop_first())
    }
}

/// Inside parentheses that stay open, no keyword ends a clause: every token
/// counts, and the clause fits exactly when its whole width does. (So a
/// clause holding a subquery is measured to its end, and exploded when it is
/// too long.)
pub proof fn law_clause_measured_through_parentheses(ms: Seq<Tok>, d: nat, budget: nat)
    requires
        d > ms.len(),
        forall|i: int| 0 <= i < ms.len() ==> class_of(#[trigger] ms[i]) != Class::Semi,
    ensures
        fits(ms, d, budget) <==> flat_width(ms) <= budget,
    decreases ms.len(),
{
    if ms.len() > 0 {
        let c = class_of(ms[0]);
        assert(c != Class::Semi);
        let n = ms[0].text.len() + 1;
        let d2: nat = if c == Class::Open {
            d + 1
        } else if c == Class::Close && d > 0 {
            (d - 1) as nat
        } else {
            d
        };
        let rest = ms.drop_first();
        assert forall|i: int| 0 <= i < rest.len() implies class_of(#[trigger] rest[i]) != Class::Semi by {
            assert(rest[i] == ms[i + 1]);
        }
        if n <= budget {
            law_clause_measured_through_parentheses(rest, d2, (budget - n) as nat);
        }
    }
}

proof fn lemma_flat_width_concat(a: Seq<Tok>, b: Seq<Tok>)
    ensures
        flat_width(a + b) == flat_width(a) + flat_width(b),
    decreases a.len(),
{
    if a.len() > 0 {
        assert((a + b).drop_first() =~= a.drop_first() + b);
        assert((a + b)[0] == a[0]);
        lemma_flat_width_concat(a.drop_first(), b);
    }
}

/// Tokens that open no parenthesis, close none and end no statement, at a
/// depth inside parentheses, are all counted.
proof fn lemma_fits_inside(inner: Seq<Tok>, tail: Seq<Tok>, e: nat, budget: nat)
    requires
        e >= 1,
        forall|i: int|
            0 <= i < inner.len() ==> {
                let c = class_of(#[trigger] inner[i]);
                c != Class::Open && c != Class::Close && c != Class::Semi
            },
    ensures
        fits(inner + tail, e, budget) == (flat_width(inner) <= budget && fits(
            tail,
            e,
            (budget - flat_width(inner)) as nat,
        )),
    decreases inner.len(),
{
    if inner.len() == 0 {
        assert(inner + tail =~= tail);
    } else {
        let x = inner + tail;
        assert(x[0] == inner[0]);
        assert(x.drop_first() =~= inner.drop_first() + tail);
        let rest = inner.drop_first();
        assert forall|i: int| 0 <= i < rest.len() implies {
            let c = class_of(#[trigger] rest[i]);
            c != Class::Open && c != Class::Close && c != Class::Semi
        } by {
            assert(rest[i] == inner[i + 1]);
        }
        let n = inner[0].text.len() + 1;
        if n <= budget {
            lemma_fits_inside(rest, tail, e, (budget - n) as nat);
        }
    }
}

/// A parenthesised group is measured whole, keywords inside it included,
/// and what follows it is measured at the depth before it.
pub proof fn law_parenthesised_group_measured_whole(
    open: Tok,
    inner: Seq<Tok>,
    close: Tok,
    more: Seq<Tok>,
    d: nat,
    budget: nat,
)
    requires
        class_of(open) == Class::Open,
        class_of(close) == Class::Close,
        forall|i: int|
            0 <= i < inner.len() ==> {
                let c = class_of(#[trigger] inner[i]);
                c != Class::Open && c != Class::Close && c != Class::Semi
            },
    ensures
        ({
            let g = seq![open] + inner + seq![close];
            fits(g + more, d, budget) == (flat_width(g) <= budget && fits(
                more,
                d,
                (budget - flat_width(g)) as nat,
            ))
        }),
{
    let g = seq![open] + inner + seq![close];
    let x = g + more;
    let tail = seq![close] + more;
    assert(x[0] == open);
    assert(x.drop_first() =~= inner + tail);
    lemma_flat_width_concat(seq![open] + inner, seq![close]);
    lemma_flat_width_concat(seq![open], inner);
    assert(flat_width(seq![open]) == open.text.len() + 1) by {
        assert(seq![open].drop_first() =~= Seq::<Tok>::empty());
        assert(seq![open][0] == open);
        assert(flat_width(Seq::<Tok>::empty()) == 0);
    }
    assert(flat_width(seq![close]) == close.text.len() + 1) by {
        assert(seq![close].drop_first() =~= Seq::<Tok>::empty());
        assert(seq![close][0] == close);
        assert(flat_width(Seq::<Tok>::empty()) == 0);
    }
    assert(tail[0] == close);
    assert(tail.drop_first() =~= more);
    let n0 = open.text.len() + 1;
    if n0 <= budget {
        let b1 = (budget - n0) as nat;
        lemma_fits_inside(inner, tail, d + 1, b1);
    }
}

/// A sort direction, or the `FIRST` / `LAST` of `NULLS FIRST` / `NULLS LAST`,
/// ends an `ORDER BY` item: it can end an expression, and a statement can
/// end right after it.
pub proof fn law_sort_direction_ends_item(t: Tok)
    requires
        t.kind == TokenKind::Word,
        upper(t.text) == "ASC"@ || upper(t.text) == "DESC"@ || upper(t.text) == "FIRST"@ || upper(
            t.text,
        ) == "LAST"@,
    ensures
        can_end(t),
        pair_ok(t, semi_tok()),
{
    lemma_semi_writable();
    reveal(crate::layout::word_class);
    reveal(crate::layout::symbol_class);
    lemma_pair_semi(t);
}

/// Literal keywords (`NULL`, `TRUE`, `FALSE`), the `END` of a `CASE`, and
/// the words that close a window frame or a `PIVOT` value list (`ROW`,
/// `ROWS`, `PRECEDING`, `FOLLOWING`, `ANY`) end an expression, and a
/// statement can end right after them.
pub proof fn law_closing_keywords_end_expressions(t: Tok)
    requires
        t.kind == TokenKind::Word,
        ({
            let u = upper(t.text);
            ||| u == "NULL"@
            ||| u == "TRUE"@
            ||| u == "FALSE"@
            ||| u == "END"@
            ||| u == "ROW"@
            ||| u == "ROWS"@
            ||| u == "PRECEDING"@
            ||| u == "FOLLOWING"@
            ||| u == "ANY"@
        }),
    ensures
        can_end(t),
        pair_ok(t, semi_tok()),
{
    lemma_semi_writable();
    reveal(crate::layout::word_class);
    lemma_pair_semi(t);
}

/// A query may start right after a set operator (`UNION`, `EXCEPT`,
/// `INTERSECT`, `MINUS`, `UNION ALL`).
pub proof fn law_query_follows_set_operator(a: Tok, b: Tok)
    requires
        a.kind == TokenKind::Word,
        b.kind == TokenKind::Word,
        upper(b.text) == "SELECT"@,
        ({
            let u = upper(a.text);
            ||| u == "UNION"@
            ||| u == "EXCEPT"@
            ||| u == "INTERSECT"@
            ||| u == "MINUS"@
            ||| u == "ALL"@
        }),
    ensures
        pair_ok(a, b),
{
    reveal(crate::layout::word_class);
    reveal_strlit("SELECT");
    reveal_strlit("AND");
    reveal_strlit("OR");
    assert("SELECT"@.len() == 6);
    assert("AND"@.len() == 3);
    assert("OR"@.len() == 2);
    assert(upper(b.text) != "AND"@ && upper(b.text) != "OR"@);
}

/// The keywords of queries.
pub open spec fn is_query_keyword(u: Seq<char>) -> bool {
    ||| u == "SELECT"@
    ||| u == "FROM"@
    ||| u == "WHERE"@
    ||| u == "GROUP"@
    ||| u == "HAVING"@
    ||| u == "ORDER"@
    ||| u == "LIMIT"@
    ||| u == "UNION"@
    ||| u == "ALL"@
    ||| u == "AND"@
    ||| u == "ANY"@
    ||| u == "AS"@
    ||| u == "ASC"@
    ||| u == "BETWEEN"@
    ||| u == "BY"@
    ||| u == "CASE"@
    ||| u == "DESC"@
    ||| u == "DISTINCT"@
    ||| u == "ELSE"@
    ||| u == "END"@
    ||| u == "EXISTS"@
    ||| u == "IN"@
    ||| u == "IS"@
    ||| u == "JOIN"@
    ||| u == "LIKE"@
    ||| u == "NOT"@
    ||| u == "NULL"@
    ||| u == "ON"@
    ||| u == "OR"@
    ||| u == "OVER"@
    ||| u == "PARTITION"@
    ||| u == "THEN"@
    ||| u == "WHEN"@
    ||| u == "QUALIFY"@
    ||| u == "OFFSET"@
    ||| u == "EXCEPT"@
    ||| u == "INTERSECT"@
    ||| u == "MINUS"@
    ||| u == "CAST"@
    ||| u == "TABLE"@
    ||| u == "LEFT"@
    ||| u == "RIGHT"@
    ||| u == "CROSS"@
    ||| u == "FULL"@
    ||| u == "INNER"@
    ||| u == "OUTER"@
    ||| u == "NATURAL"@
    ||| u == "LATERAL"@
    ||| u == "USING"@
    ||| u == "WITH"@
    ||| u == "RECURSIVE"@
    ||| u == "VALUES"@
    ||| u == "ILIKE"@
    ||| u == "RLIKE"@
    ||| u == "SOME"@
    ||| u == "FIRST"@
    ||| u == "LAST"@
    ||| u == "NULLS"@
    ||| u == "TRUE"@
    ||| u == "FALSE"@
    ||| u == "ROW"@
    ||| u == "ROWS"@
    ||| u == "RANGE"@
    ||| u == "PRECEDING"@
    ||| u == "FOLLOWING"@
    ||| u == "UNBOUNDED"@
    ||| u == "CURRENT"@
    ||| u == "PIVOT"@
    ||| u == "UNPIVOT"@
    ||| u == "FOR"@
    ||| u == "EXCLUDE"@
    ||| u == "INCLUDE"@
    ||| u == "SETS"@
}

/// Every keyword of a query, whatever case it was read in, is a keyword to
/// the layout and is written in the chosen case (in upper case by default).
pub proof fn law_keywords_take_the_case(t: Tok, case: KeywordCase)
    requires
        t.kind == TokenKind::Word,
        is_query_keyword(upper(t.text)),
    ensures
        is_keyword_class(class_of(t)),
        disp(t, case).text == case_text(case, t.text),
        disp(t, KeywordCase::Upper).text == upper(t.text),
{
    reveal(crate::layout::word_class);
    assert(case_text(KeywordCase::Upper, t.text) =~= upper(t.text));
}

/// The operators of two characters.
pub open spec fn is_two_char_operator(op: Seq<char>) -> bool {
    ||| op == seq!['!', '=']
    ||| op == seq!['<', '>']
    ||| op == seq!['<', '=']
    ||| op == seq!['>', '=']
    ||| op == seq!['=', '>']
    ||| op == seq![':', ':']
    ||| op == seq!['|', '|']
    ||| op == seq!['-', '>']
}

/// The `->>` that chains statements is read as one symbol token.
pub proof fn law_chain_arrow_is_one_token(rest: Seq<char>)
    requires
        lex(rest) is Some,
    ensures
        lex(seq!['-', '>', '>'] + rest) == Some(
            seq![Tok { kind: TokenKind::Symbol, text: seq!['-', '>', '>'] }] + lex(rest)->0,
        ),
{
    let op = seq!['-', '>', '>'];
    let s = op + rest;
    assert(s[0] == '-' && s[1] == '>' && s[2] == '>');
    assert(s.take(3) =~= op);
    assert(s.skip(3) =~= rest);
    assert(scan(s) == Some((TokenKind::Symbol, 3int)));
}

/// An operator of two characters (`!=`, `<>`, `<=`, `>=`, `=>`, `::`, `||`,
/// `->`) is read as one symbol token, whatever follows it (but `->>`, which
/// is an operator of its own).
pub proof fn law_operators_are_one_token(op: Seq<char>, rest: Seq<char>)
    requires
        is_two_char_operator(op),
        op == seq!['-', '>'] ==> !(rest.len() > 0 && rest[0] == '>'),
        lex(rest) is Some,
    ensures
        scan(op + rest) == Some((TokenKind::Symbol, 2int)),
        lex(op + rest) == Some(seq![Tok { kind: TokenKind::Symbol, text: op }] + lex(rest)->0),
{
    let s = op + rest;
    assert(s[0] == op[0] && s[1] == op[1]);
    assert(s.take(2) =~= op);
    assert(s.skip(2) =~= rest);
    assert(scan(s) == Some((TokenKind::Symbol, 2int)));
}

} // verus!
