//! The statements the formatter lays out: a conservative grammar over the
//! meaningful tokens. Text outside it is returned unchanged.
//!
//! A text is a sequence of statements, each ended by `;` (the last one may
//! omit it). A statement starts with `SELECT`, `WITH`, `VALUES`, `CREATE` or
//! `(`, and ends with something that can end an expression. Each pair of
//! neighbouring tokens must be one a statement allows:
//!
//! * a `,` comes after the end of an expression and before the start of one;
//! * a binary operator (`AND` and `OR` among them) has an operand before it
//!   and an operand after it;
//! * `SELECT` comes only where a query may start: at the start of a
//!   statement, after `(` or `)`, after a set operator or after `->>`;
//! * `FROM` and the other clause keywords come after the end of an
//!   expression (or right after `(`);
//! * `.` stands between names; `:` and `::` after an operand and before a
//!   name, number or string; after `(` comes an operand or `)`;
//! * no number or string follows a number, a string or a `)`, and no `*`
//!   follows a `*`.
//!
//! And no three operands stand in a row: a name, number or string is
//! followed by at most one name (its alias).

use vstd::prelude::*;
use crate::text::upper;
use crate::lexer::{Tok, TokenKind, Span, span_toks, spans_in};
use crate::layout::{
    Class, class_of, is_keyword_class, disp, lemma_disp, lemma_case_text, terminate,
    semi_tok, upper_span, eq_lit, class_exec,
};
use crate::options::KeywordCase;

verus! {

/// A word, whatever its case, is `w`.
pub open spec fn word_is(t: Tok, w: Seq<char>) -> bool {
    t.kind == TokenKind::Word && upper(t.text) == w
}

/// The symbol `x`.
pub open spec fn sym_is(t: Tok, x: char) -> bool {
    t.kind == TokenKind::Symbol && t.text == seq![x]
}

/// Tokens a statement may start with.
pub open spec fn starts_statement(t: Tok) -> bool {
    ||| class_of(t) == Class::Select
    ||| class_of(t) == Class::Open
    ||| word_is(t, "WITH"@)
    ||| word_is(t, "VALUES"@)
    ||| word_is(t, "CREATE"@)
}

/// Tokens after which a query may start: the start of a statement or of a
/// parenthesis, the end of a parenthesis (a `WITH` list, a set operation),
/// a set operator, or the `->>` that chains statements.
pub open spec fn select_may_follow(a: Tok) -> bool {
    ||| class_of(a) == Class::Open
    ||| class_of(a) == Class::Close
    ||| class_of(a) == Class::Semi
    ||| word_is(a, "UNION"@)
    ||| word_is(a, "EXCEPT"@)
    ||| word_is(a, "INTERSECT"@)
    ||| word_is(a, "MINUS"@)
    ||| word_is(a, "ALL"@)
    ||| a.kind == TokenKind::Symbol && a.text == "->>"@
}

/// Names, numbers and string literals: operands of one token.
pub open spec fn atomic(t: Tok) -> bool {
    class_of(t) == Class::Name || class_of(t) == Class::Number || class_of(t) == Class::Literal
}

/// Keywords that may end an expression or a clause.
pub open spec fn ending_keyword(t: Tok) -> bool {
    ||| word_is(t, "NULL"@)
    ||| word_is(t, "TRUE"@)
    ||| word_is(t, "FALSE"@)
    ||| word_is(t, "END"@)
    ||| word_is(t, "ASC"@)
    ||| word_is(t, "DESC"@)
    ||| word_is(t, "FIRST"@)
    ||| word_is(t, "LAST"@)
    ||| word_is(t, "ROW"@)
    ||| word_is(t, "ROWS"@)
    ||| word_is(t, "ANY"@)
    ||| word_is(t, "PRECEDING"@)
    ||| word_is(t, "FOLLOWING"@)
}

/// Tokens that may end an expression.
pub open spec fn can_end(t: Tok) -> bool {
    ||| class_of(t) == Class::Name
    ||| class_of(t) == Class::Number
    ||| class_of(t) == Class::Literal
    ||| class_of(t) == Class::Close
    ||| class_of(t) == Class::CloseBracket
    ||| sym_is(t, '*')
    ||| ending_keyword(t)
}

/// Operators that need an operand on each side.
pub open spec fn binary_op(t: Tok) -> bool {
    ||| class_of(t) == Class::OtherSymbol && !sym_is(t, '*') && !sym_is(t, '-') && !sym_is(t, '+')
    ||| word_is(t, "AND"@)
    ||| word_is(t, "OR"@)
}

/// Tokens that may start an expression (or a part of a clause).
pub open spec fn can_begin(t: Tok) -> bool {
    let c = class_of(t);
    !(c == Class::Comma || c == Class::Close || c == Class::CloseBracket || c == Class::Dot || c
        == Class::Colon || c == Class::DoubleColon || c == Class::Semi) && !binary_op(t)
}

/// Names, keywords used as names, and the other things a path may hold.
pub open spec fn is_name_like(t: Tok) -> bool {
    class_of(t) == Class::Name || is_keyword_class(class_of(t))
}

/// `b` may follow `a`.
pub open spec fn pair_ok(a: Tok, b: Tok) -> bool {
    let ca = class_of(a);
    let cb = class_of(b);
    &&& cb == Class::Comma ==> can_end(a)
    &&& ca == Class::Comma ==> can_begin(b)
    &&& binary_op(a) ==> can_begin(b)
    &&& binary_op(b) ==> can_end(a) || a.kind == TokenKind::Word && b.kind == TokenKind::Symbol
    &&& cb == Class::Select ==> select_may_follow(a)
    &&& !(sym_is(a, '*') && sym_is(b, '*'))
    &&& (cb == Class::Number || cb == Class::Literal) ==> !(ca == Class::Number || ca == Class::Literal
        || ca == Class::Close || ca == Class::CloseBracket)
    &&& (cb == Class::Close || cb == Class::CloseBracket) ==> can_end(a) || ca == Class::Open || ca
        == Class::OpenBracket
    &&& ca == Class::Dot ==> is_name_like(b) || sym_is(b, '*')
    &&& cb == Class::Dot ==> is_name_like(a) || ca == Class::Close || ca == Class::CloseBracket
    &&& (ca == Class::Colon || ca == Class::DoubleColon) ==> is_name_like(b) || cb == Class::Number
        || cb == Class::Literal
    &&& (cb == Class::Colon || cb == Class::DoubleColon) ==> can_end(a) || is_keyword_class(ca)
    &&& (ca == Class::Open || ca == Class::OpenBracket) ==> can_begin(b) || cb == Class::Close || cb
        == Class::CloseBracket
    &&& (cb == Class::From || cb == Class::Clause) ==> can_end(a) || ca == Class::Open
    &&& ca == Class::Semi ==> starts_statement(b)
    &&& cb == Class::Semi ==> can_end(a)
}

/// No three operands in a row: a name, number or literal followed by two
/// names (an operand and its alias is as far as it goes).
pub open spec fn triple_ok(a: Tok, b: Tok, c: Tok) -> bool {
    !(atomic(a) && class_of(b) == Class::Name && class_of(c) == Class::Name)
}

/// The meaningful tokens form statements the formatter lays out.
pub open spec fn well_formed(ms: Seq<Tok>) -> bool {
    &&& ms.len() > 0 ==> starts_statement(ms[0])
    &&& forall|i: int| 0 <= i < ms.len() - 1 ==> #[trigger] pair_ok(ms[i], ms[i + 1])
    &&& forall|i: int| 0 <= i < ms.len() - 2 ==> #[trigger] triple_ok(ms[i], ms[i + 1], ms[i + 2])
    &&& ms.len() > 0 && class_of(ms.last()) != Class::Semi ==> can_end(ms.last())
}

/// `*`, `-` and `+` are operators of their own class.
pub proof fn lemma_sym_class(t: Tok)
    ensures
        sym_is(t, '*') || sym_is(t, '-') || sym_is(t, '+') ==> class_of(t) == Class::OtherSymbol,
{
    reveal(crate::layout::symbol_class);
}

/// A word is a name or a keyword, never punctuation.
pub proof fn lemma_word_class(t: Tok)
    ensures
        t.kind == TokenKind::Word ==> class_of(t) == Class::Name || is_keyword_class(class_of(t)),
{
    reveal(crate::layout::word_class);
}

/// `AND` and `OR` cannot end an expression.
proof fn lemma_logic_not_end(t: Tok)
    ensures
        word_is(t, "AND"@) || word_is(t, "OR"@) ==> !can_end(t),
{
    if word_is(t, "AND"@) || word_is(t, "OR"@) {
        lemma_word_class(t);
        reveal(crate::layout::word_class);
        let u = upper(t.text);
        reveal_strlit("AND");
        reveal_strlit("OR");
        reveal_strlit("NULL");
        reveal_strlit("TRUE");
        reveal_strlit("FALSE");
        reveal_strlit("END");
        reveal_strlit("ASC");
        reveal_strlit("DESC");
        reveal_strlit("FIRST");
        reveal_strlit("LAST");
        reveal_strlit("ROW");
        reveal_strlit("ROWS");
        reveal_strlit("ANY");
        reveal_strlit("PRECEDING");
        reveal_strlit("FOLLOWING");
        assert(u[0] == 'A' || u[0] == 'O');
        assert(u.len() == 3 ==> u[2] == 'D');
        assert(!ending_keyword(t));
    }
}

/// Before the `;` that ends a statement, only an expression's end may stand.
pub proof fn lemma_pair_semi(a: Tok)
    requires
        class_of(a) != Class::Semi,
        class_of(semi_tok()) == Class::Semi,
    ensures
        pair_ok(a, semi_tok()) == can_end(a),
{
    let b = semi_tok();
    lemma_sym_class(a);
    lemma_word_class(a);
    lemma_sym_class(b);
    assert(!binary_op(b));
    assert(!can_begin(b));
    assert(!is_name_like(b));
    assert(!sym_is(b, '*')) by {
        assert(b.text[0] != seq!['*'][0]);
    }
    let ca = class_of(a);
    if can_end(a) {
        lemma_logic_not_end(a);
        assert(!binary_op(a));
        assert(ca != Class::Comma);
        assert(ca != Class::Dot);
        assert(ca != Class::Colon && ca != Class::DoubleColon);
        assert(ca != Class::Open && ca != Class::OpenBracket);
    }
}

// ---------------------------------------------------------------------------
// The grammar sees only what the layout keeps.

/// The grammar's view of a token is the same for its display text.
pub proof fn lemma_grammar_disp(t: Tok, case: KeywordCase)
    ensures
        starts_statement(disp(t, case)) == starts_statement(t),
        can_end(disp(t, case)) == can_end(t),
        can_begin(disp(t, case)) == can_begin(t),
        binary_op(disp(t, case)) == binary_op(t),
        is_name_like(disp(t, case)) == is_name_like(t),
        select_may_follow(disp(t, case)) == select_may_follow(t),
        atomic(disp(t, case)) == atomic(t),
        forall|x: char| sym_is(disp(t, case), x) == sym_is(t, x),
        forall|w: Seq<char>| word_is(disp(t, case), w) == word_is(t, w),
        disp(t, case).kind == t.kind,
        class_of(disp(t, case)) == class_of(t),
{
    lemma_disp(t, case);
    if t.kind == TokenKind::Word && is_keyword_class(class_of(t)) {
        lemma_case_text(case, t.text);
    }
}

pub proof fn lemma_well_formed_disp(ms: Seq<Tok>, case: KeywordCase)
    ensures
        well_formed(ms.map_values(|t: Tok| disp(t, case))) == well_formed(ms),
{
    let dm = ms.map_values(|t: Tok| disp(t, case));
    assert forall|i: int| 0 <= i < ms.len() implies #[trigger] dm[i] == disp(ms[i], case) by {}
    if ms.len() > 0 {
        lemma_grammar_disp(ms[0], case);
        lemma_grammar_disp(ms.last(), case);
        assert(dm.last() == disp(ms.last(), case));
    }
    assert forall|i: int| 0 <= i < ms.len() - 1 implies #[trigger] pair_ok(dm[i], dm[i + 1])
        == pair_ok(ms[i], ms[i + 1]) by {
        lemma_grammar_disp(ms[i], case);
        lemma_grammar_disp(ms[i + 1], case);
    }
    assert forall|i: int| 0 <= i < ms.len() - 2 implies #[trigger] triple_ok(dm[i], dm[i + 1], dm[i + 2])
        == triple_ok(ms[i], ms[i + 1], ms[i + 2]) by {
        lemma_grammar_disp(ms[i], case);
        lemma_grammar_disp(ms[i + 1], case);
        lemma_grammar_disp(ms[i + 2], case);
    }
    if well_formed(ms) {
        assert forall|i: int| 0 <= i < dm.len() - 1 implies #[trigger] pair_ok(dm[i], dm[i + 1]) by {
            assert(pair_ok(ms[i], ms[i + 1]));
        }
        assert forall|i: int| 0 <= i < dm.len() - 2 implies #[trigger] triple_ok(dm[i], dm[i + 1], dm[i + 2]) by {
            assert(triple_ok(ms[i], ms[i + 1], ms[i + 2]));
        }
    }
    if well_formed(dm) {
        assert forall|i: int| 0 <= i < ms.len() - 1 implies #[trigger] pair_ok(ms[i], ms[i + 1]) by {
            assert(pair_ok(dm[i], dm[i + 1]));
        }
        assert forall|i: int| 0 <= i < ms.len() - 2 implies #[trigger] triple_ok(ms[i], ms[i + 1], ms[i + 2]) by {
            assert(triple_ok(dm[i], dm[i + 1], dm[i + 2]));
        }
    }
}

/// Ending the last statement with `;` keeps the tokens well formed.
pub proof fn lemma_well_formed_terminate(ms: Seq<Tok>)
    requires
        class_of(semi_tok()) == Class::Semi,
    ensures
        well_formed(terminate(ms)) == well_formed(ms),
{
    let m2 = terminate(ms);
    if m2 != ms {
        let n = ms.len() as int;
        assert(m2.len() == n + 1);
        assert(m2[n] == semi_tok());
        assert(m2.last() == semi_tok());
        assert(m2[0] == ms[0]);
        assert(class_of(ms.last()) != Class::Semi);
        lemma_pair_semi(ms.last());
        if well_formed(ms) {
            assert forall|i: int| 0 <= i < m2.len() - 1 implies #[trigger] pair_ok(m2[i], m2[i + 1]) by {
                if i < n - 1 {
                    assert(m2[i] == ms[i] && m2[i + 1] == ms[i + 1]);
                    assert(pair_ok(ms[i], ms[i + 1]));
                } else {
                    assert(m2[i] == ms.last());
                }
            }
            assert forall|i: int| 0 <= i < m2.len() - 2 implies #[trigger] triple_ok(m2[i], m2[i + 1], m2[i + 2]) by {
                if i < n - 2 {
                    assert(m2[i] == ms[i] && m2[i + 1] == ms[i + 1] && m2[i + 2] == ms[i + 2]);
                    assert(triple_ok(ms[i], ms[i + 1], ms[i + 2]));
                } else {
                    assert(m2[i + 2] == semi_tok());
                }
            }
        }
        if well_formed(m2) {
            assert forall|i: int| 0 <= i < ms.len() - 1 implies #[trigger] pair_ok(ms[i], ms[i + 1]) by {
                assert(m2[i] == ms[i] && m2[i + 1] == ms[i + 1]);
                assert(pair_ok(m2[i], m2[i + 1]));
            }
            assert forall|i: int| 0 <= i < ms.len() - 2 implies #[trigger] triple_ok(ms[i], ms[i + 1], ms[i + 2]) by {
                assert(m2[i] == ms[i] && m2[i + 1] == ms[i + 1] && m2[i + 2] == ms[i + 2]);
                assert(triple_ok(m2[i], m2[i + 1], m2[i + 2]));
            }
            assert(n >= 1);
            assert(m2[n - 1] == ms.last());
            assert(pair_ok(m2[n - 1], m2[(n - 1) + 1]));
        }
    }
}

// ---------------------------------------------------------------------------
// Checking the grammar.

/// What the grammar needs to know of a token.
#[derive(Clone, Copy)]
pub struct Facts {
    pub class: Class,
    pub is_word: bool,
    pub star: bool,
    pub starts: bool,
    pub ends: bool,
    pub begins: bool,
    pub binary: bool,
    pub name_like: bool,
    pub is_symbol: bool,
    pub select_after: bool,
    pub atomic: bool,
}

pub open spec fn facts_of(f: Facts, t: Tok) -> bool {
    &&& f.class == class_of(t)
    &&& f.is_word == (t.kind == TokenKind::Word)
    &&& f.star == sym_is(t, '*')
    &&& f.starts == starts_statement(t)
    &&& f.ends == can_end(t)
    &&& f.begins == can_begin(t)
    &&& f.binary == binary_op(t)
    &&& f.name_like == is_name_like(t)
    &&& f.is_symbol == (t.kind == TokenKind::Symbol)
    &&& f.select_after == select_may_follow(t)
    &&& f.atomic == atomic(t)
}

/// Whether the token at a span is the symbol `->>`.
fn chain_arrow_exec(s: &Vec<char>, sp: Span) -> (b: bool)
    requires
        sp.start <= sp.end <= s.len(),
    ensures
        b == (sp.tok(s@).kind == TokenKind::Symbol && sp.tok(s@).text == "->>"@),
{
    let ghost t = sp.tok(s@).text;
    proof {
        reveal_strlit("->>");
    }
    if sp.kind == TokenKind::Symbol && sp.end - sp.start == 3 && s[sp.start] == '-' && s[sp.start
        + 1] == '>' && s[sp.start + 2] == '>' {
        assert(t =~= "->>"@);
        true
    } else {
        assert(t.len() == sp.end - sp.start);
        if sp.end - sp.start == 3 {
            assert(t[0] == s@[sp.start as int] && t[1] == s@[sp.start + 1] && t[2] == s@[sp.start + 2]);
        }
        false
    }
}

fn ending_keyword_exec(u: &Vec<char>) -> (b: bool)
    ensures
        b == (u@ == "NULL"@ || u@ == "TRUE"@ || u@ == "FALSE"@ || u@ == "END"@ || u@ == "ASC"@ || u@
            == "DESC"@ || u@ == "FIRST"@ || u@ == "LAST"@ || u@ == "ROW"@ || u@ == "ROWS"@ || u@
            == "ANY"@ || u@ == "PRECEDING"@ || u@ == "FOLLOWING"@),
{
    eq_lit(u, "NULL") || eq_lit(u, "TRUE") || eq_lit(u, "FALSE") || eq_lit(u, "END") || eq_lit(
        u,
        "ASC",
    ) || eq_lit(u, "DESC") || eq_lit(u, "FIRST") || eq_lit(u, "LAST") || eq_lit(u, "ROW")
        || eq_lit(u, "ROWS") || eq_lit(u, "ANY") || eq_lit(u, "PRECEDING") || eq_lit(u, "FOLLOWING")
}

fn sym_is_exec(s: &Vec<char>, sp: Span, x: char) -> (b: bool)
    requires
        sp.start <= sp.end <= s.len(),
    ensures
        b == sym_is(sp.tok(s@), x),
{
    let ghost t = sp.tok(s@).text;
    if sp.kind == TokenKind::Symbol && sp.end - sp.start == 1 && s[sp.start] == x {
        assert(t =~= seq![x]);
        true
    } else {
        assert(sp.end - sp.start == 1 ==> t[0] == s@[sp.start as int]);
        assert(t.len() == sp.end - sp.start);
        false
    }
}

/// The grammar's view of the token at a span.
pub fn facts_exec(s: &Vec<char>, sp: Span) -> (f: Facts)
    requires
        sp.start <= sp.end <= s.len(),
    ensures
        facts_of(f, sp.tok(s@)),
{
    let ghost t = sp.tok(s@);
    let class = class_exec(s, sp);
    let is_word = sp.kind == TokenKind::Word;
    let star = sym_is_exec(s, sp, '*');
    let minus = sym_is_exec(s, sp, '-');
    let plus = sym_is_exec(s, sp, '+');
    let (with_or_create, values, ending) = if is_word {
        let u = upper_span(s, sp);
        (eq_lit(&u, "WITH") || eq_lit(&u, "CREATE"), eq_lit(&u, "VALUES"), ending_keyword_exec(&u))
    } else {
        (false, false, false)
    };
    let (set_op, logic) = if is_word {
        let u = upper_span(s, sp);
        (
            eq_lit(&u, "UNION") || eq_lit(&u, "EXCEPT") || eq_lit(&u, "INTERSECT") || eq_lit(
                &u,
                "MINUS",
            ) || eq_lit(&u, "ALL"),
            eq_lit(&u, "AND") || eq_lit(&u, "OR"),
        )
    } else {
        (false, false)
    };
    let is_symbol = sp.kind == TokenKind::Symbol;
    let arrow = chain_arrow_exec(s, sp);
    let select_after = class == Class::Open || class == Class::Close || class == Class::Semi
        || set_op || arrow;
    let atomic = class == Class::Name || class == Class::Number || class == Class::Literal;
    let starts = class == Class::Select || class == Class::Open || with_or_create || values;
    let ends = class == Class::Name || class == Class::Number || class == Class::Literal || class
        == Class::Close || class == Class::CloseBracket || star || ending;
    let binary = class == Class::OtherSymbol && !star && !minus && !plus || logic;
    let begins = !(class == Class::Comma || class == Class::Close || class == Class::CloseBracket
        || class == Class::Dot || class == Class::Colon || class == Class::DoubleColon || class
        == Class::Semi) && !binary;
    let name_like = class == Class::Name || class == Class::Select || class == Class::From || class
        == Class::Clause || class == Class::CallKeyword || class == Class::Keyword;
    Facts {
        class,
        is_word,
        star,
        starts,
        ends,
        begins,
        binary,
        name_like,
        is_symbol,
        select_after,
        atomic,
    }
}

fn pair_ok_exec(a: &Facts, b: &Facts, Ghost(ta): Ghost<Tok>, Ghost(tb): Ghost<Tok>) -> (r: bool)
    requires
        facts_of(*a, ta),
        facts_of(*b, tb),
    ensures
        r == pair_ok(ta, tb),
{
    let ca = a.class;
    let cb = b.class;
    let kw_a = ca == Class::Select || ca == Class::From || ca == Class::Clause || ca
        == Class::CallKeyword || ca == Class::Keyword;
    (cb != Class::Comma || a.ends) && (ca != Class::Comma || b.begins) && (!a.binary || b.begins)
        && (!b.binary || a.ends || a.is_word && b.is_symbol) && (cb != Class::Select
        || a.select_after) && !(a.star && b.star) && (!(cb == Class::Number || cb == Class::Literal)
        || !(ca == Class::Number || ca == Class::Literal || ca == Class::Close || ca
        == Class::CloseBracket)) && (!(cb == Class::Close || cb == Class::CloseBracket)
        || a.ends || ca == Class::Open || ca == Class::OpenBracket) && (ca != Class::Dot
        || b.name_like || b.star) && (cb != Class::Dot || a.name_like || ca == Class::Close || ca
        == Class::CloseBracket) && (!(ca == Class::Colon || ca == Class::DoubleColon) || b.name_like
        || cb == Class::Number || cb == Class::Literal) && (!(cb == Class::Colon || cb
        == Class::DoubleColon) || a.ends || kw_a) && (!(ca == Class::Open || ca
        == Class::OpenBracket) || b.begins || cb == Class::Close || cb == Class::CloseBracket) && (!(cb
        == Class::From || cb == Class::Clause) || a.ends || ca == Class::Open) && (ca != Class::Semi
        || b.starts) && (cb != Class::Semi || a.ends)
}

/// Whether the tokens at the spans form statements the formatter lays out.
pub fn well_formed_exec(s: &Vec<char>, ms: &Vec<Span>) -> (b: bool)
    requires
        spans_in(ms@, s@.len() as int),
    ensures
        b == well_formed(span_toks(ms@, s@)),
{
    let ghost toks = span_toks(ms@, s@);
    let n = ms.len();
    if n == 0 {
        return true;
    }
    let first = facts_exec(s, ms[0]);
    if !first.starts {
        return false;
    }
    let mut prev = first;
    let mut before_prev_atomic = false;
    let mut i: usize = 1;
    while i < n
        invariant
            1 <= i <= n,
            before_prev_atomic == (i >= 2 && atomic(toks[i - 2])),
            forall|j: int| 0 <= j < i - 2 ==> #[trigger] triple_ok(toks[j], toks[j + 1], toks[j + 2]),
            n == ms.len(),
            toks == span_toks(ms@, s@),
            spans_in(ms@, s@.len() as int),
            facts_of(prev, toks[i - 1]),
            starts_statement(toks[0]),
            forall|j: int| 0 <= j < i - 1 ==> #[trigger] pair_ok(toks[j], toks[j + 1]),
        decreases n - i,
    {
        let cur = facts_exec(s, ms[i]);
        assert(toks[i as int] == ms@[i as int].tok(s@));
        if !pair_ok_exec(&prev, &cur, Ghost(toks[i - 1]), Ghost(toks[i as int])) {
            assert(!pair_ok(toks[i - 1], toks[(i - 1) + 1]));
            return false;
        }
        if before_prev_atomic && prev.class == Class::Name && cur.class == Class::Name {
            assert(!triple_ok(toks[i - 2], toks[(i - 2) + 1], toks[(i - 2) + 2]));
            return false;
        }
        before_prev_atomic = prev.atomic;
        prev = cur;
        i = i + 1;
    }
    prev.class == Class::Semi || prev.ends
}

} // verus!
