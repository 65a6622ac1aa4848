//! The layout of a statement: keyword casing, spacing and line breaks.
//!
//! Each statement starts a line, and so does each clause of a query at the
//! outermost level and each table of its `FROM` list. A clause of the
//! outermost level that does not fit on its line is exploded: each of its
//! items starts a line, as the tables of a `FROM` list do; a short one stays
//! on one line. Between two other tokens the layout writes nothing
//! (punctuation that is glued to its neighbours) or a space; the space
//! becomes a line break where the next token would otherwise run past the
//! line width.

use vstd::prelude::*;
use crate::text::{
    upper, upper_char, is_lower, is_upper, lower_char, is_word_char, is_digit, is_space,
    upper_char_exec, lower_char_exec,
};
use crate::lexer::{Tok, TokenKind, Span};
use crate::options::KeywordCase;

verus! {

/// What the layout needs to know of a token.
#[derive(PartialEq, Eq, Structural, Clone, Copy, Debug)]
pub enum Class {
    Open,
    Close,
    OpenBracket,
    CloseBracket,
    Comma,
    Dot,
    Semi,
    Colon,
    DoubleColon,
    OtherSymbol,
    /// An identifier that is not a keyword, or a quoted identifier.
    Name,
    Number,
    /// A string literal.
    Literal,
    /// `SELECT`
    Select,
    /// `FROM`
    From,
    /// A keyword that starts a clause of a query (`WHERE`, `ORDER`, `UNION`, ...).
    Clause,
    /// A keyword that is written like a function call (`CAST(...)`).
    CallKeyword,
    /// Any other keyword.
    Keyword,
}

/// Keywords, other than `SELECT` and `FROM`, that start a clause of a query.
pub open spec fn is_clause_word(u: Seq<char>) -> bool {
    ||| u == "WHERE"@
    ||| u == "GROUP"@
    ||| u == "HAVING"@
    ||| u == "QUALIFY"@
    ||| u == "ORDER"@
    ||| u == "LIMIT"@
    ||| u == "OFFSET"@
    ||| u == "UNION"@
    ||| u == "EXCEPT"@
    ||| u == "INTERSECT"@
    ||| u == "MINUS"@
}

/// Keywords written directly before a parenthesis, like a function name.
pub open spec fn is_call_word(u: Seq<char>) -> bool {
    ||| u == "CAST"@
    ||| u == "TABLE"@
    ||| u == "LEFT"@
    ||| u == "RIGHT"@
}

/// The other keywords, written in the chosen case.
pub open spec fn is_other_keyword(u: Seq<char>) -> bool {
    ||| u == "ALL"@
    ||| u == "AND"@
    ||| u == "ANY"@
    ||| u == "AS"@
    ||| u == "ASC"@
    ||| u == "BETWEEN"@
    ||| u == "BY"@
    ||| u == "CASE"@
    ||| u == "CREATE"@
    ||| u == "CROSS"@
    ||| u == "CURRENT"@
    ||| u == "DELETE"@
    ||| u == "DESC"@
    ||| u == "DISTINCT"@
    ||| u == "ELSE"@
    ||| u == "END"@
    ||| u == "EXCLUDE"@
    ||| u == "EXISTS"@
    ||| u == "FALSE"@
    ||| u == "FIRST"@
    ||| u == "FOLLOWING"@
    ||| u == "FOR"@
    ||| u == "FULL"@
    ||| u == "FUNCTION"@
    ||| u == "ILIKE"@
    ||| u == "IN"@
    ||| u == "INCLUDE"@
    ||| u == "INNER"@
    ||| u == "INSERT"@
    ||| u == "INTO"@
    ||| u == "IS"@
    ||| u == "JOIN"@
    ||| u == "LAST"@
    ||| u == "LANGUAGE"@
    ||| u == "LATERAL"@
    ||| u == "LIKE"@
    ||| u == "MERGE"@
    ||| u == "NATURAL"@
    ||| u == "NOT"@
    ||| u == "NULL"@
    ||| u == "NULLS"@
    ||| u == "ON"@
    ||| u == "OR"@
    ||| u == "OUTER"@
    ||| u == "OVER"@
    ||| u == "PARTITION"@
    ||| u == "PIVOT"@
    ||| u == "PRECEDING"@
    ||| u == "RANGE"@
    ||| u == "PROCEDURE"@
    ||| u == "RECURSIVE"@
    ||| u == "RETURNS"@
    ||| u == "RLIKE"@
    ||| u == "ROW"@
    ||| u == "ROWS"@
    ||| u == "SET"@
    ||| u == "SETS"@
    ||| u == "SOME"@
    ||| u == "THEN"@
    ||| u == "TRUE"@
    ||| u == "UNBOUNDED"@
    ||| u == "UNPIVOT"@
    ||| u == "UPDATE"@
    ||| u == "USING"@
    ||| u == "VALUES"@
    ||| u == "WHEN"@
    ||| u == "WITH"@
}

/// The class of a word, given its upper-cased text.
#[verifier::opaque]
pub open spec fn word_class(u: Seq<char>) -> Class {
    if u == "SELECT"@ {
        Class::Select
    } else if u == "FROM"@ {
        Class::From
    } else if is_clause_word(u) {
        Class::Clause
    } else if is_call_word(u) {
        Class::CallKeyword
    } else if is_other_keyword(u) {
        Class::Keyword
    } else {
        Class::Name
    }
}

#[verifier::opaque]
pub open spec fn symbol_class(t: Seq<char>) -> Class {
    if t.len() == 1 {
        let x = t[0];
        if x == '(' {
            Class::Open
        } else if x == ')' {
            Class::Close
        } else if x == '[' {
            Class::OpenBracket
        } else if x == ']' {
            Class::CloseBracket
        } else if x == ',' {
            Class::Comma
        } else if x == '.' {
            Class::Dot
        } else if x == ';' {
            Class::Semi
        } else if x == ':' {
            Class::Colon
        } else {
            Class::OtherSymbol
        }
    } else if t.len() == 2 && t[0] == ':' && t[1] == ':' {
        Class::DoubleColon
    } else {
        Class::OtherSymbol
    }
}

/// The class of a token.
pub open spec fn class_of(t: Tok) -> Class {
    match t.kind {
        TokenKind::Symbol => symbol_class(t.text),
        TokenKind::Word => word_class(upper(t.text)),
        TokenKind::QuotedIdent => Class::Name,
        TokenKind::Number => Class::Number,
        TokenKind::Str => Class::Literal,
        TokenKind::DollarStr => Class::Literal,
        _ => Class::OtherSymbol,
    }
}

/// The classes of keywords.
pub open spec fn is_keyword_class(c: Class) -> bool {
    c == Class::Select || c == Class::From || c == Class::Clause || c == Class::CallKeyword || c
        == Class::Keyword
}

/// One character of a keyword, written in the given case.
pub open spec fn case_char(case: KeywordCase, c: char) -> char {
    match case {
        KeywordCase::Upper => upper_char(c),
        KeywordCase::Lower => lower_char(c),
        KeywordCase::Preserve => c,
    }
}

/// A keyword's text written in the given case.
pub open spec fn case_text(case: KeywordCase, s: Seq<char>) -> Seq<char> {
    s.map_values(|c: char| case_char(case, c))
}

/// The text a token is written with: keywords in the chosen case, everything
/// else exactly as it was read.
pub open spec fn disp(t: Tok, case: KeywordCase) -> Tok {
    if t.kind == TokenKind::Word && is_keyword_class(class_of(t)) {
        Tok { kind: t.kind, text: case_text(case, t.text) }
    } else {
        t
    }
}

/// Changing the case of a letter changes nothing else of it.
pub proof fn lemma_case_char(case: KeywordCase, c: char)
    ensures
        upper_char(case_char(case, c)) == upper_char(c),
        case_char(case, case_char(case, c)) == case_char(case, c),
        is_word_char(case_char(case, c)) == is_word_char(c),
        is_digit(case_char(case, c)) == is_digit(c),
        is_space(case_char(case, c)) == is_space(c),
        case_char(case, c) == ' ' <==> c == ' ',
        case_char(case, c) == '\n' <==> c == '\n',
        case_char(case, c) == '$' <==> c == '$',
        case_char(case, c) == ':' <==> c == ':',
{
    lemma_upper_char_idem(c);
    if is_upper(c) {
        assert(lower_char(c) as u32 == c as u32 + 32);
    }
}

/// Writing a text in a case keeps its upper-cased form and its length, and
/// writing it again changes nothing.
pub proof fn lemma_case_text(case: KeywordCase, s: Seq<char>)
    ensures
        upper(case_text(case, s)) == upper(s),
        case_text(case, case_text(case, s)) == case_text(case, s),
        case_text(case, s).len() == s.len(),
{
    let t = case_text(case, s);
    assert forall|i: int| 0 <= i < s.len() implies #[trigger] upper(t)[i] == upper(s)[i] && case_text(
        case,
        t,
    )[i] == t[i] by {
        lemma_case_char(case, s[i]);
    }
    assert(upper(t) =~= upper(s));
    assert(case_text(case, t) =~= t);
}

/// Upper-casing twice is upper-casing once.
pub proof fn lemma_upper_char_idem(c: char)
    ensures
        upper_char(upper_char(c)) == upper_char(c),
        is_lower(c) ==> upper_char(c) as u32 == c as u32 - 32,
{
}

/// The display text keeps a token's class and kind, and applied twice changes
/// nothing more.
pub proof fn lemma_disp(t: Tok, case: KeywordCase)
    ensures
        class_of(disp(t, case)) == class_of(t),
        disp(disp(t, case), case) == disp(t, case),
        disp(t, case).kind == t.kind,
        disp(t, case).text.len() == t.text.len(),
{
    if t.kind == TokenKind::Word && is_keyword_class(class_of(t)) {
        lemma_case_text(case, t.text);
    }
}

/// Where the layout stands between two tokens.
pub struct Layout {
    /// How many parentheses are open.
    pub depth: nat,
    /// Whether the tokens since the last `FROM` of this query level are its
    /// table list.
    pub in_from: bool,
    /// The class of the previous token of the text, if any.
    pub prev: Option<Class>,
    /// How many characters the current line holds, counted up to `width`.
    pub col: nat,
    /// The line width.
    pub width: nat,
    /// Whether the current clause of the outermost query level is too long
    /// for its line, and so is written one item per line.
    pub explode: bool,
}

/// The layout before the first token, for lines of `width` characters.
pub open spec fn start_layout(width: nat) -> Layout {
    Layout { depth: 0, in_from: false, prev: None, col: 0, width, explode: false }
}

/// Whether the rest of a clause, `ms` (up to the next clause of the
/// outermost level or the next `;`), fits in `budget` characters, counting
/// each token with one space. `d` is how many parentheses are open.
pub open spec fn fits(ms: Seq<Tok>, d: nat, budget: nat) -> bool
    decreases ms.len(),
{
    if ms.len() == 0 {
        true
    } else {
        let c = class_of(ms[0]);
        if c == Class::Semi || (d == 0 && starts_clause(c)) {
            true
        } else {
            let n = ms[0].text.len() + 1;
            let d2: nat = if c == Class::Open {
                d + 1
            } else if c == Class::Close && d > 0 {
                (d - 1) as nat
            } else {
                d
            };
            n <= budget && fits(ms.drop_first(), d2, (budget - n) as nat)
        }
    }
}

/// `x`, counted up to `w`.
pub open spec fn capped(x: nat, w: nat) -> nat {
    if x < w {
        x
    } else {
        w
    }
}

/// Tokens that are written with nothing between them.
pub open spec fn glue(p: Class, c: Class) -> bool {
    ||| c == Class::Comma || c == Class::Close || c == Class::CloseBracket
    ||| p == Class::Open || p == Class::OpenBracket || p == Class::Dot
    ||| c == Class::Dot && (p == Class::Name || is_keyword_class(p) || p == Class::Close || p
        == Class::CloseBracket)
    ||| c == Class::Open && (p == Class::Name || p == Class::CallKeyword)
    ||| c == Class::OpenBracket && (p == Class::Name || p == Class::Close || p
        == Class::CloseBracket)
    ||| (c == Class::Colon || c == Class::DoubleColon) && (p == Class::Name || is_keyword_class(p)
        || p == Class::Number || p == Class::Literal || p == Class::Close || p
        == Class::CloseBracket)
    ||| (p == Class::Colon || p == Class::DoubleColon) && c != Class::Colon && c
        != Class::DoubleColon
}

/// Classes that start a line at the outermost level of a statement.
pub open spec fn starts_clause(c: Class) -> bool {
    c == Class::Select || c == Class::From || c == Class::Clause
}

/// What is written before a token of class `c` whose text has `n`
/// characters.
#[verifier::opaque]
pub open spec fn sep(st: Layout, c: Class, n: nat) -> Seq<char> {
    match st.prev {
        None => Seq::empty(),
        Some(p) => if p == Class::Semi {
            seq!['\n']
        } else if c == Class::Semi {
            Seq::empty()
        } else if st.depth == 0 && starts_clause(c) {
            seq!['\n']
        } else if st.depth == 0 && st.in_from && p == Class::Comma {
            seq!['\n']
        } else if glue(p, c) {
            Seq::empty()
        } else if st.depth == 0 && st.explode && p == Class::Comma {
            seq!['\n']
        } else if st.col + 1 + n > st.width {
            seq!['\n']
        } else {
            seq![' ']
        },
    }
}

/// The layout after a token of class `c` whose text has `n` characters.
pub open spec fn step(st: Layout, c: Class, n: nat) -> Layout {
    let s = sep(st, c, n);
    Layout {
        depth: if c == Class::Open {
            st.depth + 1
        } else if c == Class::Close && st.depth > 0 {
            (st.depth - 1) as nat
        } else {
            st.depth
        },
        in_from: if st.depth == 0 && c == Class::From {
            true
        } else if st.depth == 0 && (starts_clause(c) || c == Class::Semi) {
            false
        } else {
            st.in_from
        },
        prev: Some(c),
        col: if s == seq!['\n'] {
            capped(n, st.width)
        } else {
            capped(st.col + s.len() + n, st.width)
        },
        width: st.width,
        explode: if c == Class::Semi {
            false
        } else {
            st.explode
        },
    }
}

/// The layout after the token `t`, followed by the tokens `rest`: a clause
/// of the outermost level that starts at `t` is exploded when the rest of
/// it does not fit on the line.
pub open spec fn next(st: Layout, t: Tok, rest: Seq<Tok>) -> Layout {
    let c = class_of(t);
    let s1 = step(st, c, t.text.len());
    if st.depth == 0 && starts_clause(c) {
        Layout { explode: !fits(rest, 0, (s1.width - s1.col) as nat), ..s1 }
    } else {
        s1
    }
}

/// The text of the tokens `ms`, laid out from `st`.
pub open spec fn render(ms: Seq<Tok>, st: Layout, case: KeywordCase) -> Seq<char>
    decreases ms.len(),
{
    if ms.len() == 0 {
        Seq::empty()
    } else {
        let c = class_of(ms[0]);
        sep(st, c, ms[0].text.len()) + disp(ms[0], case).text + render(
            ms.drop_first(),
            next(st, ms[0], ms.drop_first()),
            case,
        )
    }
}

/// The layout after the tokens `ms`.
pub open spec fn after(ms: Seq<Tok>, st: Layout) -> Layout
    decreases ms.len(),
{
    if ms.len() == 0 {
        st
    } else {
        after(ms.drop_first(), next(st, ms[0], ms.drop_first()))
    }
}

/// The `;` that ends a statement.
pub open spec fn semi_tok() -> Tok {
    Tok { kind: TokenKind::Symbol, text: seq![';'] }
}

/// The tokens with a `;` added at the end unless there is one already.
pub open spec fn terminate(ms: Seq<Tok>) -> Seq<Tok> {
    if ms.len() == 0 || class_of(ms.last()) == Class::Semi {
        ms
    } else {
        ms.push(semi_tok())
    }
}

/// Parentheses are balanced: no `)` closes more than was opened, and none is
/// left open.
pub open spec fn balanced_from(ms: Seq<Tok>, d: int) -> bool
    decreases ms.len(),
{
    if ms.len() == 0 {
        d == 0
    } else {
        let c = class_of(ms[0]);
        let d2 = if c == Class::Open {
            d + 1
        } else if c == Class::Close {
            d - 1
        } else {
            d
        };
        d2 >= 0 && balanced_from(ms.drop_first(), d2)
    }
}

/// The parentheses of the tokens are balanced.
pub open spec fn balanced(ms: Seq<Tok>) -> bool {
    balanced_from(ms, 0)
}

/// A `;` at the end changes nothing of whether a clause fits.
pub proof fn lemma_fits_semi(ms: Seq<Tok>, t: Tok, d: nat, budget: nat)
    requires
        class_of(t) == Class::Semi,
    ensures
        fits(ms.push(t), d, budget) == fits(ms, d, budget),
    decreases ms.len(),
{
    if ms.len() == 0 {
        assert(ms.push(t)[0] == t);
    } else {
        assert(ms.push(t)[0] == ms[0]);
        assert(ms.push(t).drop_first() =~= ms.drop_first().push(t));
        let c = class_of(ms[0]);
        let d2: nat = if c == Class::Open {
            d + 1
        } else if c == Class::Close && d > 0 {
            (d - 1) as nat
        } else {
            d
        };
        let n = ms[0].text.len() + 1;
        if n <= budget {
            lemma_fits_semi(ms.drop_first(), t, d2, (budget - n) as nat);
        }
    }
}

/// Whether a clause fits depends only on the classes and lengths of its
/// tokens, which the display text keeps.
pub proof fn lemma_fits_disp(ms: Seq<Tok>, d: nat, budget: nat, case: KeywordCase)
    ensures
        fits(ms.map_values(|t: Tok| disp(t, case)), d, budget) == fits(ms, d, budget),
    decreases ms.len(),
{
    let dm = ms.map_values(|t: Tok| disp(t, case));
    if ms.len() > 0 {
        lemma_disp(ms[0], case);
        assert(dm[0] == disp(ms[0], case));
        assert(dm.drop_first() =~= ms.drop_first().map_values(|t: Tok| disp(t, case)));
        let c = class_of(ms[0]);
        let d2: nat = if c == Class::Open {
            d + 1
        } else if c == Class::Close && d > 0 {
            (d - 1) as nat
        } else {
            d
        };
        let n = ms[0].text.len() + 1;
        if n <= budget {
            lemma_fits_disp(ms.drop_first(), d2, (budget - n) as nat, case);
        }
    }
}

/// Laying out one more token appends its separator and its text.
pub proof fn lemma_render_push(ms: Seq<Tok>, t: Tok, st: Layout, case: KeywordCase)
    requires
        class_of(t) == Class::Semi,
    ensures
        render(ms.push(t), st, case) == render(ms, st, case) + sep(after(ms, st), class_of(t), t.text.len()) + disp(
            t,
            case,
        ).text,
        after(ms.push(t), st) == step(after(ms, st), class_of(t), t.text.len()),
    decreases ms.len(),
{
    if ms.len() == 0 {
        assert(ms.push(t).drop_first() =~= Seq::<Tok>::empty());
        assert(ms.push(t)[0] == t);
        let st1 = step(st, class_of(t), t.text.len());
        assert(next(st, t, Seq::<Tok>::empty()) == st1);
        assert(after(Seq::<Tok>::empty(), st1) == st1);
        assert(render(Seq::<Tok>::empty(), st1, case) == Seq::<char>::empty());
        let s0 = sep(st, class_of(t), t.text.len());
        assert(s0 + disp(t, case).text + Seq::<char>::empty() =~= Seq::<char>::empty() + s0 + disp(
            t,
            case,
        ).text);
    } else {
        let c = class_of(ms[0]);
        assert(ms.push(t).drop_first() =~= ms.drop_first().push(t));
        assert(ms.push(t)[0] == ms[0]);
        let st1 = next(st, ms[0], ms.drop_first());
        lemma_fits_semi(ms.drop_first(), t, 0, (step(st, c, ms[0].text.len()).width - step(
            st,
            c,
            ms[0].text.len(),
        ).col) as nat);
        assert(next(st, ms[0], ms.drop_first().push(t)) == st1);
        lemma_render_push(ms.drop_first(), t, st1, case);
        let r = render(ms.drop_first(), st1, case);
        let x = sep(after(ms.drop_first(), st1), class_of(t), t.text.len()) + disp(t, case).text;
        let s0 = sep(st, c, ms[0].text.len());
        assert(s0 + disp(ms[0], case).text + (r + x) =~= s0 + disp(ms[0], case).text + r + x);
    }
}

/// Writing the tokens with their display text changes nothing.
pub proof fn lemma_render_disp(ms: Seq<Tok>, st: Layout, case: KeywordCase)
    ensures
        render(ms.map_values(|t: Tok| disp(t, case)), st, case) == render(ms, st, case),
        after(ms.map_values(|t: Tok| disp(t, case)), st) == after(ms, st),
    decreases ms.len(),
{
    let dm = ms.map_values(|t: Tok| disp(t, case));
    if ms.len() > 0 {
        lemma_disp(ms[0], case);
        assert(dm.drop_first() =~= ms.drop_first().map_values(|t: Tok| disp(t, case)));
        assert(dm[0] == disp(ms[0], case));
        let s1 = step(st, class_of(ms[0]), ms[0].text.len());
        lemma_fits_disp(ms.drop_first(), 0, (s1.width - s1.col) as nat, case);
        assert(next(st, dm[0], dm.drop_first()) == next(st, ms[0], ms.drop_first()));
        lemma_render_disp(ms.drop_first(), next(st, ms[0], ms.drop_first()), case);
    }
}

// ---------------------------------------------------------------------------
// Classifying tokens.

/// Whether `u` holds exactly the characters of `lit`.
pub(crate) fn eq_lit(u: &Vec<char>, lit: &str) -> (b: bool)
    ensures
        b == (u@ == lit@),
{
    let n = lit.unicode_len();
    if n != u.len() {
        return false;
    }
    let mut i: usize = 0;
    while i < n
        invariant
            n == lit@.len(),
            n == u@.len(),
            i <= n,
            forall|j: int| 0 <= j < i ==> u@[j] == lit@[j],
        decreases n - i,
    {
        if u[i] != lit.get_char(i) {
            return false;
        }
        i = i + 1;
    }
    assert(u@ =~= lit@);
    true
}

fn is_clause_word_exec(u: &Vec<char>) -> (b: bool)
    ensures
        b == is_clause_word(u@),
{
    eq_lit(u, "WHERE") || eq_lit(u, "GROUP") || eq_lit(u, "HAVING") || eq_lit(u, "QUALIFY") || eq_lit(u, "ORDER") || eq_lit(u, "LIMIT") || eq_lit(u, "OFFSET") || eq_lit(u, "UNION") || eq_lit(u, "EXCEPT") || eq_lit(u, "INTERSECT") || eq_lit(u, "MINUS")
}

fn is_call_word_exec(u: &Vec<char>) -> (b: bool)
    ensures
        b == is_call_word(u@),
{
    eq_lit(u, "CAST") || eq_lit(u, "TABLE") || eq_lit(u, "LEFT") || eq_lit(u, "RIGHT")
}

fn is_other_keyword_exec(u: &Vec<char>) -> (b: bool)
    ensures
        b == is_other_keyword(u@),
{
    eq_lit(u, "ALL") || eq_lit(u, "AND") || eq_lit(u, "ANY") || eq_lit(u, "AS") || eq_lit(u, "ASC") || eq_lit(u, "BETWEEN") || eq_lit(u, "BY") || eq_lit(u, "CASE") || eq_lit(u, "CREATE") || eq_lit(u, "CROSS") || eq_lit(u, "CURRENT") || eq_lit(u, "DELETE") || eq_lit(u, "DESC") || eq_lit(u, "DISTINCT") || eq_lit(u, "ELSE") || eq_lit(u, "END") || eq_lit(u, "EXCLUDE") || eq_lit(u, "EXISTS") || eq_lit(u, "FALSE") || eq_lit(u, "FIRST") || eq_lit(u, "FOLLOWING") || eq_lit(u, "FOR") || eq_lit(u, "FULL") || eq_lit(u, "FUNCTION") || eq_lit(u, "ILIKE") || eq_lit(u, "IN") || eq_lit(u, "INCLUDE") || eq_lit(u, "INNER") || eq_lit(u, "INSERT") || eq_lit(u, "INTO") || eq_lit(u, "IS") || eq_lit(u, "JOIN") || eq_lit(u, "LAST") || eq_lit(u, "LANGUAGE") || eq_lit(u, "LATERAL") || eq_lit(u, "LIKE") || eq_lit(u, "MERGE") || eq_lit(u, "NATURAL") || eq_lit(u, "NOT") || eq_lit(u, "NULL") || eq_lit(u, "NULLS") || eq_lit(u, "ON") || eq_lit(u, "OR") || eq_lit(u, "OUTER") || eq_lit(u, "OVER") || eq_lit(u, "PARTITION") || eq_lit(u, "PIVOT") || eq_lit(u, "PRECEDING") || eq_lit(u, "RANGE") || eq_lit(u, "PROCEDURE") || eq_lit(u, "RECURSIVE") || eq_lit(u, "RETURNS") || eq_lit(u, "RLIKE") || eq_lit(u, "ROW") || eq_lit(u, "ROWS") || eq_lit(u, "SET") || eq_lit(u, "SETS") || eq_lit(u, "SOME") || eq_lit(u, "THEN") || eq_lit(u, "TRUE") || eq_lit(u, "UNBOUNDED") || eq_lit(u, "UNPIVOT") || eq_lit(u, "UPDATE") || eq_lit(u, "USING") || eq_lit(u, "VALUES") || eq_lit(u, "WHEN") || eq_lit(u, "WITH")
}

fn word_class_exec(u: &Vec<char>) -> (c: Class)
    ensures
        c == word_class(u@),
{
    reveal(word_class);
    if eq_lit(u, "SELECT") {
        Class::Select
    } else if eq_lit(u, "FROM") {
        Class::From
    } else if is_clause_word_exec(u) {
        Class::Clause
    } else if is_call_word_exec(u) {
        Class::CallKeyword
    } else if is_other_keyword_exec(u) {
        Class::Keyword
    } else {
        Class::Name
    }
}

/// The upper-cased text of a span.
pub fn upper_span(s: &Vec<char>, sp: Span) -> (u: Vec<char>)
    requires
        sp.start <= sp.end <= s.len(),
    ensures
        u@ == upper(sp.tok(s@).text),
{
    let mut u: Vec<char> = Vec::new();
    let mut i = sp.start;
    while i < sp.end
        invariant
            sp.start <= i <= sp.end <= s.len(),
            u@ == upper(s@.subrange(sp.start as int, i as int)),
        decreases sp.end - i,
    {
        u.push(upper_char_exec(s[i]));
        assert(s@.subrange(sp.start as int, i + 1) =~= s@.subrange(sp.start as int, i as int).push(
            s@[i as int],
        ));
        assert(upper(s@.subrange(sp.start as int, i + 1)) =~= upper(
            s@.subrange(sp.start as int, i as int),
        ).push(upper_char(s@[i as int])));
        i = i + 1;
    }
    u
}

/// The text of a span in the given case.
pub fn case_span(s: &Vec<char>, sp: Span, case: KeywordCase) -> (u: Vec<char>)
    requires
        sp.start <= sp.end <= s.len(),
    ensures
        u@ == case_text(case, sp.tok(s@).text),
{
    let mut u: Vec<char> = Vec::new();
    let mut i = sp.start;
    while i < sp.end
        invariant
            sp.start <= i <= sp.end <= s.len(),
            u@ == case_text(case, s@.subrange(sp.start as int, i as int)),
        decreases sp.end - i,
    {
        let c = match case {
            KeywordCase::Upper => upper_char_exec(s[i]),
            KeywordCase::Lower => lower_char_exec(s[i]),
            KeywordCase::Preserve => s[i],
        };
        u.push(c);
        assert(s@.subrange(sp.start as int, i + 1) =~= s@.subrange(sp.start as int, i as int).push(
            s@[i as int],
        ));
        assert(case_text(case, s@.subrange(sp.start as int, i + 1)) =~= case_text(
            case,
            s@.subrange(sp.start as int, i as int),
        ).push(case_char(case, s@[i as int])));
        i = i + 1;
    }
    u
}

fn symbol_class_exec(s: &Vec<char>, sp: Span) -> (c: Class)
    requires
        sp.start <= sp.end <= s.len(),
    ensures
        c == symbol_class(sp.tok(s@).text),
{
    reveal(symbol_class);
    let n = sp.end - sp.start;
    if n == 1 {
        let x = s[sp.start];
        if x == '(' {
            Class::Open
        } else if x == ')' {
            Class::Close
        } else if x == '[' {
            Class::OpenBracket
        } else if x == ']' {
            Class::CloseBracket
        } else if x == ',' {
            Class::Comma
        } else if x == '.' {
            Class::Dot
        } else if x == ';' {
            Class::Semi
        } else if x == ':' {
            Class::Colon
        } else {
            Class::OtherSymbol
        }
    } else if n == 2 && s[sp.start] == ':' && s[sp.start + 1] == ':' {
        Class::DoubleColon
    } else {
        Class::OtherSymbol
    }
}

/// The class of the token at a span.
pub fn class_exec(s: &Vec<char>, sp: Span) -> (c: Class)
    requires
        sp.start <= sp.end <= s.len(),
    ensures
        c == class_of(sp.tok(s@)),
{
    match sp.kind {
        TokenKind::Symbol => symbol_class_exec(s, sp),
        TokenKind::Word => {
            let u = upper_span(s, sp);
            word_class_exec(&u)
        },
        TokenKind::QuotedIdent => Class::Name,
        TokenKind::Number => Class::Number,
        TokenKind::Str => Class::Literal,
        TokenKind::DollarStr => Class::Literal,
        _ => Class::OtherSymbol,
    }
}

pub fn is_keyword_class_exec(c: Class) -> (b: bool)
    ensures
        b == is_keyword_class(c),
{
    c == Class::Select || c == Class::From || c == Class::Clause || c == Class::CallKeyword || c
        == Class::Keyword
}

// ---------------------------------------------------------------------------
// The layout, executable.

/// Where the layout stands between two tokens (see [`Layout`]).
#[derive(Clone, Copy, Debug)]
pub struct LayoutState {
    pub depth: usize,
    pub in_from: bool,
    pub prev: Option<Class>,
    pub col: usize,
    pub width: usize,
    pub explode: bool,
}

impl View for LayoutState {
    type V = Layout;

    open spec fn view(&self) -> Layout {
        Layout {
            depth: self.depth as nat,
            in_from: self.in_from,
            prev: self.prev,
            col: self.col as nat,
            width: self.width as nat,
            explode: self.explode,
        }
    }
}

/// The layout before the first token.
pub fn start_layout_exec(width: usize) -> (st: LayoutState)
    ensures
        st@ == start_layout(width as nat),
        st.col <= st.width,
{
    LayoutState { depth: 0, in_from: false, prev: None, col: 0, width, explode: false }
}

pub(crate) fn starts_clause_exec(c: Class) -> (b: bool)
    ensures
        b == starts_clause(c),
{
    c == Class::Select || c == Class::From || c == Class::Clause
}

fn glue_exec(p: Class, c: Class) -> (b: bool)
    ensures
        b == glue(p, c),
{
    (c == Class::Comma || c == Class::Close || c == Class::CloseBracket) || (p == Class::Open || p
        == Class::OpenBracket || p == Class::Dot) || (c == Class::Dot && (p == Class::Name
        || is_keyword_class_exec(p) || p == Class::Close || p == Class::CloseBracket)) || (c
        == Class::Open && (p == Class::Name || p == Class::CallKeyword)) || (c == Class::OpenBracket
        && (p == Class::Name || p == Class::Close || p == Class::CloseBracket)) || ((c
        == Class::Colon || c == Class::DoubleColon) && (p == Class::Name || is_keyword_class_exec(p)
        || p == Class::Number || p == Class::Literal || p == Class::Close || p
        == Class::CloseBracket)) || ((p == Class::Colon || p == Class::DoubleColon) && c
        != Class::Colon && c != Class::DoubleColon)
}

/// The character written before a token of class `c`, if any.
pub fn sep_exec(st: &LayoutState, c: Class, n: usize) -> (r: Option<char>)
    requires
        st.col <= st.width,
    ensures
        sep(st@, c, n as nat) == match r {
            Some(x) => seq![x],
            None => Seq::<char>::empty(),
        },
{
    reveal(sep);
    match st.prev {
        None => None,
        Some(p) => if p == Class::Semi {
            Some('\n')
        } else if c == Class::Semi {
            None
        } else if st.depth == 0 && starts_clause_exec(c) {
            Some('\n')
        } else if st.depth == 0 && st.in_from && p == Class::Comma {
            Some('\n')
        } else if glue_exec(p, c) {
            None
        } else if st.depth == 0 && st.explode && p == Class::Comma {
            Some('\n')
        } else if !(st.col < st.width && n <= st.width - st.col - 1) {
            Some('\n')
        } else {
            Some(' ')
        },
    }
}

/// The layout after a token of class `c` whose text has `n` characters.
pub fn step_exec(st: &LayoutState, c: Class, n: usize) -> (r: LayoutState)
    requires
        st.depth < usize::MAX,
        st.col <= st.width,
    ensures
        r@ == step(st@, c, n as nat),
        r.depth <= st.depth + 1,
        r.col <= r.width,
        r.width == st.width,
{
    let s = sep_exec(st, c, n);
    proof {
        if let Some(x) = s {
            assert(seq![x][0] == x);
            assert(seq!['\n'][0] == '\n');
            assert(seq![x].len() == 1);
        } else {
            assert(Seq::<char>::empty().len() != seq!['\n'].len());
        }
    }
    let w = st.width;
    let col = match s {
        Some(x) => if x == '\n' {
            if n < w {
                n
            } else {
                w
            }
        } else if n < w - st.col && 1 < w - st.col - n {
            st.col + 1 + n
        } else {
            w
        },
        None => if n < w - st.col {
            st.col + n
        } else {
            w
        },
    };
    LayoutState {
        depth: if c == Class::Open {
            st.depth + 1
        } else if c == Class::Close && st.depth > 0 {
            st.depth - 1
        } else {
            st.depth
        },
        in_from: if st.depth == 0 && c == Class::From {
            true
        } else if st.depth == 0 && (starts_clause_exec(c) || c == Class::Semi) {
            false
        } else {
            st.in_from
        },
        prev: Some(c),
        col,
        width: w,
        explode: if c == Class::Semi {
            false
        } else {
            st.explode
        },
    }
}

} // verus!
