//! Property tests for the formatter over a curated corpus of real SQL.
//!
//! * Idempotency: `format(format(x)) == format(x)` for every input, formatted or fallback.
//! * Token preservation: formatting only changes trivia and keyword casing; the sequence of
//!   meaningful tokens (modulo case and the synthesized statement terminator) is unchanged.
//! * Well-formedness: formatting an input the formatter accepts yields text it accepts again,
//!   that ends in a single newline and has no trailing whitespace.

use snow_formatter::lexer::{tokenize, TokenKind};

/// A curated set exercising every construct the layout handles.
const CURATED: &[&str] = &[
    "select 1",
    "SELECT a, b AS x, c alias FROM db.sch.t",
    "select distinct a, b from t where a > 1 and b <= 2 or not c",
    "select count(*), sum(x), f(a,b) from t group by a, b having count(*) > 1 order by a desc nulls last limit 10 offset 5",
    "select averyverylongcolumnnamehere, anotherlongcolumnnamehere, yetanotherlongcolumn, andonemore from sometable",
    "select a from t1 join t2 on t1.id = t2.id left outer join t3 on t2.x = t3.x",
    "select a from x, y, z",
    "with c as (select 1 as n), d as (select 2 as m) select n, m from c, d",
    "select 1 union all select 2 except select 3",
    "select case x when 1 then 'a' when 2 then 'b' else 'c' end from t",
    "select case when a then 1 else 0 end",
    "select a::int, cast(b as varchar(10)), payload:items[0].name::string from raw",
    "select x from t where id in (1,2,3) and y between 1 and 10 and z is not null",
    "select x from t where exists (select 1 from u where u.id = t.id)",
    "select sum(x) over (partition by a, b order by c rows between unbounded preceding and current row) from t",
    "select * from (select a from t) sub",
    "values (1, 'a'), (2, 'b'), (3, 'c')",
    "select 1; select 2; select 3",
];

/// Meaningful tokens, upper-cased and with statement terminators dropped.
fn signature(sql: &str) -> Vec<String> {
    tokenize(sql)
        .expect("the input reads as tokens")
        .into_iter()
        .filter(|t| !t.kind.is_trivia() && !(t.kind == TokenKind::Symbol && t.text == ";"))
        .map(|t| t.text.to_ascii_uppercase())
        .collect()
}

/// An input the formatter lays out: it reads as tokens, holds no comment, its parentheses
/// are balanced and the library's grammar accepts its statements.
fn is_formattable(sql: &str) -> bool {
    snow_formatter::is_formattable(sql)
}

#[test]
fn corpus_formatting_is_idempotent() {
    for sql in CURATED {
        let once = snow_formatter::format(sql);
        let twice = snow_formatter::format(&once);
        assert_eq!(once, twice, "not idempotent for:\n{sql}\n--- once ---\n{once}");
    }
}

#[test]
fn formatting_preserves_meaningful_tokens() {
    for sql in CURATED {
        let formatted = snow_formatter::format(sql);
        assert_eq!(
            signature(sql),
            signature(&formatted),
            "token sequence changed for:\n{sql}\n--- formatted ---\n{formatted}"
        );
    }
}

#[test]
fn formattable_inputs_yield_clean_well_formed_sql() {
    for sql in CURATED {
        if !is_formattable(sql) {
            continue;
        }
        let formatted = snow_formatter::format(sql);
        assert!(
            is_formattable(&formatted),
            "formatted output is not valid SQL for:\n{sql}\n--- formatted ---\n{formatted}"
        );
        if !formatted.is_empty() {
            assert!(
                formatted.ends_with('\n') && !formatted.ends_with("\n\n"),
                "output must end with exactly one newline:\n{formatted:?}"
            );
            for line in formatted.lines() {
                assert!(
                    !line.ends_with(' '),
                    "line has trailing whitespace: {line:?}\nin:\n{formatted}"
                );
            }
        }
    }
}

#[test]
fn curated_corpus_is_laid_out() {
    for sql in CURATED {
        let formatted = snow_formatter::format(sql);
        assert!(
            formatted.ends_with(";\n"),
            "the grammar declined a curated statement:\n{sql}\n--- result ---\n{formatted}"
        );
    }
}
