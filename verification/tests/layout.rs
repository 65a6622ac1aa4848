//! Exact outputs of the formatter on small inputs.

fn fmt(sql: &str) -> String {
    snow_formatter::format(sql)
}

#[test]
fn empty_input_stays_empty() {
    assert_eq!(fmt(""), "");
}

#[test]
fn whitespace_only_input_becomes_empty() {
    assert_eq!(fmt("   \n\t  \n"), "");
}

#[test]
fn single_select_gets_terminator_and_newline() {
    assert_eq!(fmt("select 1"), "SELECT 1;\n");
}

#[test]
fn existing_terminator_is_not_doubled() {
    assert_eq!(fmt("select 1;"), "SELECT 1;\n");
    assert_eq!(fmt("select 1;\n\n\n"), "SELECT 1;\n");
}

#[test]
fn keywords_upper_identifiers_kept() {
    assert_eq!(fmt("Select MyCol From MyTable"), "SELECT MyCol\nFROM MyTable;\n");
}

#[test]
fn each_clause_on_its_own_line() {
    assert_eq!(
        fmt("select a, count(*) from t where a > 1 group by a having count(*) > 2 order by a limit 5"),
        "SELECT a, count(*)\nFROM t\nWHERE a > 1\nGROUP BY a\nHAVING count(*) > 2\nORDER BY a\nLIMIT 5;\n",
    );
}

#[test]
fn from_list_one_item_per_line() {
    assert_eq!(fmt("select a from x, y, z"), "SELECT a\nFROM x,\ny,\nz;\n");
}

#[test]
fn nested_query_stays_on_its_line() {
    assert_eq!(
        fmt("select * from (select a from t where b = 1) x"),
        "SELECT *\nFROM (SELECT a FROM t WHERE b = 1) x;\n",
    );
}

#[test]
fn statements_one_per_line() {
    assert_eq!(fmt("select 1; select 2;select 3"), "SELECT 1;\nSELECT 2;\nSELECT 3;\n");
}

#[test]
fn set_operations_break_lines() {
    assert_eq!(fmt("select 1 union all select 2"), "SELECT 1\nUNION ALL\nSELECT 2;\n");
}

#[test]
fn punctuation_is_glued() {
    assert_eq!(
        fmt("select a :: int , b [ 0 ] . c , f ( x ) from t"),
        "SELECT a::int, b[0].c, f(x)\nFROM t;\n",
    );
}

#[test]
fn semi_structured_paths_and_casts() {
    assert_eq!(
        fmt("select payload:items[0].name::string from raw"),
        "SELECT payload:items[0].name::string\nFROM raw;\n",
    );
}

#[test]
fn strings_and_quoted_identifiers_verbatim() {
    assert_eq!(
        fmt("select 'it''s', \"My Col\", $$ body $$ from t"),
        "SELECT 'it''s', \"My Col\", $$ body $$\nFROM t;\n",
    );
}

#[test]
fn comment_input_returned_unchanged() {
    let sql = "select 1 -- note\nfrom t";
    assert_eq!(fmt(sql), sql);
    let sql = "/* header */ select 1";
    assert_eq!(fmt(sql), sql);
}

#[test]
fn unterminated_input_returned_unchanged() {
    for sql in ["select 'abc", "select \"abc", "select /* x", "select $$ body"] {
        assert_eq!(fmt(sql), sql);
    }
}

#[test]
fn unbalanced_input_returned_unchanged() {
    for sql in ["select (1", "select 1)", "select * from t pivot("] {
        assert_eq!(fmt(sql), sql);
    }
}

#[test]
fn keyword_before_parenthesis_keeps_a_space() {
    assert_eq!(
        fmt("select a from t where a in (select b from u) and exists(select 1)"),
        "SELECT a\nFROM t\nWHERE a IN (SELECT b FROM u) AND EXISTS (SELECT 1);\n",
    );
}

#[test]
fn dot_after_number_returned_unchanged() {
    assert_eq!(fmt("select 1 . 5"), "select 1 . 5");
}

#[test]
fn colon_after_colon_returned_unchanged() {
    assert_eq!(fmt("select a : : b"), "select a : : b");
}

#[test]
fn text_that_is_no_statement_returned_unchanged() {
    for sql in ["+", "1", "from t", "where a = 1", ";", "select 1;;", "a b c"] {
        assert_eq!(fmt(sql), sql);
    }
}

#[test]
fn incomplete_statements_returned_unchanged() {
    for sql in [
        "select a from",
        "select a,",
        "select 1 +",
        "select , a",
        "select a from t where",
        "select a = = b",
        "select (a,)",
        "select f(,)",
        "select a.",
        "select a from t; from u",
    ] {
        assert_eq!(fmt(sql), sql);
    }
}

#[test]
fn statements_the_grammar_accepts() {
    assert_eq!(fmt("with a as (select 1) select * from a"), "WITH a AS (SELECT 1)\nSELECT *\nFROM a;\n");
    assert_eq!(fmt("values (1, 2), (3, 4)"), "VALUES (1, 2), (3, 4);\n");
    assert_eq!(fmt("(select 1)"), "(SELECT 1);\n");
    assert_eq!(fmt("select -1, +2"), "SELECT - 1, + 2;\n");
    assert_eq!(fmt("select t.* from t"), "SELECT t.*\nFROM t;\n");
}

#[test]
fn exponent_literal_kept_whole() {
    assert_eq!(fmt("select 1e-5"), "SELECT 1e-5;\n");
    assert_eq!(fmt("select 2.5E+10 * x"), "SELECT 2.5E+10 * x;\n");
    assert_eq!(fmt("select 1e-5 - 2"), "SELECT 1e-5 - 2;\n");
}

#[test]
fn sign_without_exponent_digit_is_an_operator() {
    assert_eq!(fmt("select 1e - 5"), "SELECT 1e - 5;\n");
    assert_eq!(fmt("select 1-5"), "SELECT 1 - 5;\n");
    assert_eq!(fmt("select 1e-x"), "SELECT 1e - x;\n");
}

#[test]
fn keyword_case_lower() {
    let opts = snow_formatter::FormatOptions {
        keyword_case: snow_formatter::KeywordCase::Lower,
        ..snow_formatter::FormatOptions::default()
    };
    assert_eq!(
        snow_formatter::format_with("SELECT A FROM T WHERE X IS NULL", &opts),
        "select A\nfrom T\nwhere X is null;\n",
    );
}

#[test]
fn keyword_case_preserve() {
    let opts = snow_formatter::FormatOptions {
        keyword_case: snow_formatter::KeywordCase::Preserve,
        ..snow_formatter::FormatOptions::default()
    };
    let once = snow_formatter::format_with("Select a FROM t where b", &opts);
    assert_eq!(once, "Select a\nFROM t\nwhere b;\n");
    assert_eq!(snow_formatter::format_with(&once, &opts), once);
}

#[test]
fn default_options_are_upper_case() {
    let opts = snow_formatter::FormatOptions::default();
    assert_eq!(opts.keyword_case, snow_formatter::KeywordCase::Upper);
    assert_eq!(opts.line_width, 80);
    assert_eq!(snow_formatter::format_with("select 1", &opts), snow_formatter::format("select 1"));
}

#[test]
fn snowflake_forms_are_laid_out() {
    for sql in [
        "select * from t pivot(sum(x) for k in (any order by k))",
        "select * from t pivot(sum(x) for k in (any))",
        "select * from t unpivot include nulls (val for name in (a, b, c))",
        "select a, sum(x) from t group by grouping sets ((a, b), (a), ())",
        "select a, sum(x) from t group by rollup(a, b)",
        "select a from t ->> select b from $1",
        "values (1), (2) ->> select column1 from $1",
        "select f.seq, f.key, f.path, f.index, f.value, f.this from t, lateral flatten(input => t.c) f",
        "select a from t limit 5 offset 2 rows",
        "select * exclude (a) from t",
        "select count(distinct a) from t where x = -1 and y || z like '%q'",
    ] {
        let formatted = fmt(sql);
        assert!(formatted.ends_with(";\n"), "declined:\n{sql}\n---\n{formatted}");
        assert_eq!(fmt(&formatted), formatted);
    }
}

fn with_width(sql: &str, line_width: usize) -> String {
    let opts = snow_formatter::FormatOptions { line_width, ..snow_formatter::FormatOptions::default() };
    snow_formatter::format_with(sql, &opts)
}

#[test]
fn long_clauses_are_exploded() {
    assert_eq!(
        fmt("select averyverylongcolumnnamehere, anotherlongcolumnnamehere, yetanotherlongcolumn, andonemore from sometable"),
        "SELECT averyverylongcolumnnamehere,\nanotherlongcolumnnamehere,\nyetanotherlongcolumn,\nandonemore\nFROM sometable;\n",
    );
}

#[test]
fn long_clause_without_commas_breaks_at_the_width() {
    assert_eq!(
        with_width("select a from t where aaaa = 1 and bbbb = 2", 20),
        "SELECT a\nFROM t\nWHERE aaaa = 1 AND\nbbbb = 2;\n",
    );
}

#[test]
fn short_constructs_stay_on_one_line() {
    assert_eq!(with_width("select aaa, bbb from t", 20), "SELECT aaa, bbb\nFROM t;\n");
}

#[test]
fn narrow_width_explodes_the_clause() {
    let once = with_width("select aaa, bbb, ccc from t", 10);
    assert_eq!(once, "SELECT aaa,\nbbb,\nccc\nFROM t;\n");
    assert_eq!(with_width(&once, 10), once);
}

#[test]
fn zero_width_puts_every_space_on_a_new_line() {
    let once = with_width("select a, f(x) from t", 0);
    assert_eq!(once, "SELECT\na,\nf(x)\nFROM\nt;\n");
    assert_eq!(with_width(&once, 0), once);
}

#[test]
fn width_only_turns_spaces_into_line_breaks() {
    let sql = "select a + b * c, (select max(x) from u where u.k = t.k) from t where a in (1, 2, 3)";
    let wide = with_width(sql, 200);
    for w in [0, 5, 20, 40, 80] {
        let narrow = with_width(sql, w);
        assert_eq!(narrow.replace('\n', " "), wide.replace('\n', " "));
        assert_eq!(with_width(&narrow, w), narrow);
    }
}

#[test]
fn text_that_no_statement_allows_returned_unchanged() {
    for sql in [
        "select select 1",
        "select 1 select 2",
        "select a b c from t",
        "select * *",
        "select 1 2",
        "select 'a' 'b'",
        "select and a",
        "select a from t where a = 1 and",
        "select a, select b",
        "select a = select b",
    ] {
        assert_eq!(fmt(sql), sql);
        assert!(!snow_formatter::is_formattable(sql));
    }
}

#[test]
fn create_function_with_an_embedded_body() {
    let sql = "CREATE FUNCTION add(a FLOAT, b FLOAT) RETURNS FLOAT LANGUAGE JAVASCRIPT AS $$\n  return A + B;\n$$;";
    let once = fmt(sql);
    assert_eq!(
        once,
        "CREATE FUNCTION add(a FLOAT, b FLOAT) RETURNS FLOAT LANGUAGE JAVASCRIPT AS\n$$\n  return A + B;\n$$;\n",
    );
    assert_eq!(fmt(&once), once);
    assert_eq!(
        fmt("create function f() returns int language sql as 'select 1'"),
        "CREATE FUNCTION f() RETURNS int LANGUAGE sql AS 'select 1';\n",
    );
}
