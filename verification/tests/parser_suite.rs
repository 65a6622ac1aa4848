//! Statements of the Snowflake dialect that the formatter must accept: each reads as tokens
//! that give the text back, and the grammar accepts it (so it is laid out, not returned as is).

use snow_formatter::lexer::tokenize;

fn clean(s: &str) {
    assert!(snow_formatter::is_formattable(s), "unexpected errors for {s:?}");
    let joined: String = tokenize(s).expect("tokens").into_iter().map(|t| t.text).collect();
    assert_eq!(joined, s, "round-trip failed for {s:?}");
    let formatted = snow_formatter::format(s);
    assert!(snow_formatter::is_formattable(&formatted), "output not accepted for {s:?}:\n{formatted}");
}

#[test]
fn lateral_flatten() {
    clean("SELECT f.value FROM t, LATERAL FLATTEN(input => t.col) f");
}

#[test]
fn flatten_all_named_args() {
    clean("SELECT * FROM t, TABLE(FLATTEN(input => t.c, path => 'a', outer => true, recursive => false, mode => 'both')) f");
}

#[test]
fn table_wrapper_and_udtf() {
    clean("SELECT * FROM TABLE(FLATTEN(input => parse_json('[1,2]'))) f");
    clean("SELECT * FROM my_udtf(1, 2) x");
    clean("SELECT * FROM TABLE(GENERATOR(rowcount => 10))");
}

#[test]
fn join_lateral_flatten() {
    clean("SELECT * FROM t JOIN LATERAL FLATTEN(input => t.c) f ON f.value IS NOT NULL");
    clean("SELECT * FROM t LEFT JOIN LATERAL FLATTEN(input => t.c) f ON TRUE");
}

#[test]
fn chained_lateral_flatten() {
    clean("SELECT * FROM t, LATERAL FLATTEN(input => t.a) a, LATERAL FLATTEN(input => a.value) b");
}

#[test]
fn flatten_output_columns_are_plain_names() {
    clean("SELECT f.seq, f.key, f.path, f.index, f.value, f.this FROM t, LATERAL FLATTEN(input => t.c) f");
}

#[test]
fn two_step_chain_parses_and_round_trips() {
    clean("SELECT a FROM t ->> SELECT b FROM $1");
}

#[test]
fn three_step_chain() {
    clean(
        "SELECT * FROM dept WHERE dname = 'SALES' \
         ->> SELECT * FROM emp WHERE deptno IN (SELECT deptno FROM $1) \
         ->> SELECT ename, sal FROM $1 ORDER BY 2 DESC",
    );
}

#[test]
fn dollar_reference_is_a_valid_table_ref() {
    clean("SELECT b FROM $1");
    clean("SELECT b FROM $2 AS prev");
}

#[test]
fn values_then_select_chain() {
    clean("VALUES (1), (2) ->> SELECT column1 FROM $1");
}

#[test]
fn grouping_sets() {
    clean("SELECT a, SUM(x) FROM t GROUP BY GROUPING SETS ((a, b), (a), ())");
}

#[test]
fn grouping_sets_mixed_with_plain_columns() {
    clean("SELECT a FROM t GROUP BY a, GROUPING SETS ((b), (c))");
}

#[test]
fn cube_and_rollup_are_call_expressions() {
    clean("SELECT a, SUM(x) FROM t GROUP BY CUBE(a, b)");
    clean("SELECT a, SUM(x) FROM t GROUP BY ROLLUP(a, b)");
    clean("SELECT a FROM t GROUP BY CUBE(a, b)");
}

#[test]
fn grouping_function_is_not_a_keyword() {
    clean("SELECT GROUPING(a), GROUPING_ID(a, b) FROM t GROUP BY a, b");
}

#[test]
fn pivot_with_value_list() {
    clean("SELECT * FROM monthly_sales PIVOT(SUM(amount) FOR month IN ('JAN', 'FEB', 'MAR')) AS p");
}

#[test]
fn unpivot_with_column_list() {
    clean("SELECT * FROM sales UNPIVOT(amount FOR month IN (jan, feb, mar))");
}

#[test]
fn pivot_any_and_subquery() {
    clean("SELECT * FROM t PIVOT(SUM(x) FOR k IN (ANY ORDER BY k))");
    clean("SELECT * FROM t PIVOT(AVG(x) FOR k IN (SELECT DISTINCT k FROM t))");
}

#[test]
fn pivot_then_alias_and_where() {
    clean("SELECT dept FROM emp PIVOT(SUM(sal) FOR mon IN ('jan', 'feb')) p WHERE dept IS NOT NULL");
}

#[test]
fn pivot_values_with_aliases() {
    clean("SELECT * FROM t PIVOT(SUM(amount) FOR month IN ('JAN' AS jan, 'FEB' AS feb))");
    clean("SELECT * FROM t PIVOT(SUM(amount) FOR m IN (1 AS jan, 2 AS feb))");
}

#[test]
fn unpivot_include_nulls() {
    clean("SELECT * FROM t UNPIVOT INCLUDE NULLS (val FOR name IN (a, b, c))");
    clean("SELECT * FROM t UNPIVOT EXCLUDE NULLS (val FOR name IN (a, b))");
}

#[test]
fn round_trips_when_incomplete() {
    for s in ["SELECT * FROM t PIVOT(", "SELECT * FROM t UNPIVOT(x FOR y IN ("] {
        let joined: String = tokenize(s).expect("tokens").into_iter().map(|t| t.text).collect();
        assert_eq!(joined, s, "round-trip failed for {s:?}");
        assert_eq!(snow_formatter::format(s), s);
    }
}

#[test]
fn scalar_subqueries_in_every_position() {
    clean("SELECT (SELECT MAX(x) FROM u) AS m FROM t");
    clean("SELECT a FROM t WHERE a > (SELECT AVG(b) FROM u WHERE u.k = t.k)");
    clean("SELECT a FROM t WHERE a BETWEEN (SELECT MIN(x) FROM u) AND (SELECT MAX(x) FROM u)");
    clean("SELECT a, COUNT(*) c FROM t GROUP BY a HAVING COUNT(*) > (SELECT AVG(c) FROM u)");
    clean("SELECT a FROM t ORDER BY (SELECT x FROM u LIMIT 1)");
    clean("SELECT * FROM a JOIN b ON a.id = (SELECT MAX(id) FROM c WHERE c.x = a.x)");
    clean("SELECT x + (SELECT SUM(y) FROM u) * 2 FROM t");
}

#[test]
fn in_exists_and_quantified() {
    clean("SELECT a FROM t WHERE a IN (SELECT id FROM u)");
    clean("SELECT a FROM t WHERE a NOT IN (SELECT id FROM u WHERE u.flag)");
    clean("SELECT a FROM t WHERE EXISTS (SELECT 1 FROM u WHERE u.id = t.id)");
    clean("SELECT a FROM t WHERE EXISTS (SELECT 1 FROM u)");
    for q in ["ALL", "ANY", "SOME"] {
        clean(&format!("SELECT a FROM t WHERE a > {q} (SELECT x FROM u)"));
    }
    clean("SELECT a FROM t WHERE a <> ANY (SELECT x FROM u)");
    clean("SELECT * FROM t WHERE name LIKE ANY ('a%', 'b%', 'c%')");
}

#[test]
fn derived_tables_and_set_ops() {
    clean("SELECT * FROM (SELECT * FROM (SELECT a FROM t) x) y");
    clean("SELECT * FROM (SELECT a FROM t UNION ALL SELECT a FROM u) x");
    clean("SELECT * FROM (SELECT a, b FROM t) x (c, d)");
    clean("(SELECT a FROM t ORDER BY a) UNION ALL (SELECT b FROM u ORDER BY b)");
    clean("SELECT a FROM t UNION ALL SELECT a FROM u EXCEPT SELECT a FROM v");
}

#[test]
fn with_clauses() {
    clean("WITH a AS (SELECT 1 AS n), b AS (SELECT n + 1 AS m FROM a) SELECT m FROM b");
    clean("WITH RECURSIVE r AS (SELECT 1 AS n UNION ALL SELECT n + 1 FROM r WHERE n < 10) SELECT n FROM r");
    clean("WITH RECURSIVE r (n) AS (SELECT 1 UNION ALL SELECT n + 1 FROM r WHERE n < 5) SELECT n FROM r");
    clean("WITH a (x, y) AS (SELECT 1, 2) SELECT x, y FROM a");
    clean("WITH a AS (VALUES (1), (2)) SELECT * FROM a");
    clean("WITH a AS (SELECT 1) SELECT * FROM a");
}

#[test]
fn nested_with_in_every_position() {
    clean("SELECT * FROM (WITH x AS (SELECT 1 AS n) SELECT n FROM x) y");
    clean("SELECT a FROM t WHERE a IN (WITH x AS (SELECT id FROM u) SELECT id FROM x)");
    clean("WITH a AS (WITH b AS (SELECT 1 AS n) SELECT n FROM b) SELECT n FROM a");
    clean("SELECT (WITH x AS (SELECT 1 AS n) SELECT MAX(n) FROM x) FROM t");
    clean("SELECT a FROM t WHERE a > ALL (WITH x AS (SELECT v FROM u) SELECT v FROM x)");
}

#[test]
fn deeply_nested_and_correlated() {
    clean("SELECT * FROM (SELECT * FROM (SELECT * FROM (SELECT a FROM t) x) y) z");
    clean("SELECT a FROM t WHERE a IN (SELECT id FROM u WHERE id IN (SELECT id FROM v WHERE id > (SELECT MIN(id) FROM w)))");
    clean("WITH RECURSIVE tree AS (SELECT id, parent FROM nodes WHERE parent IS NULL UNION ALL SELECT n.id, n.parent FROM nodes n JOIN tree t ON n.parent = t.id) SELECT * FROM tree WHERE id IN (SELECT id FROM active)");
}
