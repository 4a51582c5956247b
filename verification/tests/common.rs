use dee::common::{is_transitive_dep, landing_pad_name, make_temp, schema_prefix, OptimizerError};
use dee::counts::{fold, read_number, Folded, SqlNode};
use dee::dag::{Dag, Graph, MaterializeMode, TransformNode};
use dee::sql::{
    bare_table_name, dialect_for_db, has_top_level_group_by, inline_view_ast, is_printable, rewrite_node_refs,
    select_collapses, wrap_in_materialized_cte, Dialect, Renaming, SelectNode,
};

fn make_dag(nodes: Vec<TransformNode>) -> Dag {
    let mut graph = Graph::new();
    for n in nodes {
        graph.add_node_unchecked(n);
    }
    Dag { db: "test".to_string(), nodes: graph, sources: vec![], max_parallelism: None }
}

fn node(id: &str, mode: MaterializeMode, deps: &[&str], query: &str) -> TransformNode {
    TransformNode {
        id: id.to_string(),
        query_text: query.to_string(),
        materialize: mode,
        depends_on: deps.iter().map(|s| s.to_string()).collect(),
        schema: None,
    }
}

fn depends(n: &TransformNode, id: &str) -> bool {
    n.depends_on.iter().any(|d| d == id)
}

#[test]
fn test_rebase_does_not_touch_a_longer_identifier() {
    let mut dag = make_dag(vec![
        node("orders", MaterializeMode::View, &[], "SELECT * FROM raw"),
        node(
            "m",
            MaterializeMode::Table,
            &["orders"],
            "SELECT o.id FROM orders o JOIN orders_summary s ON s.id = o.id",
        ),
    ]);
    make_temp(&mut dag, "orders").unwrap();
    let sql = dag.nodes.get("m").unwrap().query_text.clone();
    assert!(sql.contains("orders_summary"), "the unrelated relation was renamed: {sql}");
    assert!(!sql.contains("lp_orders_summary"), "a longer identifier was corrupted: {sql}");
    assert!(sql.contains("lp_orders"), "the reference was not repointed: {sql}");
}

#[test]
fn test_rebase_does_not_touch_a_string_literal() {
    let mut dag = make_dag(vec![
        node("orders", MaterializeMode::View, &[], "SELECT * FROM raw"),
        node(
            "m",
            MaterializeMode::Table,
            &["orders"],
            "SELECT count(*) AS n FROM orders WHERE src = 'orders'",
        ),
    ]);
    make_temp(&mut dag, "orders").unwrap();
    let sql = dag.nodes.get("m").unwrap().query_text.clone();
    assert!(
        sql.contains("'orders'"),
        "a string literal was rewritten, silently changing which rows match: {sql}"
    );
}

#[test]
fn test_rebase_does_not_rename_an_output_column() {
    let mut dag = make_dag(vec![
        node("orders", MaterializeMode::View, &[], "SELECT * FROM raw"),
        node("m", MaterializeMode::Table, &["orders"], "SELECT id AS orders FROM orders"),
    ]);
    make_temp(&mut dag, "orders").unwrap();
    let sql = dag.nodes.get("m").unwrap().query_text.clone();
    assert!(
        !sql.contains("AS lp_orders") && !sql.contains("as lp_orders"),
        "the output column was renamed, changing the relation's schema: {sql}"
    );
}

#[test]
fn test_inlining_an_intermediate_view_keeps_its_alias() {
    let mut dag = make_dag(vec![
        node("base", MaterializeMode::View, &[], "SELECT id, amt FROM raw"),
        node("v1", MaterializeMode::View, &["base"], "SELECT id, amt FROM base"),
        node("m", MaterializeMode::Table, &["v1"], "SELECT v1.id, v1.amt FROM v1"),
    ]);
    make_temp(&mut dag, "base").unwrap();
    let sql = dag.nodes.get("m").unwrap().query_text.clone();
    assert!(
        sql.contains("v1"),
        "the inlined subquery lost the alias that `v1.id` resolves against: {sql}"
    );
    assert!(sql.contains("lp_base"), "the pad was not wired in: {sql}");
}

#[test]
fn test_make_temp_twice_leaves_no_self_loop() {
    let mut dag = make_dag(vec![
        node("v", MaterializeMode::View, &[], "SELECT * FROM raw"),
        node("m", MaterializeMode::Table, &["v"], "SELECT * FROM v"),
    ]);
    make_temp(&mut dag, "v").unwrap();
    make_temp(&mut dag, "v").unwrap();

    let lp = dag.nodes.get("lp_v").unwrap();
    assert!(!depends(lp, "lp_v"), "the pad depends on itself: {:?}", lp.depends_on);
    assert!(!lp.query_text.contains("lp_v"), "the pad reads itself: {}", lp.query_text);
    assert!(depends(lp, "v"), "the pad stopped backing its view: {:?}", lp.depends_on);
}

#[test]
fn test_make_temp_direct_table_dep() {
    let mut dag = make_dag(vec![
        node("n", MaterializeMode::View, &[], "SELECT 1 AS x"),
        node("m", MaterializeMode::Table, &["n"], "SELECT x FROM n"),
    ]);

    make_temp(&mut dag, "n").unwrap();

    let lp = dag.nodes.get("lp_n").expect("lp_n must exist");
    assert!(matches!(lp.materialize, MaterializeMode::TempTable));
    assert_eq!(lp.query_text, "SELECT * FROM n");
    assert!(depends(lp, "n"));

    let m = dag.nodes.get("m").unwrap();
    assert!(m.query_text.contains("lp_n"), "m must reference lp_n");
    assert!(!m.query_text.contains(" n"), "m must not reference n directly");
    assert!(depends(m, "lp_n"));
    assert!(!depends(m, "n"));

    let n = dag.nodes.get("n").unwrap();
    assert!(matches!(n.materialize, MaterializeMode::View));
}

#[test]
fn test_make_temp_intermediate_view_inlined() {
    let mut dag = make_dag(vec![
        node("n", MaterializeMode::View, &[], "SELECT 1 AS x"),
        node("v1", MaterializeMode::View, &["n"], "SELECT x FROM n WHERE x > 0"),
        node("m", MaterializeMode::Table, &["v1"], "SELECT x FROM v1"),
    ]);

    make_temp(&mut dag, "n").unwrap();

    let m = dag.nodes.get("m").unwrap();
    assert!(depends(m, "lp_n"), "m must depend on lp_n");
    assert!(!depends(m, "v1"), "m must not depend on v1");
    assert!(!depends(m, "n"), "m must not depend on n");
    assert!(m.query_text.contains("lp_n"), "m query must reference lp_n; got: {}", m.query_text);

    let lp = dag.nodes.get("lp_n").unwrap();
    assert!(matches!(lp.materialize, MaterializeMode::TempTable));
    assert!(depends(lp, "n"));
}

#[test]
fn test_make_temp_multiple_frontier_nodes() {
    let mut dag = make_dag(vec![
        node("n", MaterializeMode::View, &[], "SELECT 1 AS x"),
        node("v1", MaterializeMode::View, &["n"], "SELECT x FROM n"),
        node("m1", MaterializeMode::Table, &["v1"], "SELECT x FROM v1"),
        node("m2", MaterializeMode::Table, &["n"], "SELECT x FROM n"),
    ]);

    make_temp(&mut dag, "n").unwrap();

    let m1 = dag.nodes.get("m1").unwrap();
    assert!(depends(m1, "lp_n"));
    assert!(!depends(m1, "n"));
    assert!(!depends(m1, "v1"));

    let m2 = dag.nodes.get("m2").unwrap();
    assert!(depends(m2, "lp_n"));
    assert!(!depends(m2, "n"));
}

#[test]
fn test_dialect_for_db() {
    assert_eq!(dialect_for_db("duckdb"), Dialect::DuckDB);
    assert_eq!(dialect_for_db("DuckDB"), Dialect::DuckDB);
    assert_eq!(dialect_for_db("postgres"), Dialect::PostgreSQL);
    assert_eq!(dialect_for_db("postgresql"), Dialect::PostgreSQL);
    assert_eq!(dialect_for_db("mysql"), Dialect::MySQL);
    assert_eq!(dialect_for_db("sqlite"), Dialect::SQLite);
    assert_eq!(dialect_for_db("bigquery"), Dialect::BigQuery);
    assert_eq!(dialect_for_db("default"), Dialect::Generic);
    assert_eq!(dialect_for_db("unknown"), Dialect::DuckDB);
}

#[test]
fn a_top_level_group_by_is_recognized() {
    assert!(has_top_level_group_by("SELECT k, count(*) FROM t GROUP BY k", Dialect::DuckDB));
    assert!(has_top_level_group_by("SELECT count(*) FROM t", Dialect::DuckDB));
    assert!(!has_top_level_group_by(
        "SELECT a, row_number() OVER (ORDER BY a) FROM t",
        Dialect::DuckDB
    ));
    // A query that will not parse must answer false rather than panicking.
    assert!(!has_top_level_group_by("NOT SQL AT ALL (((", Dialect::DuckDB));
}

#[test]
fn a_select_collapses_where_it_groups_or_aggregates() {
    assert!(select_collapses(true, &vec![]));
    assert!(!select_collapses(false, &vec![]));
    let part = |kind: &str, aggregate: bool, size: usize| SelectNode { kind: kind.to_string(), aggregate, size };
    assert!(select_collapses(false, &vec![part("string_agg", true, 3)]));
    assert!(select_collapses(false, &vec![part("alias", false, 2), part("sum", true, 1)]));
    assert!(!select_collapses(false, &vec![part("window_function", false, 2), part("sum", true, 1)]));
    assert!(!select_collapses(false, &vec![part("subquery", false, 3), part("select", false, 2), part("max", true, 1)]));
    assert!(
        select_collapses(false, &vec![part("subquery", false, 2), part("column", false, 1), part("max", true, 1)]),
        "the aggregate stands beside the subquery"
    );
}

#[test]
fn any_aggregate_collapses_the_query_it_stands_in() {
    let collapses = |sql: &str| has_top_level_group_by(sql, Dialect::DuckDB);
    assert!(collapses("SELECT string_agg(name, ',') FROM t"));
    assert!(collapses("SELECT count(*) AS n FROM t"));
    assert!(collapses("SELECT 1 + max(x) FROM t"));
    assert!(collapses("SELECT stddev(x) FROM t"));
    assert!(!collapses("SELECT sum(x) OVER (PARTITION BY y) FROM t"));
    assert!(!collapses("SELECT (SELECT max(x) FROM u) AS m FROM t"));
    assert!(!collapses("SELECT upper(name) FROM t"));
}

#[test]
fn a_query_that_cannot_be_printed_is_not_rewritten() {
    let odd = "--/*/\nSELECT x FROM v";
    let renaming = vec![Renaming { node_id: "v".to_string(), new_name: "lp_v".to_string() }];
    assert_eq!(rewrite_node_refs(odd, &renaming, Dialect::DuckDB), None);
    assert_eq!(inline_view_ast(odd, "v", "SELECT 1 AS x", Dialect::DuckDB), None);
    assert_eq!(inline_view_ast("SELECT x FROM v", "v", odd, Dialect::DuckDB), None);
    assert_eq!(wrap_in_materialized_cte(odd, "c", "SELECT 1", Dialect::DuckDB), None);
    assert_eq!(wrap_in_materialized_cte("SELECT 1", "c", odd, Dialect::DuckDB), None);
    assert!(!is_printable("# /*/\nSELECT 1", Dialect::BigQuery));
    assert!(is_printable("/* a */ SELECT 1", Dialect::DuckDB));
    assert!(is_printable("/* /*/ */ */ SELECT 1", Dialect::DuckDB), "a comment that only holds it has an inside");
}

#[test]
fn what_looks_like_an_odd_comment_in_a_string_is_none() {
    let renaming = vec![Renaming { node_id: "n".to_string(), new_name: "lp_n".to_string() }];
    assert_eq!(
        rewrite_node_refs("SELECT '/*/' AS a FROM n", &renaming, Dialect::DuckDB),
        Some("SELECT '/*/' AS a FROM lp_n".to_string())
    );
}

#[test]
fn a_row_count_that_leaves_the_machine_numbers_is_not_printed() {
    let renaming = vec![Renaming { node_id: "t".to_string(), new_name: "u".to_string() }];
    let rewrite = |sql: &str, dialect: Dialect| rewrite_node_refs(sql, &renaming, dialect);
    for dialect in [Dialect::MySQL, Dialect::BigQuery] {
        assert_eq!(rewrite("SELECT a FROM t LIMIT 5 + 5", dialect), Some("SELECT a FROM u LIMIT 10".to_string()));
        assert_eq!(
            rewrite("SELECT a FROM t LIMIT (7 - 2) * 3 OFFSET 9 / 2", dialect),
            Some("SELECT a FROM u LIMIT 15 OFFSET 4".to_string())
        );
        for count in [
            "9223372036854775807 + 1",
            "0 - 9223372036854775807 - 2",
            "9223372036854775807 * 2",
            "(0 - 9223372036854775807 - 1) / (0 - 1)",
        ] {
            assert_eq!(rewrite(&format!("SELECT a FROM t LIMIT {count}"), dialect), None, "{count}");
            assert_eq!(rewrite(&format!("SELECT a FROM t LIMIT 1 OFFSET {count}"), dialect), None, "{count}");
            assert_eq!(rewrite(&format!("SELECT a FROM (SELECT a FROM t LIMIT {count}) AS s"), dialect), None, "{count}");
            assert_eq!(rewrite(&format!("SELECT a FROM t UNION ALL SELECT b FROM t LIMIT {count}"), dialect), None, "{count}");
            assert_eq!(
                inline_view_ast("SELECT a FROM t", "t", &format!("SELECT 1 AS a LIMIT {count}"), dialect),
                None,
                "{count}"
            );
            assert_eq!(
                wrap_in_materialized_cte("SELECT 1", "c", &format!("SELECT 1 AS a LIMIT {count}"), dialect),
                None,
                "{count}"
            );
        }
        assert!(rewrite("SELECT 9223372036854775807 + 1 AS x FROM t", dialect).is_some(), "it is no row count");
        assert!(rewrite("SELECT a FROM t LIMIT 9223372036854775807", dialect).is_some());
        assert!(rewrite("SELECT a FROM t LIMIT 1 / 0", dialect).is_some(), "it is printed as it stands");
        assert!(rewrite("SELECT a FROM t UNION ALL SELECT b FROM t LIMIT 2 + 3", dialect).is_some());
    }
    assert!(rewrite("SELECT a FROM t LIMIT 9223372036854775807 + 1", Dialect::DuckDB).is_some());
}

#[test]
fn constants_are_worked_out_as_the_machine_does() {
    let node = |text: &str, size: usize| SqlNode { text: text.to_string(), size };
    let value = |nodes: Vec<SqlNode>| fold(&nodes, 0, nodes.len());
    assert_eq!(read_number("42"), Some(42));
    assert_eq!(read_number("-9223372036854775808"), Some(i64::MIN));
    assert_eq!(read_number("+0007"), Some(7));
    for other in ["", "-", "9223372036854775808", "1.5", "1e3", "'5'", "0x10"] {
        assert_eq!(read_number(other), None, "{other}");
    }
    assert_eq!(value(vec![node("add", 3), node("2", 1), node("3", 1)]), Folded::Number(5));
    // (2 - 5) / 2 and 2 - (5 / 2)
    assert_eq!(
        value(vec![node("div", 6), node("paren", 4), node("sub", 3), node("2", 1), node("5", 1), node("2", 1)]),
        Folded::Number(-1)
    );
    assert_eq!(
        value(vec![node("sub", 5), node("2", 1), node("div", 3), node("5", 1), node("2", 1)]),
        Folded::Number(0)
    );
    assert_eq!(value(vec![node("mul", 3), node("3037000500", 1), node("3037000500", 1)]), Folded::Overflow);
    assert_eq!(value(vec![node("div", 3), node("1", 1), node("0", 1)]), Folded::Open);
    assert_eq!(value(vec![node("column", 1)]), Folded::Open);
    // The second operand is not looked at where the first is no number.
    assert_eq!(
        value(vec![node("add", 5), node("column", 1), node("mul", 3), node("9223372036854775807", 1), node("2", 1)]),
        Folded::Open
    );
}

#[test]
fn a_failed_promotion_leaves_every_consumer_whole() {
    let mut dag = make_dag(vec![
        node("v", MaterializeMode::View, &[], "SELECT 1 AS x"),
        node("w", MaterializeMode::View, &["v"], "SELECT x FROM v"),
        node("good", MaterializeMode::Table, &["v"], "SELECT x FROM v"),
        node("bad", MaterializeMode::Table, &["w"], "NOT SQL AT ALL ((("),
        node("apart", MaterializeMode::Table, &[], "SELECT 2"),
    ]);
    assert!(make_temp(&mut dag, "v").is_err());
    let bad = dag.nodes.get("bad").unwrap();
    assert_eq!(bad.query_text, "NOT SQL AT ALL (((");
    assert!(depends(bad, "w"));
    let good = dag.nodes.get("good").unwrap();
    assert!(
        (good.query_text == "SELECT x FROM v" && depends(good, "v"))
            || (good.query_text == "SELECT x FROM lp_v" && depends(good, "lp_v"))
    );
    assert_eq!(dag.nodes.get("apart").unwrap().query_text, "SELECT 2");
    assert!(dag.nodes.get("lp_v").is_some());
}

#[test]
fn a_landing_pad_stays_in_its_schema() {
    for id in ["orders", "\"orders\"", "\"main\".\"orders\"", "\"wh\".\"main\".\"orders\""] {
        let pad = landing_pad_name(id);
        assert_eq!(schema_prefix(&pad), schema_prefix(id));
        assert_eq!(bare_table_name(&pad), format!("lp_{}", bare_table_name(id)));
        assert_eq!(pad.ends_with('"'), id.ends_with('"'));
    }
}

#[test]
fn a_view_that_does_not_parse_is_not_inlined_anywhere() {
    let by_order = "SELECT 1 AS x ORDER BY (SELECT x FROM v)";
    assert_eq!(inline_view_ast(by_order, "v", "NOT SQL AT ALL (((", Dialect::DuckDB), None);
}

#[test]
fn an_inlined_view_keeps_the_alias_or_gets_the_views_name() {
    let aliased = inline_view_ast("SELECT t.x FROM v AS t", "v", "SELECT 1 AS x", Dialect::DuckDB).unwrap();
    assert_eq!(aliased, "SELECT t.x FROM (SELECT 1 AS x) AS t");
    let bare = inline_view_ast("SELECT v.x FROM v", "v", "SELECT 1 AS x", Dialect::DuckDB).unwrap();
    assert_eq!(bare, "SELECT v.x FROM (SELECT 1 AS x) AS v");
    let twice = "SELECT a.x FROM v AS a, w, v, (SELECT x FROM v) AS s";
    let got = inline_view_ast(twice, "v", "SELECT x FROM w", Dialect::DuckDB).unwrap();
    assert_eq!(
        got,
        "SELECT a.x FROM (SELECT x FROM w) AS a, w, (SELECT x FROM w) AS v, \
         (SELECT x FROM (SELECT x FROM w) AS v) AS s"
    );
}

#[test]
fn a_materialized_cte_comes_before_the_others() {
    let sql = "WITH b AS (SELECT 2) SELECT * FROM a, b";
    let wrapped = wrap_in_materialized_cte(sql, "a", "SELECT 1", Dialect::DuckDB).unwrap();
    assert_eq!(wrapped, "WITH a AS MATERIALIZED (SELECT 1), b AS (SELECT 2) SELECT * FROM a, b");
    let union = wrap_in_materialized_cte("SELECT 1 UNION SELECT 2", "a", "SELECT 3", Dialect::DuckDB).unwrap();
    assert_eq!(union, "WITH a AS MATERIALIZED (SELECT 3) SELECT 1 UNION SELECT 2");
    assert_eq!(wrap_in_materialized_cte("DROP TABLE t", "a", "SELECT 1", Dialect::DuckDB), None);
}

#[test]
fn a_renamed_reference_loses_its_schema_and_keeps_its_alias() {
    let renaming = vec![Renaming { node_id: "\"s\".\"v\"".to_string(), new_name: "lp_v".to_string() }];
    let got = rewrite_node_refs("SELECT t.x FROM s.v AS t", &renaming, Dialect::DuckDB).unwrap();
    assert_eq!(got, "SELECT t.x FROM lp_v AS t");
}

#[test]
fn every_frontier_consumer_reads_the_pad() {
    let mut dag = make_dag(vec![
        node("v", MaterializeMode::View, &[], "SELECT 1 AS x"),
        node("w", MaterializeMode::View, &["v"], "SELECT x FROM v"),
        node("m", MaterializeMode::Table, &["w"], "SELECT x FROM w"),
        node("n", MaterializeMode::Table, &["v"], "SELECT x FROM v"),
    ]);
    make_temp(&mut dag, "v").unwrap();
    assert!(depends(dag.nodes.get("m").unwrap(), "lp_v"));
    assert!(depends(dag.nodes.get("n").unwrap(), "lp_v"));
}

#[test]
fn a_pad_that_nothing_reads_is_made_all_the_same() {
    let mut dag = make_dag(vec![node("m", MaterializeMode::Table, &[], "SELECT 1")]);
    assert_eq!(make_temp(&mut dag, "alone").unwrap(), "lp_alone");
    assert_eq!(dag.nodes.num_nodes(), 2);
    assert_eq!(dag.nodes.get("m").unwrap().query_text, "SELECT 1");
    assert!(depends(dag.nodes.get("lp_alone").unwrap(), "alone"));
}

#[test]
fn a_consumer_that_cannot_be_read_refuses_the_promotion() {
    let mut dag = make_dag(vec![
        node("v", MaterializeMode::View, &[], "SELECT 1 AS x"),
        node("m", MaterializeMode::Table, &["v"], "NOT SQL AT ALL ((("),
    ]);
    let r = make_temp(&mut dag, "v");
    assert!(matches!(r, Err(OptimizerError::Exec(_))), "got {r:?}");
}

#[test]
fn names_keep_to_their_schema() {
    assert_eq!(schema_prefix("\"wh\".\"main\".\"orders\""), "\"wh\".\"main\".");
    assert_eq!(schema_prefix("orders"), "");
    assert_eq!(landing_pad_name("orders"), "lp_orders");
    assert_eq!(landing_pad_name("\"wh\".\"main\".\"orders\""), "\"wh\".\"main\".\"lp_orders\"");
}

#[test]
fn a_dependency_of_a_dependency_is_one() {
    let dag = make_dag(vec![
        node("a", MaterializeMode::View, &[], "SELECT 1 AS x"),
        node("b", MaterializeMode::View, &["a"], "SELECT x FROM a"),
        node("c", MaterializeMode::Table, &["b"], "SELECT x FROM b"),
    ]);
    assert!(is_transitive_dep(&dag.nodes, "c", "a"));
    assert!(!is_transitive_dep(&dag.nodes, "a", "c"));
}
