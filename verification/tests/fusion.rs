use dee::chain::CteProfile;
use dee::combo::HmpObjective;
use dee::common::OptimizerError;
use dee::dag::{Dag, Graph, MaterializeMode, SourceNode, TransformNode};
use dee::dup::SubtreeCostMethod;
use dee::fusion::{fresh_name, fused_node_name, supports_materialized_hint, upstream_closure, MaterializeRule};
use dee::fusion_explain::{explain_html, search_panel};
use dee::fusion_pricing::{FusionPricing, SearchSetup, Stage};
use dee::fusion_search::{fused_query_for, probe_query, NodeFusionInFlight, NodeFusionState, NothingToSearch, Turn};
use dee::learned::LearnedCostModel;
use dee::nodefusion::{FusionConfig, NodeFusionPass};
use dee::sql::Dialect;
use dee::step::{BudgetMetric, Learned, OptimizationType, ResumeTiming, RunReport, SearchPhase, StepPhase};
use dee::table::TextMap;

fn node(id: &str, query: &str, mode: MaterializeMode, deps: &[&str], columns: &[&str]) -> TransformNode {
    TransformNode {
        id: id.to_string(),
        query_text: query.to_string(),
        materialize: mode,
        depends_on: deps.iter().map(|s| s.to_string()).collect(),
        schema: if columns.is_empty() { None } else { Some(columns.iter().map(|s| s.to_string()).collect()) },
    }
}

fn make_dag(nodes: Vec<TransformNode>) -> Dag {
    let mut graph = Graph::new();
    for n in nodes {
        graph.add_node(n).unwrap();
    }
    Dag {
        db: "DuckDB".to_string(),
        nodes: graph,
        sources: vec![SourceNode { name: "orders".to_string(), schema: vec![] }],
        max_parallelism: None,
    }
}

///   orders (a real table)
///     └─ stg (View) ──┬──► by_region (Table)
///                     └──► totals    (Table)
fn two_table_dag() -> Dag {
    make_dag(vec![
        node(
            "stg",
            "SELECT order_id, region, amount FROM orders WHERE amount > 0",
            MaterializeMode::View,
            &[],
            &["order_id", "region", "amount"],
        ),
        node(
            "by_region",
            "SELECT region, count(*) AS n, sum(amount) AS total FROM stg GROUP BY region",
            MaterializeMode::Table,
            &["stg"],
            &["region", "n", "total"],
        ),
        node(
            "totals",
            "SELECT count(*) AS orders, sum(amount) AS amount_sum FROM stg",
            MaterializeMode::Table,
            &["stg"],
            &["orders", "amount_sum"],
        ),
    ])
}

fn layered_dag() -> Dag {
    make_dag(vec![
        node(
            "stg",
            "SELECT order_id, region, amount FROM orders",
            MaterializeMode::View,
            &[],
            &["order_id", "region", "amount"],
        ),
        node(
            "base",
            "SELECT region, sum(amount) AS total FROM stg GROUP BY region",
            MaterializeMode::Table,
            &["stg"],
            &["region", "total"],
        ),
        node(
            "enriched",
            "SELECT region, total, total * 2 AS doubled FROM base",
            MaterializeMode::View,
            &["base"],
            &["region", "total", "doubled"],
        ),
        node(
            "rollup",
            "SELECT sum(doubled) AS all_doubled FROM enriched",
            MaterializeMode::Table,
            &["enriched"],
            &["all_doubled"],
        ),
    ])
}

///   orders ─► shared (View) ─┬─► mid (View) ─► tbl_a (Table)
///                            └────────────────► tbl_b (Table)
///          └─► lonely (View) ──────────────────► tbl_b (Table)
fn shared_view_dag() -> Dag {
    make_dag(vec![
        node(
            "shared",
            "SELECT order_id, region, amount FROM orders",
            MaterializeMode::View,
            &[],
            &["order_id", "region", "amount"],
        ),
        node(
            "mid",
            "SELECT region, amount * 2 AS doubled FROM shared",
            MaterializeMode::View,
            &["shared"],
            &["region", "doubled"],
        ),
        node(
            "lonely",
            "SELECT order_id, amount FROM orders WHERE amount > 1",
            MaterializeMode::View,
            &[],
            &["order_id", "amount"],
        ),
        node(
            "tbl_a",
            "SELECT region, sum(doubled) AS d FROM mid GROUP BY region",
            MaterializeMode::Table,
            &["mid"],
            &["region", "d"],
        ),
        node(
            "tbl_b",
            "SELECT count(*) AS n, (SELECT count(*) FROM lonely) AS m FROM shared",
            MaterializeMode::Table,
            &["shared", "lonely"],
            &["n", "m"],
        ),
    ])
}

fn materialized(pass: &NodeFusionPass, dag: &Dag) -> Vec<String> {
    let plan = pass.plan(dag).unwrap();
    let mut out: Vec<String> =
        plan.ctes.iter().filter(|c| c.materialized).map(|c| c.node_id.clone()).collect();
    out.sort();
    out
}

#[test]
fn test_the_rewritten_dag_has_the_shape_fusion_promises() {
    let mut dag = two_table_dag();
    NodeFusionPass::new(false, false, None).rewrite(&mut dag).expect("the DAG should fuse");

    let fused = dag.nodes.get("dee_fused").expect("fused node");
    assert_eq!(fused.materialize, MaterializeMode::TempTable);
    assert!(
        fused.depends_on.is_empty(),
        "everything upstream of a Table is inside the fused node, so it depends on nothing"
    );
    assert!(fused.query_text.contains("UNION ALL"));

    for table in ["by_region", "totals"] {
        let node = dag.nodes.get(table).unwrap();
        assert_eq!(node.materialize, MaterializeMode::Table);
        assert_eq!(
            node.depends_on,
            vec!["dee_fused".to_string()],
            "a fused Table reads the fused node and nothing else"
        );
        assert!(node.query_text.contains("WHERE kind = "));
    }

    // The View stays in the graph, and stays a View.
    let stg = dag.nodes.get("stg").expect("the View is kept");
    assert_eq!(stg.materialize, MaterializeMode::View);
}

#[test]
fn test_a_table_feeding_a_table_is_inlined_and_still_delivered() {
    let mut dag = layered_dag();
    NodeFusionPass::new(false, false, None).rewrite(&mut dag).expect("the DAG should fuse");

    let fused_sql = dag.nodes.get("dee_fused").unwrap().query_text.clone();
    assert!(
        fused_sql.contains("n_base AS MATERIALIZED ("),
        "an inlined Table's CTE is materialized by default -- got:\n{fused_sql}"
    );
    assert!(
        fused_sql.contains("n_stg AS ("),
        "an inlined View's CTE is plain by default -- got:\n{fused_sql}"
    );
    assert!(
        dag.nodes.get("base").unwrap().query_text.contains("WHERE kind = "),
        "the intermediate Table still gets a kind of its own"
    );
}

#[test]
fn test_the_rewrite_is_a_function_of_the_dag_alone() {
    let build = |reverse: bool| {
        let mut nodes = vec![
            node(
                "stg",
                "SELECT order_id, region, amount FROM orders",
                MaterializeMode::View,
                &[],
                &["order_id", "region", "amount"],
            ),
            node(
                "by_region",
                "SELECT region, count(*) AS n FROM stg GROUP BY region",
                MaterializeMode::Table,
                &["stg"],
                &["region", "n"],
            ),
            node("totals", "SELECT count(*) AS n FROM stg", MaterializeMode::Table, &["stg"], &["n"]),
            node("biggest", "SELECT max(amount) AS m FROM stg", MaterializeMode::Table, &["stg"], &["m"]),
        ];
        if reverse {
            nodes.reverse();
        }
        let mut graph = Graph::new();
        for n in nodes {
            graph.add_node_unchecked(n);
        }
        Dag { db: "DuckDB".to_string(), nodes: graph, sources: vec![], max_parallelism: None }
    };
    let fuse = |mut dag: Dag| -> Vec<(String, String)> {
        NodeFusionPass::new(false, false, None).rewrite(&mut dag).unwrap();
        let mut texts: Vec<(String, String)> =
            dag.nodes.nodes().iter().map(|n| (n.id.clone(), n.query_text.clone())).collect();
        texts.sort();
        texts
    };
    assert_eq!(
        fuse(build(false)),
        fuse(build(true)),
        "the fused query and every rewritten Table must be byte-identical"
    );
}

#[test]
fn test_kinds_are_assigned_in_sorted_node_id_order() {
    let plan = NodeFusionPass::new(false, false, None).plan(&layered_dag()).unwrap();
    let by_kind: Vec<&str> = plan.tables.iter().map(|t| t.node_id.as_str()).collect();
    assert_eq!(
        by_kind,
        vec!["base", "rollup"],
        "a kind is a label, not an ordering, so it follows the one total order \
         the DAG has: its node IDs"
    );
    assert_eq!(plan.tables[0].kind, 0);
    assert_eq!(plan.tables[1].kind, 1);
}

#[test]
fn test_ctes_are_emitted_in_a_topological_order() {
    let plan = NodeFusionPass::new(false, false, None).plan(&layered_dag()).unwrap();
    let order: Vec<&str> = plan.ctes.iter().map(|c| c.node_id.as_str()).collect();
    assert_eq!(order, vec!["stg", "base", "enriched", "rollup"]);
}

#[test]
fn test_the_global_default_materializes_views_and_not_only_tables() {
    assert_eq!(
        materialized(&NodeFusionPass::new(true, false, None), &layered_dag()),
        vec!["base", "enriched", "rollup", "stg"],
        "the global default turns on everything the intermediate-Table rule did not"
    );
}

#[test]
fn test_only_a_table_that_feeds_another_is_materialized_by_default() {
    assert_eq!(materialized(&NodeFusionPass::new(false, false, None), &layered_dag()), vec!["base"]);

    // And where no Table feeds another, nothing is materialized at all.
    assert!(
        materialized(&NodeFusionPass::new(false, false, None), &two_table_dag()).is_empty(),
        "a Table read only by its own branch gains nothing from MATERIALIZED"
    );
}

#[test]
fn test_an_override_is_the_exact_set_and_can_demote_a_table() {
    let pass = NodeFusionPass::new(true, false, Some(vec!["stg".to_string()]));
    assert_eq!(materialized(&pass, &layered_dag()), vec!["stg"]);
}

#[test]
fn test_the_naive_rule_materializes_only_views_more_than_one_table_reads() {
    assert_eq!(
        materialized(&NodeFusionPass::new(false, true, None), &shared_view_dag()),
        vec!["shared"],
        "only the View both Tables reach; `mid` and `lonely` have one reader each"
    );
    // Off, it materializes nothing here: no Table feeds another.
    assert!(materialized(&NodeFusionPass::new(false, false, None), &shared_view_dag()).is_empty());
}

#[test]
fn test_the_naive_rule_counts_readers_through_intermediate_views() {
    assert_eq!(
        materialized(&NodeFusionPass::new(false, true, None), &layered_dag()),
        vec!["base", "stg"],
        "`stg` by the naive rule, `base` because it feeds another Table; \
         `enriched` is reached by `rollup` alone"
    );
}

fn wants(all_views: bool, naive: bool, over: Option<&Vec<String>>, id: &str, table: bool, shared: bool) -> bool {
    MaterializeRule::Configured { all_views, naive, over }.wants(id, table, shared)
}

#[test]
fn test_the_global_switch_subsumes_the_naive_one() {
    // A View no second Table reaches: on under the global switch, off
    // under the naive rule.
    assert!(wants(true, false, None, "v", false, false));
    assert!(!wants(false, true, None, "v", false, false));
    // And an override still names the exact set, ignoring both.
    let other = vec!["other".to_string()];
    assert!(!wants(true, true, Some(&other), "v", true, true));
}

#[test]
fn test_an_override_matches_a_bare_name_against_a_qualified_id() {
    let orders = vec!["orders".to_string()];
    assert!(wants(false, false, Some(&orders), "\"wh\".\"main\".\"orders\"", false, false));
    assert!(!wants(false, false, Some(&orders), "\"wh\".\"main\".\"other\"", true, true));
}

fn assert_not_fused(dag: &mut Dag, expect: &str) {
    let state = |dag: &Dag| {
        let mut out: Vec<(String, String)> =
            dag.nodes.nodes().iter().map(|n| (n.id.clone(), n.query_text.clone())).collect();
        out.sort();
        out
    };
    let before = state(dag);
    let report = NodeFusionPass::new(false, false, None).rewrite(dag).expect("an unfusable DAG is not an error");
    assert!(
        report.outcome.contains(expect),
        "expected an outcome mentioning '{expect}', got '{}'",
        report.outcome
    );
    assert!(report.plan.is_none());
    assert_eq!(before, state(dag), "an unfusable DAG must be left exactly as it was");
}

#[test]
fn test_a_single_table_is_not_worth_fusing() {
    let mut dag = make_dag(vec![
        node("stg", "SELECT * FROM orders", MaterializeMode::View, &[], &["order_id"]),
        node("only", "SELECT count(*) AS n FROM stg", MaterializeMode::Table, &["stg"], &["n"]),
    ]);
    assert_not_fused(&mut dag, "at least two");
}

#[test]
fn test_a_temp_table_upstream_of_a_table_blocks_fusion() {
    let mut dag = make_dag(vec![
        node("pad", "SELECT * FROM orders", MaterializeMode::TempTable, &[], &["amount"]),
        node("count_pad", "SELECT count(*) AS n FROM pad", MaterializeMode::Table, &["pad"], &["n"]),
        node("sum_pad", "SELECT sum(amount) AS s FROM pad", MaterializeMode::Table, &["pad"], &["s"]),
    ]);
    assert_not_fused(&mut dag, "TempTable");
}

#[test]
fn test_an_unresolved_schema_blocks_fusion() {
    let mut dag = make_dag(vec![
        node("stg", "SELECT order_id FROM orders", MaterializeMode::View, &[], &[]),
        node("a", "SELECT count(*) AS n FROM stg", MaterializeMode::Table, &["stg"], &[]),
        node("b", "SELECT max(order_id) AS m FROM stg", MaterializeMode::Table, &["stg"], &[]),
    ]);
    assert_not_fused(&mut dag, "no resolved schema");
}

#[test]
fn test_a_node_the_parser_cannot_read_blocks_fusion_only_if_it_reads_a_cte() {
    // In a leaf that names no fused node nothing needs rewriting, so the body
    // is carried through exactly as authored.
    let odd = "SELECT order_id, region, amount, extract('year' from from) AS yr FROM (((orders";
    let leaf = |query: &str, table_query: &str| {
        make_dag(vec![
            node("stg", query, MaterializeMode::View, &[], &["order_id", "region", "amount"]),
            node("by_region", table_query, MaterializeMode::Table, &["stg"], &["region", "n"]),
            node("totals", "SELECT count(*) AS n FROM stg", MaterializeMode::Table, &["stg"], &["n"]),
        ])
    };
    let mut dag = leaf(
        "SELECT order_id, region, amount FROM orders",
        &format!("{odd} stg"),
    );
    assert_not_fused(&mut dag, "cannot be rewritten at the AST level");
}

#[test]
fn test_fusing_an_already_fused_dag_is_refused() {
    let mut dag = two_table_dag();
    NodeFusionPass::new(false, false, None).rewrite(&mut dag).unwrap();
    // The fused node is a TempTable and every Table now reads it, so the
    // second pass sees a TempTable upstream of a Table and declines.
    assert_not_fused(&mut dag, "TempTable");
}

#[test]
fn test_the_fused_node_lands_in_the_same_schema_as_its_tables() {
    let mut dag = make_dag(vec![
        node(
            "\"wh\".\"stg\"",
            "SELECT order_id, region, amount FROM orders",
            MaterializeMode::View,
            &[],
            &["order_id", "region", "amount"],
        ),
        node(
            "\"wh\".\"count_stg\"",
            "SELECT count(*) AS n FROM \"wh\".\"stg\"",
            MaterializeMode::Table,
            &["\"wh\".\"stg\""],
            &["n"],
        ),
        node(
            "\"wh\".\"sum_stg\"",
            "SELECT sum(amount) AS s FROM \"wh\".\"stg\"",
            MaterializeMode::Table,
            &["\"wh\".\"stg\""],
            &["s"],
        ),
    ]);
    NodeFusionPass::new(false, false, None).rewrite(&mut dag).unwrap();
    assert!(
        dag.nodes.get("\"wh\".\"dee_fused\"").is_some(),
        "the fused node inherits the schema prefix of the Tables reading it"
    );
}

fn config() -> FusionConfig {
    FusionConfig {
        materialize_ctes: false,
        naive_materialize_ctes: false,
        materialize_override: None,
        adaptive: false,
        objective: HmpObjective::QueryTime,
        search_budget: 32,
        max_runs: 8,
        top_share: 800_000,
        cost_model: SubtreeCostMethod::Cardinality,
        spool_rate: None,
        spool_factor: None,
    }
}

fn adaptive_config() -> FusionConfig {
    FusionConfig { adaptive: true, ..config() }
}

#[test]
fn adaptive_and_naive_together_is_a_config_error() {
    let pass = NodeFusionPass::from_config(FusionConfig { naive_materialize_ctes: true, ..adaptive_config() });
    let err = pass.check_config().expect_err("the pass must refuse");
    assert!(matches!(err, OptimizerError::Config(_)), "got {err:?}");
}

#[test]
fn adaptive_refuses_the_settings_that_would_leave_it_nothing_to_decide() {
    for config in [
        FusionConfig { materialize_override: Some(vec!["stg".into()]), ..adaptive_config() },
        FusionConfig { materialize_ctes: true, ..adaptive_config() },
    ] {
        assert!(
            NodeFusionPass::from_config(config).check_config().is_err(),
            "a search with nothing to decide must be refused"
        );
    }
    // The plain adaptive config is fine, or the assertions above prove
    // nothing.
    NodeFusionPass::from_config(adaptive_config()).check_config().expect("adaptive alone is valid");
}

#[test]
fn the_naive_rule_alone_is_still_valid() {
    NodeFusionPass::from_config(FusionConfig { naive_materialize_ctes: true, ..config() })
        .check_config()
        .expect("naive on its own is the control cell");
}

#[test]
fn adaptive_is_a_search_and_a_rule_driven_fusion_is_not() {
    assert_eq!(NodeFusionPass::from_config(config()).optimization_type(), OptimizationType::Once);
    assert_eq!(NodeFusionPass::from_config(adaptive_config()).optimization_type(), OptimizationType::Continuous);
}

#[test]
fn only_a_cte_with_more_than_one_reader_is_the_searchs_to_decide() {
    let plan = NodeFusionPass::new(false, false, None).plan(&two_table_dag()).unwrap();
    let decidable = plan.decidable();
    assert_eq!(
        decidable,
        vec!["stg".to_string()],
        "only the shared View is decidable; got {decidable:?}"
    );
    for leaf in ["by_region", "totals"] {
        let cte = plan.ctes.iter().find(|c| c.node_id == leaf).unwrap();
        assert_eq!(cte.readers, 1);
        assert!(!cte.decidable, "{leaf} is read once and has nothing to decide");
    }
}

#[test]
fn an_intermediate_tables_cte_is_the_searchs_to_demote() {
    let dag = layered_dag();
    let plan = NodeFusionPass::new(false, false, None).plan(&dag).unwrap();
    let base = plan.ctes.iter().find(|c| c.node_id == "base").unwrap();
    assert!(base.materialized, "the default still materializes it");
    assert!(base.decidable, "and the search still gets to disagree");
    assert!(base.readers > 1);

    // And the search can actually express the demotion: the empty set is a
    // configuration, not an absence.
    let mut demoted = dag.copy();
    NodeFusionPass::new(false, false, None).rewrite_with(&mut demoted, &vec![]).unwrap();
    let sql = demoted.nodes.get("dee_fused").unwrap().query_text.clone();
    assert!(!sql.contains("MATERIALIZED"), "the empty set means every CTE plain; got {sql}");
}

#[test]
fn the_trial_budget_is_capped_in_the_objectives_own_measure() {
    let makespan = NodeFusionPass::from_config(FusionConfig { objective: HmpObjective::Makespan, ..adaptive_config() });
    assert_eq!(makespan.budget_metric(), BudgetMetric::WallClock);
    let query_time =
        NodeFusionPass::from_config(FusionConfig { objective: HmpObjective::QueryTime, ..adaptive_config() });
    assert_eq!(query_time.budget_metric(), BudgetMetric::NodeTime);
}

#[test]
fn the_spool_default_is_per_backend_and_an_override_replaces_it() {
    let pass = NodeFusionPass::from_config(adaptive_config());
    let empty = LearnedCostModel::new();
    assert!(
        pass.spool_factor_for(&empty, "WRITE", Dialect::DuckDB)
            < pass.spool_factor_for(&empty, "WRITE", Dialect::PostgreSQL),
        "a spool that spills should cost more than one that does not"
    );

    let tuned = NodeFusionPass::from_config(FusionConfig { spool_factor: Some(900_000), ..adaptive_config() });
    assert_eq!(tuned.spool_factor_for(&empty, "WRITE", Dialect::DuckDB), 900_000);
}

#[test]
fn an_explicit_spool_rate_falls_back_rather_than_being_ignored() {
    let pass = NodeFusionPass::from_config(FusionConfig {
        spool_rate: Some(1_000_000),
        spool_factor: Some(250_000),
        ..adaptive_config()
    });
    let empty = LearnedCostModel::new();
    assert_eq!(
        pass.spool_factor_for(&empty, "WRITE", Dialect::DuckDB),
        250_000,
        "no write constant means the explicit rate cannot be applied"
    );
}

#[test]
fn an_empty_best_set_is_not_the_default_rule() {
    let mut state = NodeFusionState::default();
    assert!(state.best_set.is_none(), "the default rule is the incumbent");
    state.best_set = Some(Vec::new());
    assert_eq!(state.best_set, Some(Vec::<String>::new()));
}

/// A search that has measured its baseline.
fn searching() -> NodeFusionState {
    let mut s = NodeFusionState::default();
    let learned = s.after_run(
        HmpObjective::Makespan,
        RunReport::Measured { runtime_ms: 1000, node_time_ms: 4000 },
        Some(vec!["base".to_string()]),
    );
    assert_eq!(learned, Learned::Baseline);
    s
}

#[test]
fn the_baseline_is_measured_before_anything_is_priced() {
    let fresh = NodeFusionState::default();
    assert!(matches!(fresh.turn(8), Turn::Baseline));
    let s = searching();
    assert_eq!(s.baseline_ms, 1000);
    assert_eq!(s.best_node_time_ms, 4000);
    assert_eq!(s.runs_used, 1);
    assert_eq!(s.phase, SearchPhase::Searching);
    assert!(matches!(s.turn(8), Turn::Price));
}

#[test]
fn an_improvement_is_judged_by_the_objective() {
    let mut s = searching();
    s.in_flight = Some(NodeFusionInFlight { set: vec![], sig: "s1".to_string(), makespan: None });
    let report = RunReport::Measured { runtime_ms: 900, node_time_ms: 5000 };
    assert_eq!(s.after_run(HmpObjective::QueryTime, report, None), Learned::Trial { improved: false });
    assert!(s.best_set.is_none());
    s.in_flight = Some(NodeFusionInFlight { set: vec![], sig: "s1".to_string(), makespan: None });
    let report = RunReport::Measured { runtime_ms: 900, node_time_ms: 5000 };
    assert_eq!(s.after_run(HmpObjective::Makespan, report, None), Learned::Trial { improved: true });
    assert_eq!(s.best_set, Some(Vec::<String>::new()), "every expression plain is a winner in its own right");
    assert_eq!(s.best_ms, 900);
}

#[test]
fn a_cut_short_fusion_trial_is_not_tried_again() {
    let mut s = searching();
    s.in_flight = Some(NodeFusionInFlight { set: vec![], sig: "s1".to_string(), makespan: None });
    assert_eq!(s.after_run(HmpObjective::Makespan, RunReport::Censored { resumed: None }, None), Learned::Rejected);
    assert!(s.in_flight.is_none());
    assert!(s.tried_sigs.contains(&"s1".to_string()));
    assert_eq!(s.best_ms, 1000);
    assert_eq!(s.iterations.last().unwrap().outcome, "cancelled");
}

#[test]
fn a_rule_driven_fusion_takes_its_turn_as_configured() {
    assert_eq!(NodeFusionPass::from_config(config()).step_phase(StepPhase::Before), StepPhase::Before);
    assert_eq!(NodeFusionPass::from_config(adaptive_config()).step_phase(StepPhase::Before), StepPhase::Both);
}

#[test]
fn names_are_made_fresh() {
    assert_eq!(fresh_name("a", &vec![]), "a");
    let taken = vec!["a".to_string(), "a_2".to_string()];
    let got = fresh_name("a", &taken);
    assert!(!taken.contains(&got), "got {got}");
    assert_eq!(fused_node_name("\"wh\".\"x\"", "dee_fused"), "\"wh\".\"dee_fused\"");
    assert_eq!(fused_node_name("x", "dee_fused"), "dee_fused");
    assert!(supports_materialized_hint(Dialect::DuckDB));
    assert!(!supports_materialized_hint(Dialect::MySQL));
}

#[test]
fn a_search_says_what_it_did() {
    let html = search_panel(&searching(), HmpObjective::Makespan);
    assert!(html.contains("The adaptive search"));
    assert!(html.contains("1000 ms"));
    assert!(explain_html(&None, "").contains("did not run"));
    let mut dag = two_table_dag();
    let report = NodeFusionPass::new(false, false, None).rewrite(&mut dag).unwrap();
    let html = explain_html(&Some(report), "<i>panel</i>");
    assert!(html.contains("by_region"));
    assert!(html.contains("<i>panel</i>"));
}

fn searching_pass() -> NodeFusionPass {
    NodeFusionPass::from_config(adaptive_config())
}

fn known(entries: &[(&str, u64, u64)]) -> TextMap<CteProfile> {
    let mut out = TextMap::new();
    for (id, compute, spool) in entries {
        out.insert(id, CteProfile { compute: *compute, spool: Some(*spool) });
    }
    out
}

fn pricing_of(profiles: TextMap<CteProfile>) -> FusionPricing {
    let pass = searching_pass();
    let plan = pass.plan_search(&two_table_dag()).expect("stg has two readers");
    pass.start_pricing(plan, profiles).ok().expect("something is known")
}

#[test]
fn pricing_asks_for_the_default_and_both_extremes_first() {
    let dag = two_table_dag();
    let mut pricing = pricing_of(known(&[("stg", 10, 5)]));
    assert_eq!(pricing.stage, Stage::Default);
    assert_eq!(pricing.wanted(), Some(vec![]), "the rule leaves stg plain");
    pricing.record(&dag, Some(100));
    assert_eq!(pricing.wanted(), Some(vec![]), "nothing materialized");
    pricing.record(&dag, Some(100));
    assert_eq!(pricing.wanted(), Some(vec!["stg".to_string()]), "all that can be decided about");
    pricing.record(&dag, Some(60));
    assert_eq!(pricing.wanted(), Some(vec!["stg".to_string()]), "the one flip");
    pricing.record(&dag, Some(60));
    assert_eq!(pricing.stage, Stage::Sets);
    assert_eq!(pricing.wanted(), Some(vec!["stg".to_string()]));
    pricing.record(&dag, Some(60));
    assert_eq!(pricing.wanted(), None);
    let setup = pricing.setup();
    assert_eq!(setup.scores.len(), 1);
    assert_eq!(setup.scores[0].cost, 35, "100 before, 60 and a spool of 5 after");
    assert_eq!(setup.working_set, vec!["stg".to_string()]);
    assert_eq!(setup.candidates.len(), 1);
    assert_eq!(setup.candidates[0].set, vec!["stg".to_string()]);
    assert_eq!(setup.candidates[0].flips, vec!["stg".to_string()]);
    assert_eq!(setup.reason, None);

    let mut state = NodeFusionState::default();
    state.phase = SearchPhase::Searching;
    assert_eq!(state.turn(3), Turn::Price);
    state.adopt(setup);
    assert_eq!(state.turn(3), Turn::Search);
}

#[test]
fn each_dead_end_of_the_pricing_has_its_reason() {
    let dag = two_table_dag();
    let profiles = || known(&[("stg", 10, 5)]);

    let mut unpriced = pricing_of(profiles());
    unpriced.record(&dag, None);
    assert_eq!(unpriced.setup().reason, Some(NothingToSearch::DefaultUnpriced));

    let mut deaf = pricing_of(profiles());
    deaf.record(&dag, Some(100));
    deaf.record(&dag, Some(70));
    deaf.record(&dag, Some(70));
    assert_eq!(deaf.setup().reason, Some(NothingToSearch::Unresponsive));

    let mut useless = pricing_of(profiles());
    useless.record(&dag, Some(100));
    useless.record(&dag, None);
    useless.record(&dag, Some(70));
    assert_eq!(useless.stage, Stage::Flips, "what cannot be measured is not taken for sameness");
    useless.record(&dag, Some(98));
    let setup = useless.setup();
    assert_eq!(setup.reason, Some(NothingToSearch::NoFlipHelps));
    assert!(setup.working_set.is_empty());

    let mut none = pricing_of(profiles());
    none.record(&dag, Some(100));
    none.record(&dag, Some(100));
    none.record(&dag, Some(60));
    none.record(&dag, Some(60));
    none.record(&dag, None);
    assert_eq!(none.setup().reason, Some(NothingToSearch::NoSetHelps));

    let pass = searching_pass();
    let plan = pass.plan_search(&dag).unwrap();
    assert_eq!(pass.start_pricing(plan, TextMap::new()).err(), Some(NothingToSearch::NothingPriced));
    let single = make_dag(vec![node("only", "SELECT a FROM orders", MaterializeMode::Table, &[], &["a"])]);
    assert_eq!(pass.plan_search(&single).err(), Some(NothingToSearch::NotFusable));
    let apart = make_dag(vec![
        node("x", "SELECT a FROM orders", MaterializeMode::Table, &[], &["a"]),
        node("y", "SELECT b FROM orders", MaterializeMode::Table, &[], &["b"]),
    ]);
    assert_eq!(pass.plan_search(&apart).err(), Some(NothingToSearch::NothingDecidable));
    assert_eq!(SearchSetup::nothing(NothingToSearch::NothingPriced).reason, Some(NothingToSearch::NothingPriced));
}

#[test]
fn the_query_for_a_set_marks_exactly_its_members() {
    let dag = two_table_dag();
    let (plan, plain) = fused_query_for(&dag, &vec![]).expect("a query");
    assert!(!plain.contains("MATERIALIZED"));
    assert!(plan.ctes.iter().all(|c| !c.materialized));
    let (plan, marked) = fused_query_for(&dag, &vec!["stg".to_string()]).expect("a query");
    assert_eq!(marked.matches("MATERIALIZED").count(), 1);
    assert!(plan.ctes.iter().all(|c| c.materialized == (c.node_id == "stg")));
}

#[test]
fn the_probe_materializes_every_expression() {
    let dag = two_table_dag();
    let plan = searching_pass().plan_search(&dag).unwrap();
    let (probe, sql) = probe_query(&dag, &plan).expect("a query");
    assert!(probe.ctes.iter().all(|c| c.materialized));
    assert_eq!(sql.matches("MATERIALIZED").count(), 3);
}

#[test]
fn a_legacy_nodefusion_state_row_decodes_and_is_not_mistaken_for_exhausted() {
    // What a row of an older build gives: no candidate list, and nothing that
    // says one was made.
    let state = NodeFusionState {
        phase: SearchPhase::parse("searching"),
        baseline_ms: 100,
        best_ms: 100,
        ..NodeFusionState::default()
    };
    assert_eq!(state.phase, SearchPhase::Searching);
    assert_eq!(state.baseline_ms, 100);
    assert!(!state.candidates_built, "the search still has work to do");
    assert!(state.candidates.is_empty());
    assert!(state.best_set.is_none());
    assert_eq!(state.turn(8), Turn::Price);
}

#[test]
fn an_empty_best_set_is_a_configuration_and_not_an_absence() {
    let mut state = NodeFusionState::default();
    assert!(state.best_set.is_none(), "the default rule is the incumbent");
    state.best_set = Some(Vec::new());
    state.phase = SearchPhase::Searching;
    state.candidates_built = true;
    let mut dag = two_table_dag();
    let report = searching_pass().rewrite(&mut dag).unwrap();
    let by_rule = report.plan.expect("fused");
    let mut dag = two_table_dag();
    let report = state.converge(&searching_pass(), &mut dag).unwrap();
    let plan = report.plan.expect("fused");
    assert!(plan.ctes.iter().all(|c| !c.materialized), "every expression plain");
    assert_eq!(plan.ctes.len(), by_rule.ctes.len());
    assert_eq!(state.best_set, Some(Vec::new()), "'every CTE plain' stays itself");
}

#[test]
fn an_expression_is_decided_about_where_the_query_reads_it_twice() {
    let dag = make_dag(vec![
        node("v", "SELECT order_id FROM orders", MaterializeMode::View, &[], &["order_id"]),
        node("w1", "SELECT order_id FROM v", MaterializeMode::View, &["v"], &["order_id"]),
        node("w2", "SELECT order_id FROM v", MaterializeMode::View, &["v"], &["order_id"]),
        node("t", "SELECT w1.order_id AS x FROM w1, w2", MaterializeMode::Table, &["w1", "w2"], &["x"]),
        node("u", "SELECT order_id AS y FROM orders", MaterializeMode::Table, &[], &["y"]),
    ]);
    let pass = NodeFusionPass::new(false, false, None);
    assert_eq!(pass.decidable_ctes(&dag), vec!["v".to_string()]);
}

#[test]
fn a_second_rewrite_leaves_the_graph_alone() {
    let mut dag = two_table_dag();
    let pass = NodeFusionPass::new(false, false, None);
    assert!(pass.rewrite(&mut dag).unwrap().plan.is_some());
    let before = dag.nodes.num_nodes();
    let report = pass.rewrite(&mut dag).unwrap();
    assert!(report.plan.is_none());
    assert_eq!(dag.nodes.num_nodes(), before);
    assert!(pass.decidable_ctes(&dag).is_empty());
    assert!(fused_query_for(&dag, &vec![]).is_none());
}

#[test]
fn the_closure_takes_in_what_is_asked_for() {
    let dag = two_table_dag();
    let asked = vec!["totals".to_string(), "nowhere".to_string()];
    assert_eq!(upstream_closure(&dag.nodes, &asked), vec!["nowhere", "stg", "totals"]);
}

#[test]
fn a_rewrite_is_recorded_in_numbers() {
    let mut dag = two_table_dag();
    let pass = NodeFusionPass::new(false, false, None);
    let report = pass.rewrite(&mut dag).unwrap();
    let record = pass.record(&report, None);
    assert_eq!((record.changes_applied, record.candidates_considered, record.working_set_size), (1, 1, 3));
    assert_eq!(record.detail.fused_node, Some("dee_fused".to_string()));
    assert_eq!((record.detail.tables_fused, record.detail.views_inlined), (2, 1));
    assert_eq!(record.detail.baseline_runtime_ms, None);
    assert_eq!(record.detail.objective, None);
    let report = pass.rewrite(&mut dag).unwrap();
    let record = pass.record(&report, None);
    assert_eq!((record.changes_applied, record.candidates_considered, record.working_set_size), (0, 0, 0));
    assert_eq!(record.detail.fused_node, None);

    let mut dag = two_table_dag();
    let report = searching_pass().rewrite(&mut dag).unwrap();
    let record = searching_pass().record(&report, Some(&searching()));
    assert_eq!(record.detail.baseline_runtime_ms, Some(1000));
    assert_eq!(record.detail.final_runtime_ms, Some(1000));
    assert_eq!(record.detail.objective, Some("query_time"));
}

#[test]
fn a_cut_short_fusion_trial_records_what_it_cost() {
    let mut s = searching();
    s.in_flight = Some(NodeFusionInFlight { set: vec![], sig: "s1".to_string(), makespan: None });
    let resumed = Some(ResumeTiming {
        trial_ms: 700,
        overhead_ms: 20,
        resume_ms: 300,
        trial_node_time_ms: 900,
        resume_node_time_ms: 400,
    });
    assert_eq!(s.after_run(HmpObjective::Makespan, RunReport::Censored { resumed }, None), Learned::Rejected);
    let it = s.iterations.last().unwrap();
    assert_eq!(it.total_ms(), 1020);
    assert_eq!(it.node_time_ms, Some(1300));
}
