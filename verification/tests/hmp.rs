use dee::combo::{CostedCombo, Scored};
use dee::dag::{Dag, Graph, MaterializeMode, SourceNode, TransformNode};
use dee::dup::{ConsumerCost, DuplicateCost, SubtreeCostMethod};
use dee::hmp::{describe, CandidateCombo, HMPPass, HmpConfig, HmpCostMethod, HmpState, HmpTurn, InFlight, SearchPlan};
use dee::hmp_explain::explain_html;
use dee::hmp_ranking::{Evidence, RankedBy};
use dee::leaf_ranking::ranking_leafset;
use dee::learned::LearnedCostModel;
use dee::operators::{build_operator_table, operator_stats, operators_of_tables, ranking_by_signature};
use dee::plan::PlanNode;
use dee::ranking::{learn_from, learn_with_writes, rankable_views, ranking_learned, ranking_score, scores_of, NodeRankingRow, NodeStat};
use dee::report::{format_node_table, format_operator_table, format_table};
use dee::search::SingletonCost;
use dee::signature::dag_signature;
use dee::step::{Learned, ResumeTiming, RunReport, SearchPhase};

const SECOND: u64 = 1_000_000_000;

fn node(id: &str, query: &str, mode: MaterializeMode, deps: &[&str]) -> TransformNode {
    TransformNode {
        id: id.to_string(),
        query_text: query.to_string(),
        materialize: mode,
        depends_on: deps.iter().map(|s| s.to_string()).collect(),
        schema: None,
    }
}

fn make_dag(nodes: Vec<TransformNode>) -> Dag {
    let mut graph = Graph::new();
    for n in nodes {
        graph.add_node(n).unwrap();
    }
    Dag { db: "DuckDB".to_string(), nodes: graph, sources: vec![], max_parallelism: None }
}

fn config() -> HmpConfig {
    HmpConfig {
        downstream_cost: false,
        max_runs: 1,
        top_cpu_time: 1_000_000,
        normalize_with_cardinality: false,
        cost_method: HmpCostMethod::Signature,
        dup_cost_model: SubtreeCostMethod::Cardinality,
        search_budget: 32,
        resume_trials: true,
        budget_eps: 0,
        use_pushdown: false,
        profile_iterations: false,
    }
}

fn pass() -> HMPPass {
    HMPPass::from_config(&config())
}

fn op(operator: &str, key: &str, time: Option<u64>, rows: u64, width: Option<u64>, children: Vec<PlanNode>) -> PlanNode {
    PlanNode {
        operator: operator.to_string(),
        cost_key: key.to_string(),
        relation: None,
        subplan: None,
        writes: false,
        aggregates: operator == "HASH_GROUP_BY",
        exclusive_time: time,
        statement_time: None,
        cardinality: if time.is_some() { Some(rows) } else { None },
        estimated_cardinality: Some(rows),
        rows_scanned: None,
        row_width: width,
        children,
    }
}

fn scan(table: &str, time: Option<u64>, width: Option<u64>) -> PlanNode {
    let mut n = op("SEQ_SCAN", "SEQ_SCAN", time, 1000, width, vec![]);
    n.relation = Some(table.to_string());
    n
}

/// A profiled plan of a consumer that joins `raw_a` and `raw_b` and then
/// groups the result.
fn grouped_join_plan() -> Vec<PlanNode> {
    vec![op(
        "HASH_GROUP_BY",
        "HASH_GROUP_BY[count_star]",
        Some(SECOND),
        10,
        Some(40),
        vec![op(
            "HASH_JOIN",
            "HASH_JOIN",
            Some(6 * SECOND),
            1000,
            Some(32),
            vec![scan("raw_a", Some(SECOND), Some(24)), scan("raw_b", Some(2 * SECOND), Some(24))],
        )],
    )]
}

/// The View's own plan: estimates and nothing else.
fn unexecuted_view_plan() -> Vec<PlanNode> {
    vec![op("HASH_JOIN", "HASH_JOIN", None, 1000, None, vec![scan("raw_a", None, None), scan("raw_b", None, None)])]
}

fn learned_dag(consumers: &[&str]) -> Dag {
    let mut nodes = vec![node(
        "joined",
        "SELECT k, v FROM raw_a JOIN raw_b USING (k)",
        MaterializeMode::View,
        &[],
    )];
    for id in consumers {
        nodes.push(node(
            id,
            "SELECT k, count(*) FROM joined GROUP BY k",
            MaterializeMode::Table,
            &["joined"],
        ));
    }
    let mut dag = make_dag(nodes);
    dag.sources = ["raw_a", "raw_b"]
        .iter()
        .map(|name| SourceNode { name: name.to_string(), schema: vec![] })
        .collect();
    dag
}

fn sources() -> Vec<String> {
    vec!["raw_a".to_string(), "raw_b".to_string()]
}

fn stat(node: &str, duration: u64, plan: Option<Vec<PlanNode>>) -> NodeStat {
    NodeStat { node: node.to_string(), duration, plan, rows_produced: None }
}

fn leafset_stats(consumer_ms: u64) -> Vec<NodeStat> {
    vec![
        stat("out_a", consumer_ms * 1_000_000, Some(grouped_join_plan())),
        stat("out_b", consumer_ms * 1_000_000, Some(grouped_join_plan())),
        stat("joined", 0, None),
    ]
}

fn learned_stats(consumers: &[&str]) -> Vec<NodeStat> {
    let mut out: Vec<NodeStat> = consumers.iter().map(|c| stat(c, 0, Some(grouped_join_plan()))).collect();
    out.push(stat("joined", 0, Some(unexecuted_view_plan())));
    out
}

#[test]
fn leafset_charges_a_view_the_region_of_the_plan_it_owns() {
    let dag = learned_dag(&["out_a", "out_b"]);
    let rows = ranking_leafset(&dag, &sources(), &leafset_stats(1000), false, false).expect("the plans name relations");
    assert_eq!(rows.len(), 1, "only the branch-point View is a candidate");
    assert_eq!(rows[0].node, "joined");
    // The join and its two scans are 9 s of the plan's 10 s, and the consumer
    // measured 1 s.
    assert_eq!(rows[0].total, 900_000_000, "expected a 0.9 share of one consumer");
    // The join emitted 1000 rows; the GROUP BY above it emitted 10.
    assert_eq!(rows[0].cardinality, Some(2000), "twice a thousand rows");
    assert_eq!(rows[0].leaves, sources());
    assert_eq!(rows[0].matched.len(), 2);
}

#[test]
fn leafset_downstream_cost_reports_only_what_deduplication_removes() {
    let dag = learned_dag(&["out_a", "out_b"]);
    let rows = ranking_leafset(&dag, &sources(), &leafset_stats(1000), true, false).expect("the plans name relations");
    // Two consumers each pay 0.9 s; building the view once removes one of
    // them, not both.
    assert_eq!(rows[0].total, 900_000_000);
}

#[test]
fn leafset_declines_rather_than_ranking_nothing_when_plans_name_no_relation() {
    let dag = learned_dag(&["out_a", "out_b"]);
    let blind = vec![op("PROJECTION", "PROJECTION", Some(SECOND), 10, None, vec![])];
    let stats = vec![stat("out_a", SECOND, Some(blind))];
    assert!(ranking_leafset(&dag, &sources(), &stats, false, false).is_none());
}

#[test]
fn learned_cost_prices_a_views_own_plan_from_what_the_tables_measured() {
    let dag = learned_dag(&["out_a", "out_b"]);
    let stats = learned_stats(&["out_a", "out_b"]);
    let mut model = LearnedCostModel::new();
    learn_from(&mut model, &dag, &stats);
    let rows = ranking_learned(&dag, &stats, &model, false, false).expect("the executed plans carry timings and widths");
    assert_eq!(rows.len(), 1);
    assert_eq!(rows[0].node, "joined");
    // Six seconds for the join, and one and a half for each scan.
    assert_eq!(rows[0].total, 9 * SECOND);
    assert_eq!(rows[0].cardinality, Some(2000));
}

#[test]
fn learned_cost_downstream_charges_every_copy_but_the_one_that_would_remain() {
    let consumers = ["out_a", "out_b", "out_c"];
    let dag = learned_dag(&consumers);
    let stats = learned_stats(&consumers);
    let mut model = LearnedCostModel::new();
    learn_from(&mut model, &dag, &stats);
    let rows = ranking_learned(&dag, &stats, &model, true, false).expect("the executed plans carry timings and widths");
    assert_eq!(rows[0].total, 18 * SECOND);
}

#[test]
fn learned_cost_keeps_a_separate_constant_per_aggregate_function() {
    let dag = learned_dag(&["out_a", "out_b"]);
    let plan = |key: &str, seconds: u64| vec![op("HASH_GROUP_BY", key, Some(seconds * SECOND), 100, Some(10), vec![])];
    let stats = vec![
        stat("out_a", 0, Some(plan("HASH_GROUP_BY[count_star]", 1))),
        stat("out_b", 0, Some(plan("HASH_GROUP_BY[string_agg]", 9))),
    ];
    let mut model = LearnedCostModel::new();
    learn_from(&mut model, &dag, &stats);
    // One and nine thousandths of a second for each byte.
    assert_eq!(model.seconds_per_byte("HASH_GROUP_BY[count_star]"), Some(1_000_000_000_000));
    assert_eq!(model.seconds_per_byte("HASH_GROUP_BY[string_agg]"), Some(9_000_000_000_000));
}

#[test]
fn learned_cost_declines_rather_than_ranking_nothing_when_it_has_learned_nothing() {
    let dag = learned_dag(&["out_a", "out_b"]);
    let model = LearnedCostModel::new();
    assert!(ranking_learned(&dag, &learned_stats(&["out_a", "out_b"]), &model, false, false).is_none());
}

#[test]
fn dup_attribution_shares_the_learned_constants_only_when_it_prices_with_them() {
    let with = |cost_method, dup_cost_model| {
        HMPPass::from_config(&HmpConfig { cost_method, dup_cost_model, ..config() }).uses_learned_constants()
    };
    assert!(!with(HmpCostMethod::DupAttribution, SubtreeCostMethod::Cardinality));
    assert!(with(HmpCostMethod::DupAttribution, SubtreeCostMethod::LearnedCost));
    assert!(with(HmpCostMethod::LearnedCost, SubtreeCostMethod::Cardinality));
    assert!(!with(HmpCostMethod::Leafset, SubtreeCostMethod::LearnedCost));
}

fn evidence(stats: Vec<NodeStat>, measured: Vec<(&str, Option<DuplicateCost>)>) -> Evidence {
    Evidence {
        stats,
        ids: measured.iter().map(|(id, _)| id.to_string()).collect(),
        measured: measured.into_iter().map(|(_, d)| d).collect(),
    }
}

fn duplicates(duplicate: i64) -> DuplicateCost {
    DuplicateCost {
        views: vec!["joined".to_string()],
        build_once: 10,
        build_per_member: vec![],
        per_consumer: vec![ConsumerCost { consumer: "out_a".to_string(), cost: 1007 }],
        consumer_total: vec![ConsumerCost { consumer: "out_a".to_string(), cost: 2000 }],
        duplicate,
        write_total: None,
    }
}

fn ranked_by(cost_method: HmpCostMethod, e: &Evidence) -> (RankedBy, Vec<String>) {
    let dag = learned_dag(&["out_a", "out_b"]);
    let pass = HMPPass::from_config(&HmpConfig { cost_method, ..config() });
    let r = pass.ranking_for(&dag, &sources(), e, &mut LearnedCostModel::new());
    (r.by, r.rows.iter().map(|x| x.node.clone()).collect())
}

#[test]
fn dup_attribution_ranks_a_branch_point_by_what_its_copies_cost() {
    let e = evidence(leafset_stats(1000), vec![("joined", Some(duplicates(997)))]);
    assert_eq!(ranked_by(HmpCostMethod::DupAttribution, &e), (RankedBy::Duplicates, vec!["joined".to_string()]));
    let dag = learned_dag(&["out_a", "out_b"]);
    let pass = HMPPass::from_config(&HmpConfig { cost_method: HmpCostMethod::DupAttribution, ..config() });
    let r = pass.ranking_for(&dag, &sources(), &e, &mut LearnedCostModel::new());
    assert_eq!(r.rows[0].total, 997);
    assert_eq!(r.rows[0].matched, vec!["out_a (1007.0000)".to_string()]);
}

#[test]
fn dup_attribution_still_measures_when_the_run_carried_no_plans() {
    let e = evidence(vec![], vec![("joined", Some(duplicates(5)))]);
    assert_eq!(ranked_by(HmpCostMethod::DupAttribution, &e).0, RankedBy::Duplicates);
}

#[test]
fn a_method_with_nothing_to_go_by_gives_way_to_the_next() {
    let e = evidence(leafset_stats(1000), vec![("joined", None)]);
    assert_eq!(ranked_by(HmpCostMethod::DupAttribution, &e), (RankedBy::Leaves, vec!["joined".to_string()]));
    assert_eq!(ranked_by(HmpCostMethod::Leafset, &e).0, RankedBy::Leaves);
    let blind = evidence(vec![], vec![("joined", None)]);
    assert_eq!(ranked_by(HmpCostMethod::DupAttribution, &blind).0, RankedBy::Signatures);
    assert_eq!(ranked_by(HmpCostMethod::LearnedCost, &blind).0, RankedBy::Signatures);
    assert_eq!(ranked_by(HmpCostMethod::NodeTime, &blind).0, RankedBy::NodeTimes);
}

#[test]
fn an_empty_ranking_starts_the_search_from_node_times() {
    let dag = learned_dag(&["out_a", "out_b"]);
    let e = evidence(vec![stat("joined", 7, None)], vec![]);
    let r = pass().baseline_ranking(&dag, &sources(), &e, &mut LearnedCostModel::new());
    assert_eq!(r.by, RankedBy::NodeTimes);
    assert_eq!(r.rows.len(), 1);
    assert_eq!(r.rows[0].total, 7);
    let working_set = pass().working_set_from(&r.rows);
    assert_eq!(working_set, vec!["joined".to_string()]);
    let mut search = pass().start_search(&dag, &working_set, &scores_of(&r.rows), true);
    assert_eq!(search.wanted(), Some(vec!["joined".to_string()]));
    search.record(None);
    assert_eq!(search.wanted(), None);
}

#[test]
fn duplicates_are_measured_where_the_ranking_goes_by_them() {
    let dag = learned_dag(&["out_a", "out_b"]);
    let by = |cost_method| HMPPass::from_config(&HmpConfig { cost_method, ..config() });
    assert_eq!(by(HmpCostMethod::DupAttribution).views_to_measure(&dag), vec!["joined".to_string()]);
    assert!(by(HmpCostMethod::Leafset).views_to_measure(&dag).is_empty());
}

#[test]
fn signatures_charge_a_view_with_operators_its_plan_has() {
    let dag = learned_dag(&["out_a", "out_b"]);
    let stats = learned_stats(&["out_a", "out_b"]);
    let rows = ranking_by_signature(&dag, &stats, false, false);
    assert_eq!(rows.len(), 1);
    // The join's six seconds, and a scan's average of one and a half; the
    // grouping is not in the View's own plan.
    assert_eq!(rows[0].total, 7_500_000_000);
    assert_eq!(rows[0].cardinality, Some(2000));
    // Every occurrence in both consumers.
    let rows = ranking_by_signature(&dag, &stats, true, false);
    assert_eq!(rows[0].total, 18 * SECOND);
}

#[test]
fn operators_are_shown_with_their_averages() {
    let dag = learned_dag(&["out_a", "out_b"]);
    let stats = learned_stats(&["out_a", "out_b"]);
    let uses = operators_of_tables(&dag, &stats);
    assert_eq!(uses.len(), 8);
    let list = operator_stats(&uses);
    let rows = build_operator_table(&dag, &stats, &list);
    let names: Vec<&str> = rows.iter().map(|r| r.operator.as_str()).collect();
    assert_eq!(
        names,
        vec!["HASH_GROUP_BY(cardinality=10)", "HASH_JOIN(cardinality=1000)", "SEQ_SCAN(cardinality=1000)"]
    );
    assert_eq!(rows[2].table_occurrences, 4);
    assert_eq!(rows[2].average, 1_500_000_000);
    assert_eq!(rows[2].traced_views, vec!["joined".to_string()]);
    assert!(rows[0].traced_views.is_empty());
    let text = format_operator_table(&rows);
    assert!(text.contains("1.5000"), "{text}");
    let lines: Vec<&str> = text.lines().collect();
    assert_eq!(lines.len(), 5);
    assert!(lines.iter().all(|l| l.len() == lines[0].len()), "every line is as wide as the first:\n{text}");
}

#[test]
fn columns_are_as_wide_as_their_widest_cell() {
    let s = |list: &[&str]| -> Vec<String> { list.iter().map(|x| x.to_string()).collect() };
    let text = format_table(&s(&["A", "Long"]), &vec![s(&["wide", "1"])]);
    assert_eq!(text, "A     Long  \n----  ----  \nwide  1     ");
    let text = format_table(&s(&["A"]), &vec![s(&["é"])]);
    assert_eq!(text, "A   \n--  \né   ", "a width is counted in bytes and filled by characters");
}

#[test]
fn a_ranking_is_shown_in_seconds_or_in_units() {
    let dag = learned_dag(&["out_a", "out_b"]);
    let rows = ranking_leafset(&dag, &sources(), &leafset_stats(1000), false, false).unwrap();
    let text = format_node_table(&rows);
    assert!(text.contains("0.9000"), "{text}");
    assert!(text.contains("1000"), "{text}");
}

#[test]
fn what_writes_cost_is_learned_with_the_rest() {
    let dag = learned_dag(&["out_a"]);
    let mut sink = op("CREATE_TABLE_AS", "CREATE_TABLE_AS", Some(SECOND), 1, Some(8), grouped_join_plan());
    sink.writes = true;
    let mut s = stat("out_a", 0, Some(vec![sink]));
    s.rows_produced = Some(10);
    let stats = vec![s];
    let mut model = LearnedCostModel::new();
    learn_from(&mut model, &dag, &stats);
    assert!(model.write_paths().is_empty(), "plans alone teach nothing of writing");
    let mut model = LearnedCostModel::new();
    learn_with_writes(&mut model, &dag, &stats);
    // A second over ten rows of forty bytes.
    assert_eq!(model.write_seconds_per_byte("CREATE_TABLE_AS"), Some(2_500_000_000_000));
}

fn views_dag() -> Dag {
    make_dag(vec![
        node("v", "SELECT 1 AS x", MaterializeMode::View, &[]),
        node("w", "SELECT 2 AS y", MaterializeMode::View, &[]),
        node("a", "SELECT x FROM v", MaterializeMode::Table, &["v"]),
        node("b", "SELECT x, y FROM v, w", MaterializeMode::Table, &["v", "w"]),
        node("c", "SELECT y FROM w", MaterializeMode::Table, &["w"]),
    ])
}

fn combos(list: &[&[&str]]) -> Vec<CandidateCombo> {
    list.iter()
        .map(|c| CandidateCombo { combo: c.iter().map(|s| s.to_string()).collect(), cost: 1, partial: false })
        .collect()
}

fn searching(list: &[&[&str]]) -> HmpState {
    let mut s = HmpState::default();
    let plan = SearchPlan { scores: vec![], working_set: vec!["v".to_string(), "w".to_string()], candidates: combos(list) };
    let report = RunReport::Measured { runtime_ms: 1000, node_time_ms: 4000 };
    assert_eq!(s.after_run(&pass(), report, plan), Learned::Baseline);
    s
}

fn no_plan() -> SearchPlan {
    SearchPlan { scores: vec![], working_set: vec![], candidates: vec![] }
}

#[test]
fn a_budget_only_exists_once_there_is_something_to_be_worse_than() {
    let mut state = HmpState::default();
    assert_eq!(pass().budget(&state), None, "nothing has been measured yet");
    state.best_ms = 1000;
    assert_eq!(pass().budget(&state), Some(1000));
}

#[test]
fn a_zero_budget_eps_is_honoured_rather_than_read_as_unset() {
    let pass = HMPPass::from_config(&HmpConfig { budget_eps: 0, ..config() });
    let mut state = HmpState::default();
    state.best_ms = 800;
    assert_eq!(pass.budget(&state), Some(800));
    let loose = HMPPass::from_config(&HmpConfig { budget_eps: 100_000, ..config() });
    assert_eq!(loose.budget(&state), Some(880));
}

#[test]
fn a_cancelled_baseline_is_not_recorded_as_one() {
    let mut s = HmpState::default();
    assert_eq!(s.after_run(&pass(), RunReport::Censored { resumed: None }, no_plan()), Learned::Nothing);
    assert_eq!(s.phase, SearchPhase::Baseline);
    assert_eq!(s.baseline_ms, 0);
    assert_eq!(s.runs_used, 0);
}

#[test]
fn a_cancelled_trial_is_rejected_rather_than_re_proposed() {
    let dag = views_dag();
    let mut s = searching(&[&["v"], &["w"]]);
    s.propose(&dag).expect("the first candidate");
    let first = s.in_flight.as_ref().unwrap().sig.clone();
    assert_eq!(s.after_run(&pass(), RunReport::Censored { resumed: None }, no_plan()), Learned::Rejected);
    assert!(s.in_flight.is_none());
    assert!(s.tried_sigs.contains(&first));
    assert_eq!(s.best_ms, 1000);
    s.propose(&dag).expect("the next candidate");
    let f = s.in_flight.as_ref().unwrap();
    assert_eq!(f.combo, vec!["w".to_string()]);
    assert_ne!(f.sig, first);
}

#[test]
fn a_cancelled_iteration_is_recorded_at_its_cap() {
    let mut s = searching(&[&["v"]]);
    s.in_flight = Some(InFlight { combo: vec!["v".to_string()], sig: "sig-1".to_string() });
    assert_eq!(s.after_run(&pass(), RunReport::Censored { resumed: None }, no_plan()), Learned::Rejected);
    let last = s.iterations.last().unwrap();
    assert_eq!(last.outcome, "cancelled");
    assert_eq!(last.runtime_ms, 1000);
    assert_eq!(last.combo, vec!["v".to_string()]);
    assert_eq!(s.runs_used, 2);
}

#[test]
fn a_warmup_is_not_a_measurement() {
    let mut s = HmpState::default();
    assert_eq!(s.after_run(&pass(), RunReport::Warmup, no_plan()), Learned::Nothing);
    assert_eq!(s.after_run(&pass(), RunReport::NoRun, no_plan()), Learned::Nothing);
    assert_eq!(s.runs_used, 0);
}

#[test]
fn the_best_combination_is_the_one_promoted() {
    let mut dag = views_dag();
    let mut s = searching(&[&["v"], &["w"]]);
    s.propose(&dag).unwrap();
    let better = RunReport::Measured { runtime_ms: 700, node_time_ms: 1 };
    assert_eq!(s.after_run(&pass(), better, no_plan()), Learned::Trial { improved: true });
    s.propose(&dag).unwrap();
    let worse = RunReport::Measured { runtime_ms: 900, node_time_ms: 1 };
    assert_eq!(s.after_run(&pass(), worse, no_plan()), Learned::Trial { improved: false });
    assert_eq!(s.best_combo, vec!["v".to_string()]);
    assert!(s.propose(&dag).is_none(), "nothing is left to try");
    assert!(matches!(s.turn(3), HmpTurn::Promote));
    assert!(s.promote(&mut dag).unwrap());
    assert_eq!(s.phase, SearchPhase::Converged);
    assert!(dag.nodes.get("lp_v").is_some());
    assert!(dag.nodes.get("lp_w").is_none());
}

#[test]
fn an_uncostable_search_falls_back_to_plain_combinations() {
    let working_set = vec!["a".to_string(), "b".to_string()];
    let candidates = pass().build_candidates(&working_set, &vec![]);
    assert!(
        !candidates.is_empty(),
        "an uncostable search must still offer candidates, or HMP silently stops optimizing"
    );
    assert!(
        candidates.iter().all(|c| c.partial),
        "unpriced candidates must be flagged as such rather than claim a cost"
    );
    assert!(
        candidates.iter().take(2).all(|c| c.combo.len() == 1),
        "the fallback tries combinations smallest-first: {candidates:?}"
    );
    assert!(candidates.iter().any(|c| c.combo.len() == 2), "and still reaches the pairs: {candidates:?}");
}

#[test]
fn priced_combinations_are_tried_in_their_order() {
    let costed = vec![
        CostedCombo { combo: vec!["b".to_string()], cost: 9, makespan: None, stages: 1 },
        CostedCombo { combo: vec!["a".to_string()], cost: 3, makespan: None, stages: 1 },
    ];
    let out = pass().build_candidates(&vec!["a".to_string(), "b".to_string()], &costed);
    assert_eq!(out.len(), 2);
    assert_eq!(out[0].combo, vec!["b".to_string()]);
    assert!(!out[0].partial);
    assert!(pass().build_candidates(&vec![], &costed).is_empty());
}

#[test]
fn settings_that_make_no_sense_are_mended() {
    let p = HMPPass::from_config(&HmpConfig { max_runs: 0, search_budget: 0, budget_eps: -1, top_cpu_time: 0, ..config() });
    assert_eq!(p.config.max_runs, 1);
    assert_eq!(p.config.search_budget, 1);
    assert_eq!(p.config.budget_eps, 0);
    assert_eq!(p.config.top_cpu_time, 500_000);
}

#[test]
fn a_cost_method_round_trips_through_its_name() {
    for m in [
        HmpCostMethod::Leafset,
        HmpCostMethod::Signature,
        HmpCostMethod::NodeTime,
        HmpCostMethod::LearnedCost,
        HmpCostMethod::DupAttribution,
    ] {
        assert_eq!(m.as_str().parse::<HmpCostMethod>(), Ok(m));
    }
    for (name, m) in [
        ("LeafSet", HmpCostMethod::Leafset),
        ("nodetime", HmpCostMethod::NodeTime),
        ("LEARNEDCOST", HmpCostMethod::LearnedCost),
        ("dupattribution", HmpCostMethod::DupAttribution),
        ("Dup", HmpCostMethod::DupAttribution),
    ] {
        assert_eq!(name.parse::<HmpCostMethod>(), Ok(m));
    }
    assert!("guess".parse::<HmpCostMethod>().is_err());
    assert_eq!(HmpCostMethod::default(), HmpCostMethod::Leafset);
}

#[test]
fn a_search_explains_itself() {
    assert!(explain_html(&None).contains("did not run"));
    let mut s = searching(&[&["v"]]);
    s.best_combo = vec!["v".to_string()];
    s.best_ms = 700;
    s.in_flight = Some(InFlight { combo: vec!["v".to_string()], sig: "x".to_string() });
    s.after_run(&pass(), RunReport::Measured { runtime_ms: 500, node_time_ms: 1 }, no_plan());
    let o = pass().outcome_from(&s);
    assert_eq!(o.dag_runs_used, 2);
    assert_eq!(o.changes_applied, 1);
    assert_eq!(o.candidates_considered, 1);
    assert_eq!(o.final_runtime_ms, 500);
    let d = pass().remember_explain(&s, vec![], vec![]);
    let html = explain_html(&Some(d));
    assert!(html.contains("1000 ms"));
    assert!(html.contains("-50.0%"), "{html}");
    assert!(html.contains("Iteration 2: materialize [v] — chosen"), "{html}");
    assert!(html.contains("covers 100% of the total"), "{html}");
}

#[test]
fn combinations_are_described() {
    assert_eq!(describe(&vec!["a".to_string(), "b".to_string()]), "a, b");
    assert!(!describe(&vec![]).is_empty());
    let _ = SingletonCost { node: "a".to_string(), cost: 1 };
    assert_eq!(rankable_views(&learned_dag(&["out_a", "out_b"]).nodes), vec!["joined".to_string()]);
}

#[test]
fn a_phase_is_known_by_its_name() {
    for phase in [SearchPhase::Baseline, SearchPhase::Searching, SearchPhase::Converged, SearchPhase::Unknown] {
        assert_eq!(SearchPhase::parse(phase.as_str()), phase);
    }
    assert_eq!(SearchPhase::parse("paused"), SearchPhase::Unknown);
}

#[test]
fn a_legacy_state_row_decodes_and_is_not_mistaken_for_exhausted() {
    // What a row of an older build gives: no candidate list, and nothing that
    // says one was made.
    let state = HmpState {
        phase: SearchPhase::parse("searching"),
        baseline_ms: 1200,
        best_ms: 900,
        best_combo: vec!["a".to_string()],
        working_set: vec!["a".to_string(), "b".to_string()],
        baseline_scores: vec![
            SingletonCost { node: "a".to_string(), cost: 2_000_000_000_000 },
            SingletonCost { node: "b".to_string(), cost: 1_000_000_000_000 },
        ],
        runs_used: 2,
        tried_sigs: vec!["sig-a".to_string()],
        ..HmpState::default()
    };
    assert_eq!(state.phase, SearchPhase::Searching);
    assert_eq!(state.best_ms, 900);
    assert_eq!(state.tried_sigs, vec!["sig-a".to_string()]);
    assert!(!state.candidates_built, "the search has not enumerated yet");
    assert!(state.candidates.is_empty());
    assert_eq!(state.turn(8), HmpTurn::Price);
}

#[test]
fn a_search_without_a_list_goes_on_once_it_has_one() {
    let dag = views_dag();
    let mut s = HmpState {
        phase: SearchPhase::Searching,
        baseline_ms: 1000,
        best_ms: 1000,
        working_set: vec!["v".to_string(), "w".to_string()],
        baseline_scores: vec![SingletonCost { node: "v".to_string(), cost: 2_000_000_000_000 }],
        runs_used: 1,
        ..HmpState::default()
    };
    assert_eq!(s.turn(8), HmpTurn::Price);
    assert_eq!(s.turn(1), HmpTurn::Promote, "no run is left to spend");
    s.list_candidates(combos(&[&["w"]]));
    assert_eq!(s.phase, SearchPhase::Searching);
    assert_eq!(s.turn(8), HmpTurn::Search);
    s.propose(&dag).expect("the one candidate");
    assert_eq!(s.in_flight.as_ref().unwrap().combo, vec!["w".to_string()]);
}

#[test]
fn a_cancelled_iteration_records_the_trial_the_overhead_and_the_resume() {
    let mut s = searching(&[&["v"]]);
    s.in_flight = Some(InFlight { combo: vec!["v".to_string()], sig: "sig-1".to_string() });
    let resumed = Some(ResumeTiming {
        trial_ms: 1000,
        overhead_ms: 120,
        resume_ms: 800,
        trial_node_time_ms: 2400,
        resume_node_time_ms: 1500,
    });
    assert_eq!(s.after_run(&pass(), RunReport::Censored { resumed }, no_plan()), Learned::Rejected);
    let it = s.iterations.last().expect("the cancelled trial was filed");
    assert_eq!(it.outcome, "cancelled");
    assert_eq!(it.trial_ms, Some(1000));
    assert_eq!(it.resume_overhead_ms, Some(120));
    assert_eq!(it.resume_ms, Some(800));
    // What it cost, against what the search may believe of the candidate.
    assert_eq!(it.total_ms(), 1920);
    assert_eq!(it.runtime_ms, 1000);
    assert_eq!(it.node_time_ms, Some(3900));
}

#[test]
fn a_completed_iteration_records_node_time_and_no_resume() {
    let mut s = HmpState::default();
    let report = RunReport::Measured { runtime_ms: 900, node_time_ms: 1200 };
    assert_eq!(s.after_run(&pass(), report, no_plan()), Learned::Baseline);
    let it = s.iterations.last().unwrap();
    assert_eq!(it.node_time_ms, Some(1200));
    assert_eq!(it.runtime_ms, 900);
    assert_eq!(it.total_ms(), 900);
    assert_eq!(it.trial_ms, None);
    assert_eq!(it.resume_overhead_ms, None);
    assert_eq!(it.resume_ms, None);
}

#[test]
fn a_trial_keeps_the_rest_of_the_graph() {
    let mut dag = learned_dag(&["out_a", "out_b"]);
    dag.max_parallelism = Some(3);
    let mut s = searching(&[&["joined"]]);
    let trial = s.propose(&dag).expect("the one candidate");
    assert_eq!(trial.max_parallelism, Some(3));
    assert_eq!(trial.sources.len(), 2);
    assert_eq!(trial.db, dag.db);
}

#[test]
fn an_outcome_carries_its_iterations_and_settings() {
    let s = searching(&[&["v"]]);
    let outcome = pass().outcome_from(&s);
    assert_eq!(outcome.iterations.len(), 1);
    assert_eq!(outcome.iterations[0].runtime_ms, 1000);
    assert_eq!(outcome.max_runs, 1);
    assert_eq!(outcome.top_cpu_time, 1_000_000);
    assert_eq!(outcome.search_budget, 32);
}

#[test]
fn nodes_of_one_signature_count_twice() {
    let mut graph = Graph::new();
    graph.add_node_unchecked(node("a", "b view [] c", MaterializeMode::View, &[]));
    graph.add_node_unchecked(node("a view [] b", "c", MaterializeMode::View, &[]));
    assert_eq!(dag_signature(&graph), "a view [] b view [] c|a view [] b view [] c");
}

#[test]
fn samples_are_kept_where_runs_are_profiled() {
    let samples = || vec!["{\"cpu\":1}".to_string()];
    let profiling = HMPPass::from_config(&HmpConfig { profile_iterations: true, ..config() });
    let mut s = searching(&[&["v"]]);
    assert!(s.iterations[0].samples.is_empty());
    pass().keep_samples(&mut s, Learned::Baseline, samples());
    assert!(s.iterations[0].samples.is_empty(), "not asked for");
    profiling.keep_samples(&mut s, Learned::Rejected, samples());
    assert!(s.iterations[0].samples.is_empty(), "not a measurement");
    profiling.keep_samples(&mut s, Learned::Baseline, samples());
    assert_eq!(s.iterations[0].samples, samples());
    assert_eq!(s.iterations[0].runtime_ms, 1000);
}

#[test]
fn a_score_for_each_row_tells_small_differences_apart() {
    // The rows are counted twice over.
    assert_eq!(ranking_score(1, Some(6_000_000), true), 333_333);
    assert_eq!(ranking_score(1, Some(8_000_000), true), 250_000);
    assert_eq!(ranking_score(3, Some(8_000_000), false), 3_000_000_000_000);
    assert_eq!(ranking_score(3, None, true), 3_000_000_000_000);
    assert_eq!(ranking_score(u64::MAX, Some(1), true), u64::MAX as u128 * 2_000_000_000_000);
}

#[test]
fn a_small_cost_for_each_row_is_worth_searching() {
    let row = |name: &str, total: u64, rows: u128| NodeRankingRow {
        rank: 1,
        node: name.to_string(),
        total,
        timed: true,
        cardinality: Some(2 * rows),
        score: ranking_score(total, Some(2 * rows), true),
        leaves: vec![],
        matched: vec![],
    };
    let rows = vec![row("v", 100, 1_000_000), row("w", 50, 1_000_000)];
    let half = HMPPass::from_config(&HmpConfig { top_cpu_time: 500_000, ..config() });
    assert_eq!(half.working_set_from(&rows), vec!["v".to_string()]);
    assert_eq!(pass().working_set_from(&rows), vec!["v".to_string(), "w".to_string()]);
    let scores = scores_of(&rows);
    assert_eq!(scores[0].cost, 100_000_000);
    assert_eq!(scores[1].cost, 50_000_000);
}

#[test]
fn scores_and_prices_are_added_in_one_unit() {
    let learned = HMPPass::from_config(&HmpConfig { dup_cost_model: SubtreeCostMethod::LearnedCost, ..config() });
    assert!(learned.ranks_by_time());
    let counted = HMPPass::from_config(&HmpConfig { cost_method: HmpCostMethod::DupAttribution, ..config() });
    assert!(!counted.ranks_by_time());
    // Of six Views the pairs that come first are the dearest; what extends the
    // first of them is tried before the next pair where its price says so.
    let names: Vec<String> = ["a", "b", "c", "d", "e", "f"].map(String::from).to_vec();
    let nodes = names.iter().map(|n| node(n, "SELECT 1", MaterializeMode::View, &[])).collect();
    let dag = make_dag(nodes);
    let scores: Vec<SingletonCost> = names
        .iter()
        .map(|n| SingletonCost { node: n.clone(), cost: 10_000_000_000_000 })
        .collect();
    let mut search = learned.start_search(&dag, &names, &scores, true);
    for _ in 0..6 {
        search.record(Some(Scored { cost: 10, makespan: None, stages: 1 }));
    }
    let first = search.wanted().expect("a pair");
    assert_eq!(first.len(), 2);
    search.record(Some(Scored { cost: 11, makespan: None, stages: 1 }));
    assert_eq!(search.wanted().expect("an extension or a pair").len(), 3, "11 and 10 come to more than 10 and 10");
}
