use dee::cse::CSEPass;
use dee::cspe::{find_maximal_common_subplans, name_factored, CSPEPass, Candidate, PlannedNode, Unparsed};
use dee::dag::{Graph, MaterializeMode, TransformNode};
use dee::logical::{flatten_plan, replace_subplan, same_plan, LogicalPlan};
use std::sync::Arc;

fn node(id: &str, query: &str, mode: MaterializeMode, deps: &[&str]) -> TransformNode {
    TransformNode {
        id: id.to_string(),
        query_text: query.to_string(),
        materialize: mode,
        depends_on: deps.iter().map(|s| s.to_string()).collect(),
        schema: None,
    }
}

fn graph(nodes: Vec<TransformNode>) -> Graph {
    let mut g = Graph::new();
    for n in nodes {
        g.add_node(n).unwrap();
    }
    g
}

fn op(operator: u64, display: &str, inputs: Vec<LogicalPlan>) -> LogicalPlan {
    LogicalPlan { operator, display: display.to_string(), table: None, inputs }
}

fn scan(table: &str) -> LogicalPlan {
    LogicalPlan { operator: 1, display: format!("TableScan: {table}"), table: Some(table.to_string()), inputs: vec![] }
}

fn filter_us() -> LogicalPlan {
    op(2, "Filter: region = US", vec![scan("staging")])
}

fn filter_eu() -> LogicalPlan {
    op(3, "Filter: region = EU", vec![scan("staging")])
}

fn staging_graph() -> Graph {
    graph(vec![
        node("staging", "SELECT id, region, amount FROM raw", MaterializeMode::TempTable, &[]),
        node("table_a", "SELECT a", MaterializeMode::Table, &["staging"]),
        node("table_b", "SELECT b", MaterializeMode::Table, &["staging"]),
    ])
}

fn planned(a: LogicalPlan, b: LogicalPlan) -> Vec<PlannedNode> {
    vec![
        PlannedNode { id: "staging".to_string(), plan: LogicalPlan { operator: 9, display: "raw".to_string(), table: None, inputs: vec![] } },
        PlannedNode { id: "table_a".to_string(), plan: a },
        PlannedNode { id: "table_b".to_string(), plan: b },
    ]
}

fn unparsed(c: &Candidate) -> Option<Unparsed> {
    Some(Unparsed { sql: format!("SELECT * FROM staging /* {} */", c.plan.display), columns: vec!["id".to_string()] })
}

/// Runs the pass over two nodes with these plans.
fn run(a: LogicalPlan, b: LogicalPlan) -> (Graph, Vec<(String, String)>) {
    let pass: CSPEPass<(), ()> = CSPEPass::new(Arc::new(()), Arc::new(()));
    let mut g = staging_graph();
    let mut minor = staging_graph();
    let nodes = planned(a, b);
    let candidates = find_maximal_common_subplans(&nodes);
    let sqls: Vec<Option<Unparsed>> = candidates.iter().map(unparsed).collect();
    let done = pass.factor(&mut g, &mut minor, &nodes, &candidates, &sqls);
    let texts: Vec<Option<String>> = done.plans.iter().map(|p| Some(render(&p.plan))).collect();
    let stats = pass.regenerate(&mut g, &minor, candidates.len(), &done, &texts);
    let entries = stats.entries();
    let named = ["common_subplans_found", "factored_nodes", "nodes_rewritten"]
        .iter()
        .map(|k| (k.to_string(), entries.get(k).unwrap().clone()))
        .collect();
    (g, named)
}

/// A plan as a query, near enough.
fn render(p: &LogicalPlan) -> String {
    let below: Vec<String> = p.inputs.iter().map(render).collect();
    match &p.table {
        Some(t) => format!("SELECT * FROM {t}"),
        None => format!("SELECT {} FROM ({})", p.display, below.join(", ")),
    }
}

fn depends(n: &TransformNode, id: &str) -> bool {
    n.depends_on.iter().any(|d| d == id)
}

#[test]
fn test_identical_sibling_queries_factored_into_shared_node() {
    let (g, stats) = run(filter_us(), filter_us());
    assert_eq!(stats[1], ("factored_nodes".to_string(), "1".to_string()));

    let a = g.get("table_a").unwrap();
    let b = g.get("table_b").unwrap();
    assert!(
        a.query_text.to_lowercase().contains("cspe_"),
        "table_a must be rewritten to scan the factored node; got: {}",
        a.query_text
    );
    assert!(b.query_text.to_lowercase().contains("cspe_"));

    let factored: Vec<&TransformNode> = g.nodes().iter().filter(|n| n.id.starts_with("cspe_")).collect();
    assert_eq!(factored.len(), 1, "exactly one node should be factored out");
    assert!(factored[0].query_text.contains("US"), "factored node must contain the shared filter");
    assert!(depends(factored[0], "staging"));
    assert_eq!(factored[0].materialize, MaterializeMode::TempTable);

    let id = factored[0].id.clone();
    for n in [a, b] {
        assert!(depends(n, &id), "{} must gain an edge to the factored node; got: {:?}", n.id, n.depends_on);
        assert!(!depends(n, "staging"), "{} must drop its now-stale edge to staging", n.id);
    }
}

#[test]
fn test_partial_subtree_shared_beneath_differing_projections() {
    let a = op(4, "amount, amount * 2 AS doubled", vec![filter_us()]);
    let b = op(5, "amount", vec![filter_us()]);
    let (g, stats) = run(a, b);
    assert_eq!(stats[1], ("factored_nodes".to_string(), "1".to_string()));

    let a = g.get("table_a").unwrap();
    let b = g.get("table_b").unwrap();
    assert!(a.query_text.to_lowercase().contains("cspe_"));
    assert!(b.query_text.to_lowercase().contains("cspe_"));
    // table_a's distinguishing computation must survive the rewrite.
    assert!(
        a.query_text.to_lowercase().contains("doubled") || a.query_text.contains('*'),
        "table_a must retain its own projection on top of the shared subplan; got: {}",
        a.query_text
    );
    let id = g.nodes().iter().find(|n| n.id.starts_with("cspe_")).expect("a factored node must exist").id.clone();
    assert!(depends(a, &id));
    assert!(!depends(a, "staging"));
    assert!(depends(b, &id));
    assert!(!depends(b, "staging"));
}

#[test]
fn test_no_common_subplan_leaves_dag_unchanged() {
    let a = op(5, "amount", vec![filter_us()]);
    let b = op(5, "amount", vec![filter_eu()]);
    let (g, stats) = run(a, b);
    assert_eq!(stats[1], ("factored_nodes".to_string(), "0".to_string()));
    assert_eq!(stats[2], ("nodes_rewritten".to_string(), "0".to_string()));
    assert!(g.nodes().iter().all(|n| !n.id.starts_with("cspe_")), "no node should be factored out");
    assert_eq!(g.get("table_a").unwrap().query_text, "SELECT a");
}

#[test]
fn only_the_largest_common_subplan_is_factored_out() {
    let whole = || op(6, "Sort", vec![op(5, "Projection", vec![filter_us()])]);
    let found = find_maximal_common_subplans(&planned(whole(), whole()));
    assert_eq!(found.len(), 1);
    assert_eq!(found[0].plan.display, "Sort");
    assert_eq!(found[0].node_ids, vec!["table_a".to_string(), "table_b".to_string()]);
}

#[test]
fn a_subplan_that_cannot_be_written_out_is_passed_over() {
    let pass: CSPEPass<(), ()> = CSPEPass::new(Arc::new(()), Arc::new(()));
    let mut g = staging_graph();
    let mut minor = staging_graph();
    let nodes = planned(filter_us(), filter_us());
    let candidates = find_maximal_common_subplans(&nodes);
    let done = pass.factor(&mut g, &mut minor, &nodes, &candidates, &vec![None]);
    assert_eq!(done.factored, 0);
    assert!(done.plans.iter().all(|p| !p.rewritten));
    assert_eq!(g.num_nodes(), 3);
}

#[test]
fn a_factored_node_goes_beside_the_first_of_its_nodes() {
    let c = |ids: &[&str]| Candidate { plan: filter_us(), node_ids: ids.iter().map(|s| s.to_string()).collect() };
    assert_eq!(name_factored(&c(&["b", "a"]), 0), "cspe_0");
    assert_eq!(name_factored(&c(&["\"wh\".\"x\"", "\"zz\".\"y\""]), 3), "\"wh\".\"cspe_3\"");
}

#[test]
fn a_flattened_plan_links_each_operator_to_the_one_above() {
    let p = op(6, "Join", vec![filter_us(), filter_eu()]);
    let entries = flatten_plan(&p);
    let shape: Vec<(&str, Option<usize>)> = entries.iter().map(|e| (e.plan.display.as_str(), e.parent)).collect();
    assert_eq!(
        shape,
        vec![
            ("Join", None),
            ("Filter: region = US", Some(0)),
            ("TableScan: staging", Some(1)),
            ("Filter: region = EU", Some(0)),
            ("TableScan: staging", Some(3)),
        ]
    );
}

#[test]
fn a_replaced_subplan_is_gone() {
    let p = op(6, "Join", vec![filter_us(), filter_us()]);
    let q = replace_subplan(&p, &filter_us(), "shared");
    assert!(flatten_plan(&q).iter().all(|e| !same_plan(e.plan, &filter_us())));
    assert_eq!(q.inputs[0].table, Some("shared".to_string()));
    assert!(same_plan(&q.inputs[0], &q.inputs[1]));
    assert!(!same_plan(&p, &q));
    assert!(same_plan(&p, &p.copy()));
}

#[test]
fn the_first_subplan_that_all_nodes_hold_is_picked() {
    let pass: CSEPass<(), ()> = CSEPass::new();
    let three = |a: LogicalPlan, b: LogicalPlan| {
        vec![PlannedNode { id: "a".to_string(), plan: a }, PlannedNode { id: "b".to_string(), plan: b }]
    };
    assert_eq!(pass.pick(&three(filter_us(), filter_us())), 0, "the whole plan");
    assert_eq!(pass.pick(&three(op(5, "amount", vec![filter_us()]), filter_us())), 1, "what lies below");
    assert_eq!(pass.pick(&three(filter_us(), filter_eu())), 1, "the scan");
    assert_eq!(pass.pick(&three(filter_us(), scan("other"))), 1, "the last where none is common");
}

#[test]
fn every_node_reads_what_is_eliminated() {
    let pass: CSEPass<(), ()> = CSEPass::new();
    let mut g = graph(vec![
        node("a", "SELECT 1", MaterializeMode::Table, &[]),
        node("b", "SELECT 2", MaterializeMode::Table, &["a"]),
    ]);
    let sqls = vec!["SELECT * FROM cse_1".to_string(), "SELECT x FROM cse_1".to_string()];
    pass.eliminate(&mut g, "SELECT shared".to_string(), &sqls);
    let c = g.get("cse_1").unwrap();
    assert_eq!(c.query_text, "SELECT shared");
    assert_eq!(c.materialize, MaterializeMode::View);
    assert!(c.depends_on.is_empty());
    assert_eq!(g.get("a").unwrap().query_text, "SELECT * FROM cse_1");
    assert!(depends(g.get("a").unwrap(), "cse_1"));
    assert!(depends(g.get("b").unwrap(), "cse_1") && depends(g.get("b").unwrap(), "a"));
    assert_eq!(g.num_nodes(), 3);
}

#[test]
fn a_node_of_the_factored_ones_name_gives_way_to_it() {
    let mut g = graph(vec![
        node("cse_1", "SELECT 1", MaterializeMode::Table, &[]),
        node("a", "SELECT x FROM cse_1", MaterializeMode::Table, &["cse_1"]),
    ]);
    let pass: CSEPass<(), ()> = CSEPass::new();
    let sqls = vec!["SELECT 1".to_string(), "SELECT x FROM cse_1".to_string()];
    pass.eliminate(&mut g, "SELECT shared".to_string(), &sqls);
    let c = g.get("cse_1").unwrap();
    assert_eq!(c.query_text, "SELECT shared");
    assert!(c.depends_on.is_empty());
    assert_eq!(g.get("a").unwrap().query_text, "SELECT x FROM cse_1");
}
