use dee::dag::{Dag, Graph, MaterializeMode, TransformNode};
use dee::dup::{
    build_once_cost, consumer_query, contract_intermediate_views_set, cte_name, duplicate_cost_set, member_bodies,
    plan_duplicates, Answer, CardinalitySubtreeCost, ConsumerCost, DuplicateCost, LearnedSubtreeCost, MemberBuild,
    OperatorCountSubtreeCost, SubtreeCost, SubtreeCostMethod,
};
use dee::learned::LearnedCostModel;
use dee::plan::{cost_in_operators, find_subplan, region_in_operators, PlanNode};
use dee::sql::dialect_for_db;

fn node(id: &str, mode: MaterializeMode, deps: &[&str], query: &str) -> TransformNode {
    TransformNode {
        id: id.to_string(),
        query_text: query.to_string(),
        materialize: mode,
        depends_on: deps.iter().map(|s| s.to_string()).collect(),
        schema: None,
    }
}

fn dag_of(nodes: Vec<TransformNode>) -> Dag {
    let mut graph = Graph::new();
    for n in nodes {
        graph.add_node_unchecked(n);
    }
    Dag { db: "duckdb".to_string(), nodes: graph, sources: vec![], max_parallelism: None }
}

fn one_consumer_query(dag: &Dag, view: &str, consumer: &str) -> String {
    let dialect = dialect_for_db(&dag.db);
    let set = vec![view.to_string()];
    let bodies = member_bodies(&dag.nodes, &set, dialect).expect("body should rewrite");
    consumer_query(&dag.nodes, consumer, &set, &bodies, dialect).expect("consumer should rewrite")
}

fn op(operator: &str, estimate: Option<u64>, children: Vec<PlanNode>) -> PlanNode {
    PlanNode {
        operator: operator.to_string(),
        cost_key: operator.to_string(),
        relation: None,
        subplan: None,
        writes: false,
        aggregates: false,
        exclusive_time: None,
        statement_time: None,
        cardinality: None,
        estimated_cardinality: estimate,
        rows_scanned: None,
        row_width: None,
        children,
    }
}

fn cte_body(mut n: PlanNode, name: &str) -> PlanNode {
    n.subplan = Some(name.to_string());
    n
}

#[test]
fn each_consumer_gets_the_view_as_a_materialized_cte() {
    let dag = dag_of(vec![
        node("v", MaterializeMode::View, &["raw"], "SELECT id, amt FROM raw WHERE amt > 0"),
        node("m1", MaterializeMode::Table, &["v"], "SELECT sum(amt) AS s FROM v"),
        node("m2", MaterializeMode::Table, &["v"], "SELECT count(*) AS n FROM v"),
    ]);
    let queries: Vec<(String, String)> =
        ["m1", "m2"].iter().map(|c| (c.to_string(), one_consumer_query(&dag, "v", c))).collect();
    assert_eq!(queries.len(), 2);
    for (consumer, sql) in &queries {
        let upper = sql.to_uppercase();
        assert!(
            upper.contains("MATERIALIZED"),
            "{consumer} lost the optimizer barrier, so the region would be \
             the View fused into its consumer: {sql}"
        );
        assert!(sql.contains("dee_dup_v"), "{consumer} was not repointed at the CTE: {sql}");
        assert!(sql.contains("amt > 0"), "{consumer} did not get the View's body: {sql}");
    }
}

#[test]
fn an_intermediate_view_is_contracted_before_the_cte_goes_in() {
    let mut dag = dag_of(vec![
        node("v", MaterializeMode::View, &["raw"], "SELECT id, amt FROM raw"),
        node("mid", MaterializeMode::View, &["v"], "SELECT id, amt FROM v WHERE amt > 10"),
        node("m1", MaterializeMode::Table, &["mid"], "SELECT sum(amt) AS s FROM mid"),
    ]);
    let frontier = dag.nodes.frontier_materializes("v");
    assert_eq!(frontier, vec!["m1".to_string()]);
    let dialect = dialect_for_db(&dag.db);
    dag.nodes = contract_intermediate_views_set(&dag.nodes, dialect, &vec!["v".to_string()], &frontier).unwrap();

    let sql = &one_consumer_query(&dag, "v", "m1");
    assert!(sql.contains("dee_dup_v"), "the CTE did not reach m1: {sql}");
    assert!(sql.contains("amt > 10"), "the intermediate view's predicate was lost: {sql}");
}

#[test]
fn a_consumers_existing_ctes_survive() {
    let dag = dag_of(vec![
        node("v", MaterializeMode::View, &["raw"], "SELECT id FROM raw"),
        node(
            "m1",
            MaterializeMode::Table,
            &["v"],
            "WITH mine AS (SELECT 1 AS x) SELECT count(*) AS n FROM v, mine",
        ),
    ]);
    let sql = &one_consumer_query(&dag, "v", "m1");
    assert!(sql.contains("mine"), "the consumer's own CTE was dropped: {sql}");
    assert!(sql.contains("dee_dup_v"), "the View's CTE was not added: {sql}");
}

#[test]
fn the_cte_region_is_the_body_and_not_the_query_that_reads_it() {
    let plans = vec![op(
        "CTE",
        Some(1000),
        vec![
            cte_body(op("HASH_GROUP_BY", Some(7), vec![op("SEQ_SCAN", Some(1000), vec![])]), "dee_dup_v"),
            op("HASH_JOIN", Some(1000), vec![op("SEQ_SCAN", Some(1000), vec![]), op("CTE_SCAN", Some(7), vec![])]),
        ],
    )];
    let region = find_subplan(&plans, "dee_dup_v").expect("the CTE region");
    assert_eq!(region.operator, "HASH_GROUP_BY");
    // Three operators in the whole plan belong to the consumer; the region
    // must contain only the two that are the View.
    assert_eq!(OperatorCountSubtreeCost.region_cost(region), Some(2));
    assert_eq!(region_in_operators(region), Some(2));
}

#[test]
fn postgres_names_a_cte_body_the_same_way_duckdb_does() {
    let plans = vec![op(
        "Hash Join",
        Some(10),
        vec![
            cte_body(op("Aggregate", Some(7), vec![op("Seq Scan", Some(1000), vec![])]), "dee_dup_v"),
            op("CTE Scan", Some(7), vec![]),
        ],
    )];
    let region = find_subplan(&plans, "dee_dup_v").expect("the CTE region");
    assert_eq!(region.operator, "Aggregate");
    // The `CTE Scan` that reads the CTE back is not part of it.
    assert_eq!(OperatorCountSubtreeCost.region_cost(region), Some(2));
}

#[test]
fn an_initplan_is_not_mistaken_for_a_cte() {
    let plans = vec![op("Result", Some(1), vec![op("Aggregate", Some(1), vec![])])];
    assert!(find_subplan(&plans, "InitPlan 1").is_none());
    assert!(plans[0].children[0].subplan.is_none());
}

#[test]
fn cardinality_sums_every_operators_estimate() {
    let plans = vec![op("HASH_GROUP_BY", Some(7), vec![op("SEQ_SCAN", Some(1000), vec![])])];
    assert_eq!(CardinalitySubtreeCost.cost(&plans), Some(1007));
}

#[test]
fn a_cost_model_that_can_price_nothing_declines_rather_than_saying_zero() {
    let plans = vec![op("SEQ_SCAN", None, vec![])];
    // No cardinality anywhere: rows-based costing has nothing to add up.
    assert_eq!(CardinalitySubtreeCost.cost(&plans), None);
    // An empty learned model prices nothing either.
    let empty = LearnedCostModel::new();
    assert_eq!(LearnedSubtreeCost(&empty).cost(&plans), None);
}

fn build(view: &str, compute: u64, write: Option<u64>) -> MemberBuild {
    MemberBuild { view: view.to_string(), compute, write }
}

/// Two consumers of one View, and what the engine answers for each.
fn priced(builds: Vec<MemberBuild>) -> Option<DuplicateCost> {
    let dag = dag_of(vec![
        node("v", MaterializeMode::View, &[], "SELECT g, sum(amt) AS total FROM raw GROUP BY g"),
        node("m1", MaterializeMode::Table, &["v"], "SELECT count(*) AS n FROM v"),
        node("m2", MaterializeMode::Table, &["v"], "SELECT max(total) AS biggest FROM v"),
    ]);
    let plan = plan_duplicates(&dag, &vec!["v".to_string()]).expect("the set can be asked about");
    let name = cte_name("v");
    let answers: Vec<Answer> = plan
        .consumers
        .iter()
        .map(|_| {
            Answer::Plan(vec![op(
                "CTE",
                Some(1),
                vec![cte_body(op("HASH_GROUP_BY", Some(7), vec![op("SEQ_SCAN", Some(1000), vec![])]), &name)],
            )])
        })
        .collect();
    duplicate_cost_set(&plan, builds, &answers, &CardinalitySubtreeCost)
}

#[test]
fn two_consumers_are_charged_one_duplicate_copy() {
    let d = priced(vec![build("v", 1007, None)]).expect("priced");
    assert_eq!(d.per_consumer.len(), 2);
    assert_eq!(d.build_once, 1007);
    assert_eq!(d.duplicate, 1007, "two copies less the one that would remain");
}

#[test]
fn the_write_is_summed_beside_duplicate_not_inside_it() {
    let d = priced(vec![build("v", 1007, None)]).expect("priced");
    assert!(d.write_total.is_none(), "a model that prices no writes reported a write total");
    assert!(d.duplicate > 0, "duplicate still comes from compute alone");
    assert_eq!(d.build_per_member.len(), 1);
    assert!(d.build_per_member[0].write.is_none());

    let d = priced(vec![build("v", 1007, Some(300))]).expect("priced");
    assert_eq!(d.write_total, Some(300));
    assert_eq!(d.duplicate, 1007);
    assert_eq!(d.net(), 707, "what is left once the table has been written");
}

#[test]
fn a_partly_priced_set_reports_no_write_total() {
    let d = priced(vec![build("v", 1, Some(1)), build("w", 1, Some(2))]).expect("priced");
    assert_eq!(d.write_total, Some(3));
    let d = priced(vec![build("v", 1, Some(1)), build("w", 1, None)]).expect("priced");
    assert_eq!(d.write_total, None, "a partial sum was reported as a total");
}

#[test]
fn the_consumer_total_covers_its_member_regions() {
    let d = priced(vec![build("v", 1007, None)]).expect("priced");
    for (region, whole) in d.per_consumer.iter().zip(&d.consumer_total) {
        assert_eq!(region.consumer, whole.consumer);
        assert!(whole.cost >= region.cost);
    }
}

#[test]
fn an_engine_that_answers_nothing_prices_nothing() {
    let dag = dag_of(vec![
        node("v", MaterializeMode::View, &[], "SELECT id FROM raw"),
        node("m1", MaterializeMode::Table, &["v"], "SELECT count(*) AS n FROM v"),
        node("m2", MaterializeMode::Table, &["v"], "SELECT max(id) AS x FROM v"),
    ]);
    let plan = plan_duplicates(&dag, &vec!["v".to_string()]).unwrap();
    let none = vec![Answer::Unsupported, Answer::Unsupported];
    assert!(duplicate_cost_set(&plan, vec![build("v", 1, None)], &none, &CardinalitySubtreeCost).is_none());
}

#[test]
fn ctes_are_emitted_in_dependency_order() {
    let dag = dag_of(vec![
        node("salary", MaterializeMode::View, &[], "SELECT id, amt FROM raw"),
        node("profile", MaterializeMode::View, &["salary"], "SELECT id, amt FROM salary WHERE amt > 10"),
        node("t1", MaterializeMode::Table, &["profile"], "SELECT sum(amt) AS s FROM profile"),
        node("t2", MaterializeMode::Table, &["profile", "salary"], "SELECT count(*) AS n FROM profile, salary"),
    ]);
    let plan = plan_duplicates(&dag, &vec!["salary".to_string(), "profile".to_string()]).unwrap();
    assert_eq!(plan.order, vec!["profile", "salary"]);
    let sql = plan.probe;
    let inner = sql.find("dee_dup_salary").expect("the inner member is there");
    let outer = sql.find("dee_dup_profile").expect("the outer member is there");
    assert!(inner < outer, "what is read has to be defined first: {sql}");
}

#[test]
fn the_build_once_probe_prices_every_member() {
    let order = vec!["p".to_string(), "s".to_string()];
    let plans = vec![op(
        "CTE",
        None,
        vec![
            cte_body(op("FILTER", Some(3), vec![]), &cte_name("s")),
            cte_body(op("JOIN", Some(5), vec![op("SCAN", Some(10), vec![])]), &cte_name("p")),
        ],
    )];
    let paths = vec![None, None];
    let builds = build_once_cost(&order, &plans, &paths, &CardinalitySubtreeCost).expect("both are in the plan");
    assert_eq!(builds.len(), 2);
    assert_eq!(builds[0].view, "p");
    assert_eq!(builds[0].compute, 15);
    assert_eq!(builds[1].view, "s");
    assert_eq!(builds[1].compute, 3);
    assert!(builds.iter().all(|b| b.write.is_none()));
    let gone = vec!["q".to_string()];
    assert!(build_once_cost(&gone, &plans, &vec![None], &CardinalitySubtreeCost).is_none());
}

#[test]
fn names_of_members_tell_where_a_part_ends() {
    assert_eq!(cte_name("v"), "dee_dup_v");
    assert_eq!(cte_name("a_b"), "dee_dup_a__b");
    assert_eq!(cte_name("a.b"), "dee_dup_a_db");
    let names = ["a_b", "\"a\".\"b\"", "a.b", "\"a_b\"", "a__b", "a_db"].map(cte_name);
    for (i, a) in names.iter().enumerate() {
        assert!(a.starts_with("dee_dup"));
        assert!(names[i + 1..].iter().all(|b| a != b), "{a} twice");
    }
}

#[test]
fn members_in_different_schemas_get_distinct_cte_names() {
    assert_ne!(
        cte_name("\"wh\".\"main\".\"orders\""),
        cte_name("\"wh\".\"staging\".\"orders\""),
        "a bare-name CTE would make these one region and misattribute both"
    );
}

#[test]
fn a_subtree_cost_method_round_trips_through_its_name() {
    for method in [SubtreeCostMethod::LearnedCost, SubtreeCostMethod::Cardinality, SubtreeCostMethod::Operators] {
        assert_eq!(method.as_str().parse::<SubtreeCostMethod>(), Ok(method));
    }
}

#[test]
fn an_unknown_cost_method_is_refused_by_name() {
    let problem = "guesswork".parse::<SubtreeCostMethod>().unwrap_err();
    assert!(problem.contains("guesswork"), "got {problem}");
    assert_eq!(SubtreeCostMethod::parse("CARDINALITY"), Ok(SubtreeCostMethod::Cardinality));
}

#[test]
fn a_view_nobody_reads_has_no_consumers_to_ask() {
    let dag = dag_of(vec![node("v", MaterializeMode::View, &[], "SELECT id FROM raw")]);
    if let Some(plan) = plan_duplicates(&dag, &vec!["v".to_string()]) {
        assert!(plan.consumers.is_empty());
    }
}

#[test]
fn a_consumer_cost_names_its_consumer() {
    let c = ConsumerCost { consumer: "m".to_string(), cost: 4 };
    assert_eq!((c.consumer.as_str(), c.cost), ("m", 4));
    assert_eq!(cost_in_operators(&vec![op("A", None, vec![op("B", None, vec![])])]), Some(2));
}

#[test]
fn a_model_that_cannot_price_a_write_cannot_price_a_spool() {
    let region = op("SCAN", Some(10), vec![]);
    assert_eq!(CardinalitySubtreeCost.spool_cost("WRITE", &region, 10, 0), Some(0));
    assert_eq!(CardinalitySubtreeCost.spool_cost("WRITE", &region, 10, 500_000), None);
    assert_eq!(OperatorCountSubtreeCost.spool_cost("WRITE", &region, 10, 1), None);
}
