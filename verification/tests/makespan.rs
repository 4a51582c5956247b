use dee::chain::{barrier_chain, flip, makespan_stages, price_flips, responds_to_the_hint, spool_total, work_of, CteProfile};
use dee::dag::{Dag, Graph, MaterializeMode, TransformNode};
use dee::dup::{ConsumerCost, DuplicateCost, MemberBuild};
use dee::fusion::CtePlan;
use dee::makespan::{critical_path, estimate, measured_baseline, score_set, stages, NodeCost};
use dee::table::TextMap;

fn node(id: &str, deps: &[&str]) -> TransformNode {
    TransformNode {
        id: id.to_string(),
        query_text: "SELECT 1".to_string(),
        materialize: MaterializeMode::View,
        depends_on: deps.iter().map(|d| d.to_string()).collect(),
        schema: None,
    }
}

fn dag_of(nodes: Vec<TransformNode>) -> Dag {
    let mut graph = Graph::new();
    for n in nodes {
        graph.add_node_unchecked(n);
    }
    Dag { db: "duckdb".to_string(), nodes: graph, sources: vec![], max_parallelism: None }
}

fn costs(pairs: &[(&str, u64)]) -> Vec<NodeCost> {
    pairs.iter().map(|(k, v)| NodeCost { node: k.to_string(), cost: *v }).collect()
}

/// Durations in milliseconds, as microseconds.
fn stats_of(durations: &[(&str, u64)]) -> Vec<NodeCost> {
    durations.iter().map(|(k, ms)| NodeCost { node: k.to_string(), cost: ms * 1000 }).collect()
}

#[test]
fn the_critical_path_is_the_longest_weighted_chain() {
    let dag = dag_of(vec![
        node("src", &[]),
        node("cheap_a", &["src"]),
        node("cheap_b", &["cheap_a"]),
        node("cheap_c", &["cheap_b"]),
        node("dear", &["src"]),
        node("sink", &["cheap_c", "dear"]),
    ]);
    let (total, path) = critical_path(
        &dag,
        &costs(&[("src", 1), ("cheap_a", 1), ("cheap_b", 1), ("cheap_c", 1), ("dear", 90), ("sink", 2)]),
    );
    assert_eq!(total, 93);
    assert_eq!(path, vec!["src", "dear", "sink"]);
}

#[test]
fn a_missing_node_cost_contributes_zero_rather_than_aborting() {
    let dag = dag_of(vec![node("a", &[]), node("v", &["a"]), node("b", &["v"])]);
    let (total, path) = critical_path(&dag, &costs(&[("a", 3), ("b", 4)]));
    assert_eq!(total, 7);
    assert_eq!(path, vec!["a", "v", "b"]);
}

#[test]
fn stacking_members_on_one_chain_costs_more_than_spreading_them() {
    // chain: src -> c1 -> c2 -> sink;  branches: src -> {b1, b2} -> sink
    let dag = dag_of(vec![
        node("src", &[]),
        node("c1", &["src"]),
        node("c2", &["c1"]),
        node("b1", &["src"]),
        node("b2", &["src"]),
        node("sink", &["c2", "b1", "b2"]),
    ]);
    let chain = costs(&[("c1", 5), ("c2", 5), ("sink", 1)]);
    let spread = costs(&[("b1", 5), ("b2", 5), ("sink", 1)]);

    let (chained, _) = critical_path(&dag, &chain);
    let (spread_total, _) = critical_path(&dag, &spread);
    assert!(
        chained > spread_total,
        "two members on one chain serialize; two on branches do not: \
         chain={chained}, spread={spread_total}"
    );

    assert_eq!(stages(&dag, &vec!["c1".to_string(), "c2".to_string()]), 2);
    assert_eq!(stages(&dag, &vec!["b1".to_string(), "b2".to_string()]), 1);
}

fn spent(pairs: &[(&str, u64)]) -> Vec<ConsumerCost> {
    pairs.iter().map(|(c, v)| ConsumerCost { consumer: c.to_string(), cost: *v }).collect()
}

fn member(write: Option<u64>) -> Vec<MemberBuild> {
    vec![MemberBuild { view: "v".to_string(), compute: 100, write }]
}

#[test]
fn an_unaffected_branch_still_sets_the_floor() {
    let dag = dag_of(vec![
        node("src", &[]),
        node("v", &["src"]),
        node("touched", &["v"]),
        node("untouched", &["src"]),
    ]);
    let baseline = stats_of(&[("src", 10), ("touched", 100), ("untouched", 900)]);
    // The consumer's whole plan is 2.0, of which the member is 1.5 --- so
    // materializing removes three quarters of its work. In hundredths.
    let dup = DuplicateCost {
        views: vec!["v".to_string()],
        build_once: 100,
        build_per_member: member(Some(0)),
        per_consumer: spent(&[("touched", 150)]),
        consumer_total: spent(&[("touched", 200)]),
        duplicate: 50,
        write_total: None,
    };

    let est = estimate(&dag, &dup, &baseline).expect("the consumer calibrates it");
    assert!(
        est.makespan >= 910_000,
        "the untouched 900ms branch behind a 10ms source is a floor: got {}",
        est.makespan
    );
    assert_eq!(est.baseline, 910_000, "the measured-only walk is src + untouched");
    assert_eq!(measured_baseline(&dag, &baseline), 910_000);
}

#[test]
fn a_build_with_no_write_constant_is_refused_rather_than_under_priced() {
    let dag = dag_of(vec![node("src", &[]), node("v", &["src"]), node("c", &["v"])]);
    let baseline = stats_of(&[("src", 10), ("c", 100)]);
    let mut dup = DuplicateCost {
        views: vec!["v".to_string()],
        build_once: 100,
        build_per_member: member(None),
        per_consumer: spent(&[("c", 50)]),
        consumer_total: spent(&[("c", 200)]),
        duplicate: 50,
        write_total: None,
    };
    assert!(
        estimate(&dag, &dup, &baseline).is_none(),
        "an unpriced write must not be silently charged as zero"
    );

    dup.build_per_member[0].write = Some(25);
    assert!(
        estimate(&dag, &dup, &baseline).is_some(),
        "with a write constant the same set estimates fine"
    );
}

#[test]
fn nothing_to_calibrate_against_is_an_absence_not_a_guess() {
    let dag = dag_of(vec![node("v", &[]), node("c", &["v"])]);
    let dup = DuplicateCost {
        views: vec!["v".to_string()],
        build_once: 100,
        build_per_member: member(Some(0)),
        per_consumer: spent(&[("c", 100)]),
        consumer_total: spent(&[("c", 0)]),
        duplicate: 100,
        write_total: None,
    };
    assert!(estimate(&dag, &dup, &stats_of(&[("c", 5)])).is_none());
}

/// A three-CTE chain: `a` feeds `b` feeds `c`.
fn chain_of_three() -> Vec<CtePlan> {
    let cte = |id: &str, reads: &[&str]| CtePlan {
        node_id: id.to_string(),
        cte_name: format!("n_{id}"),
        materialized: false,
        is_table: false,
        reads: reads.iter().map(|s| s.to_string()).collect(),
        readers: 2,
        decidable: true,
    };
    vec![cte("a", &[]), cte("b", &["a"]), cte("c", &["b"])]
}

/// Costs in tenths.
fn profiles_of(entries: &[(&str, u64, Option<u64>)]) -> TextMap<CteProfile> {
    let mut out = TextMap::new();
    for (id, compute, spool) in entries {
        out.insert(id, CteProfile { compute: *compute, spool: *spool });
    }
    out
}

fn set(names: &[&str]) -> Vec<String> {
    names.iter().map(|s| s.to_string()).collect()
}

#[test]
fn a_plain_cte_is_pipelined_and_a_materialized_one_is_a_barrier() {
    let chain = chain_of_three();
    let profiles = profiles_of(&[("a", 10, Some(5)), ("b", 20, Some(5)), ("c", 40, Some(5))]);

    // Nothing materialized: nothing is a barrier, so the path through the
    // chain is empty.
    assert_eq!(barrier_chain(&chain, &profiles, &set(&[])), Some(0));

    // One barrier in the middle: its compute plus its spool, once.
    assert_eq!(barrier_chain(&chain, &profiles, &set(&["b"])), Some(25));

    // Two barriers on one chain serialize: `a` must finish before `b` can.
    assert_eq!(
        barrier_chain(&chain, &profiles, &set(&["a", "b"])),
        Some(40),
        "a barrier above a barrier waits for it -- that is the cost a sum \
         of removed work cannot see"
    );
}

#[test]
fn members_on_one_chain_spool_in_sequence() {
    let chain = chain_of_three();
    assert_eq!(makespan_stages(&chain, &set(&["b"])), 1);
    assert_eq!(
        makespan_stages(&chain, &set(&["a", "b", "c"])),
        3,
        "three links of one chain is three stages, not one set of three"
    );
}

#[test]
fn a_set_whose_spool_cannot_be_priced_is_unranked_not_free() {
    let chain = chain_of_three();
    let profiles = profiles_of(&[("a", 10, None), ("b", 20, Some(5)), ("c", 40, Some(5))]);
    assert!(
        barrier_chain(&chain, &profiles, &set(&["a"])).is_none(),
        "a member with no spool price leaves the whole set unranked"
    );
    // A set that avoids it is still rankable.
    assert!(barrier_chain(&chain, &profiles, &set(&["b"])).is_some());
}

#[test]
fn the_makespan_axis_is_work_plus_waiting_and_not_waiting_alone() {
    let chain = chain_of_three();
    let profiles = profiles_of(&[("a", 10, Some(5)), ("b", 20, Some(5)), ("c", 40, Some(5))]);
    let none = set(&[]);
    let one = set(&["b"]);

    // The chain alone says materializing is strictly worse, always.
    assert!(barrier_chain(&chain, &profiles, &none).unwrap() < barrier_chain(&chain, &profiles, &one).unwrap());

    // With the work term, a configuration that removes enough work wins
    // despite adding a barrier.
    let axis = |work: u128, set: &Vec<String>| work + barrier_chain(&chain, &profiles, set).unwrap();
    assert!(
        axis(60, &one) < axis(100, &none),
        "a barrier that removes four units of work should beat no barrier \
         at all; on the chain alone it never could"
    );
}

#[test]
fn flipping_twice_gives_the_set_back() {
    let default = set(&["a", "b"]);
    let once = flip(&default, &set(&["b", "c"]));
    let mut sorted = once.clone();
    sorted.sort();
    assert_eq!(sorted, set(&["a", "c"]));
    let mut back = flip(&once, &set(&["b", "c"]));
    back.sort();
    assert_eq!(back, default);
}

#[test]
fn spools_add_up_or_are_unknown() {
    let profiles = profiles_of(&[("a", 10, Some(5)), ("b", 20, None)]);
    assert_eq!(spool_total(&profiles, &set(&["a"])), Some(5));
    assert_eq!(spool_total(&profiles, &set(&["a", "b"])), None);
    assert_eq!(spool_total(&profiles, &set(&[])), Some(0));
    assert_eq!(work_of(10, Some(5)), 15);
}

#[test]
fn an_engine_that_plans_both_alike_does_not_heed_the_hint() {
    assert!(!responds_to_the_hint(Some(10), Some(10)));
    assert!(responds_to_the_hint(Some(10), Some(12)));
}

#[test]
fn a_flip_is_priced_by_the_work_it_removes() {
    let chain = chain_of_three();
    let profiles = profiles_of(&[("a", 10, Some(5)), ("b", 20, Some(5)), ("c", 40, Some(5))]);
    let s = price_flips(&chain, &profiles, &set(&[]), &set(&["b"]), 100, Some(60)).expect("priced");
    assert_eq!(s.cost, 35, "100 before, 60 and a spool of 5 after");
    assert_eq!(s.makespan, Some(90), "65 of work and 25 of waiting");
    assert_eq!(s.stages, 1);
    assert!(price_flips(&chain, &profiles, &set(&[]), &set(&["b"]), 100, None).is_none());
}

#[test]
fn a_set_is_scored_net_of_its_writes() {
    let dag = dag_of(vec![node("src", &[]), node("v", &["src"]), node("c", &["v"])]);
    let baseline = stats_of(&[("src", 10), ("c", 100)]);
    let dup = DuplicateCost {
        views: vec!["v".to_string()],
        build_once: 100,
        build_per_member: member(Some(10)),
        per_consumer: spent(&[("c", 150)]),
        consumer_total: spent(&[("c", 200)]),
        duplicate: 50,
        write_total: Some(10),
    };
    let unmeasured = score_set(&dag, &dup, None);
    assert_eq!(unmeasured.cost, 40, "50 of duplication, less a write of 10");
    assert_eq!(unmeasured.makespan, None);
    assert_eq!(unmeasured.stages, 0);
    let measured = score_set(&dag, &dup, Some(&baseline));
    assert_eq!(measured.cost, 40);
    assert_eq!(measured.makespan, Some(estimate(&dag, &dup, &baseline).unwrap().makespan as i64));
    assert_eq!(measured.stages, 1);
}
