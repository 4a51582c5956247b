use dee::combo::{canonical_order, combinations, order_by, CostedCombo, HmpObjective, Scored};
use dee::dag::{Dag, Graph, MaterializeMode, TransformNode};
use dee::search::{search_combos, working_set_from, SingletonCost};

fn node(id: &str, mode: MaterializeMode, deps: &[&str], query: &str) -> TransformNode {
    TransformNode {
        id: id.to_string(),
        query_text: query.to_string(),
        materialize: mode,
        depends_on: deps.iter().map(|s| s.to_string()).collect(),
        schema: None,
    }
}

fn dag_of(nodes: Vec<TransformNode>) -> Dag {
    let mut graph = Graph::new();
    for n in nodes {
        graph.add_node_unchecked(n);
    }
    Dag { db: "duckdb".to_string(), nodes: graph, sources: vec![], max_parallelism: None }
}

/// A chain of multi-consumer Views, each nested inside the next.
fn nested_dag() -> Dag {
    dag_of(vec![
        node("salary", MaterializeMode::View, &[], "SELECT id, amt FROM raw WHERE amt > 0"),
        node("profile", MaterializeMode::View, &["salary"], "SELECT id, amt FROM salary WHERE amt > 10"),
        node("t1", MaterializeMode::Table, &["profile"], "SELECT sum(amt) AS s FROM profile"),
        node("t2", MaterializeMode::Table, &["profile"], "SELECT count(*) AS n FROM profile"),
        node("t3", MaterializeMode::Table, &["profile"], "SELECT max(amt) AS x FROM profile"),
        node("t4", MaterializeMode::Table, &["salary"], "SELECT min(amt) AS m FROM salary"),
    ])
}

fn names(list: &[&str]) -> Vec<String> {
    list.iter().map(|s| s.to_string()).collect()
}

#[test]
fn canonical_order_is_consumer_most_first() {
    let dag = nested_dag();
    let order = canonical_order(&dag, &vec!["salary".to_string(), "profile".to_string()]);
    assert_eq!(
        order,
        vec!["profile".to_string(), "salary".to_string()],
        "the descendant must come first, so the prepending CTE wrap leaves \
         the ancestor defined first"
    );
}

#[test]
fn canonical_order_is_deterministic_under_ties() {
    let dag = dag_of(vec![
        node("b", MaterializeMode::View, &[], "SELECT 1"),
        node("a", MaterializeMode::View, &[], "SELECT 1"),
        node("c", MaterializeMode::View, &[], "SELECT 1"),
    ]);
    let ids = vec!["c".to_string(), "a".to_string(), "b".to_string()];
    assert_eq!(canonical_order(&dag, &ids), vec!["a", "b", "c"]);
}

fn combo_of(name: &str, cost: i64, makespan: Option<i64>) -> CostedCombo {
    CostedCombo { combo: vec![name.to_string()], cost, makespan, stages: 1 }
}

#[test]
fn query_time_orders_by_duplicate_computation_descending() {
    let out = order_by(
        &vec![combo_of("small", 1, Some(1)), combo_of("big", 9, Some(9)), combo_of("mid", 5, Some(5))],
        HmpObjective::QueryTime,
    );
    let names: Vec<&str> = out.iter().map(|c| c.combo[0].as_str()).collect();
    assert_eq!(names, vec!["big", "mid", "small"]);
}

#[test]
fn makespan_orders_by_predicted_wall_clock_ascending() {
    let out = order_by(
        &vec![combo_of("small", 1, Some(1)), combo_of("big", 9, Some(9)), combo_of("mid", 5, Some(5))],
        HmpObjective::Makespan,
    );
    let names: Vec<&str> = out.iter().map(|c| c.combo[0].as_str()).collect();
    assert_eq!(names, vec!["small", "mid", "big"]);
}

#[test]
fn a_candidate_with_no_prediction_sorts_last_under_makespan() {
    let out = order_by(
        &vec![combo_of("unpredicted", 99, None), combo_of("slow", 10, Some(9)), combo_of("fast", 1, Some(1))],
        HmpObjective::Makespan,
    );
    let names: Vec<&str> = out.iter().map(|c| c.combo[0].as_str()).collect();
    assert_eq!(names, vec!["fast", "slow", "unpredicted"]);
    assert_eq!(names.len(), 3, "nothing is dropped for being unpredicted");
}

#[test]
fn with_no_predictions_makespan_falls_back_to_duplicate_computation() {
    let out = order_by(
        &vec![combo_of("small", 1, None), combo_of("big", 9, None), combo_of("mid", 5, None)],
        HmpObjective::Makespan,
    );
    let names: Vec<&str> = out.iter().map(|c| c.combo[0].as_str()).collect();
    assert_eq!(names, vec!["big", "mid", "small"]);
}

#[test]
fn the_two_objectives_can_order_the_same_sets_differently() {
    let costed = vec![
        CostedCombo { combo: vec!["a".into(), "b".into()], cost: 9, makespan: Some(7), stages: 2 },
        CostedCombo { combo: vec!["b".into()], cost: 4, makespan: Some(2), stages: 1 },
    ];
    let by_work = order_by(&costed, HmpObjective::QueryTime);
    assert_eq!(by_work[0].combo, vec!["a".to_string(), "b".to_string()]);
    let by_path = order_by(&costed, HmpObjective::Makespan);
    assert_eq!(
        by_path[0].combo,
        vec!["b".to_string()],
        "ranking by one and accepting on the other is how a search finds \
         improvements and promotes none of them"
    );
}

#[test]
fn every_subset_is_generated_at_most_once() {
    let items: Vec<String> = (0..5).map(|i| format!("n{i}")).collect();
    let mut seen = std::collections::HashSet::new();
    let mut total = 0;
    for k in 1..=items.len() {
        for combo in combinations(&items, k) {
            assert!(seen.insert(combo.clone()), "generated {combo:?} twice");
            total += 1;
        }
    }
    assert_eq!(total, (1 << items.len()) - 1, "should be every non-empty subset");
}

fn singles(list: &[(&str, i64)]) -> Vec<SingletonCost> {
    list.iter().map(|(n, c)| SingletonCost { node: n.to_string(), cost: *c as i128 }).collect()
}

/// Runs a search to its end, pricing each combination by `price`.
fn run_search(candidates: &[&str], known: &[(&str, i64)], budget: usize, price: fn(&[String]) -> Option<i64>) -> (Vec<CostedCombo>, Vec<Vec<String>>) {
    let mut search = search_combos(&names(candidates), &singles(known), budget, 1);
    let mut asked = Vec::new();
    loop {
        let combo = match search.wanted() {
            Some(c) => c,
            None => break,
        };
        let score = price(&combo).map(|cost| Scored { cost, makespan: None, stages: 1 });
        asked.push(combo);
        search.record(score);
    }
    (search.results(HmpObjective::QueryTime), asked)
}

#[test]
fn exhaustive_below_budget() {
    let (out, asked) = run_search(&["a", "b", "c"], &[("a", 3), ("b", 2), ("c", 1)], 32, |c| Some(c.len() as i64));
    assert_eq!(out.len(), 7, "every non-empty subset of three");
    assert_eq!(asked.len(), 7);
    let mut seen: Vec<Vec<String>> = out.iter().map(|c| c.combo.clone()).collect();
    seen.sort();
    seen.dedup();
    assert_eq!(seen.len(), 7, "each once");
}

#[test]
fn best_first_above_budget_stops_at_the_budget() {
    let ids = ["a", "b", "c", "d", "e", "f"];
    let known = [("a", 6), ("b", 5), ("c", 4), ("d", 3), ("e", 2), ("f", 1)];
    let (out, _) = run_search(&ids, &known, 4, |c| Some(10 * c.len() as i64));
    let multi = out.iter().filter(|c| c.combo.len() >= 2).count();
    assert!(multi <= 4, "the budget is 4 multi-node combinations, priced {multi}");
    assert!(out.iter().any(|c| c.combo.len() == 1), "singletons are costed outside the budget");
}

#[test]
fn nothing_priceable_returns_nothing_rather_than_zeroes() {
    let (out, asked) = run_search(&["a", "b"], &[("a", 1), ("b", 1)], 8, |_| None);
    assert!(out.is_empty(), "an unpriced combination is not one that costs nothing");
    assert!(!asked.is_empty());
}

#[test]
fn results_come_in_descending_order_of_what_they_remove() {
    let (out, _) = run_search(&["a", "b", "c"], &[("a", 3), ("b", 2), ("c", 1)], 32, |c| {
        Some(if c.len() == 1 { 5 } else { -(c.len() as i64) })
    });
    for w in out.windows(2) {
        assert!(w[0].cost >= w[1].cost);
    }
}

#[test]
fn combinations_of_two_come_in_order() {
    let out = combinations(&names(&["x", "y", "z"]), 2);
    assert_eq!(out, vec![names(&["x", "y"]), names(&["x", "z"]), names(&["y", "z"])]);
    assert_eq!(combinations(&names(&["x"]), 2), Vec::<Vec<String>>::new());
}

#[test]
fn objectives_have_names() {
    assert_eq!(HmpObjective::QueryTime.as_str(), "query_time");
    assert_eq!(HmpObjective::Makespan.as_str(), "makespan");
}

fn score(node: &str, cost: i64) -> SingletonCost {
    SingletonCost { node: node.to_string(), cost: cost as i128 }
}

#[test]
fn the_working_set_is_the_shortest_beginning_that_comes_to_the_share() {
    let scores = vec![score("a", 6), score("b", 3), score("c", 1)];
    assert_eq!(working_set_from(&scores, 600_000), vec!["a".to_string()]);
    assert_eq!(working_set_from(&scores, 600_001), vec!["a".to_string(), "b".to_string()]);
    assert_eq!(working_set_from(&scores, 1_000_000).len(), 3);
    assert!(working_set_from(&vec![], 500_000).is_empty());
    assert!(working_set_from(&vec![score("a", 5), score("b", -5)], 500_000).is_empty());
    assert_eq!(working_set_from(&vec![score("a", 6), score("b", -1)], 800_000), vec!["a".to_string()]);
    let huge = vec![score("a", i64::MAX), score("b", i64::MAX)];
    assert_eq!(working_set_from(&huge, 500_000), vec!["a".to_string()]);
    assert_eq!(working_set_from(&huge, 500_001).len(), 2);
}
