use dee::leafset::{attribute_chain, PlanArena, ViewRegionRequest, LEAF_COVERAGE_MIN};
use dee::plan::PlanNode;

/// Times in the fixtures are tenths of a second.
const TENTH: u64 = 100_000_000;

fn scan(relation: &str, tenths: u64) -> PlanNode {
    let mut n = op("SEQ_SCAN", tenths, 100, vec![]);
    n.relation = Some(relation.to_string());
    n
}

fn op(operator: &str, tenths: u64, rows: u64, children: Vec<PlanNode>) -> PlanNode {
    PlanNode {
        operator: operator.to_string(),
        cost_key: operator.to_string(),
        relation: None,
        subplan: None,
        writes: false,
        aggregates: operator == "HASH_GROUP_BY",
        exclusive_time: Some(tenths * TENTH),
        statement_time: None,
        cardinality: Some(rows),
        estimated_cardinality: Some(rows),
        rows_scanned: None,
        row_width: None,
        children,
    }
}

fn leaves(names: &[&str]) -> Vec<String> {
    names.iter().map(|s| s.to_string()).collect()
}

fn sorted(list: &[String]) -> Vec<String> {
    let mut out = list.to_vec();
    out.sort();
    out
}

// A consumer that joins three relations, windows the result, then groups it:
//
//   HASH_GROUP_BY            <- v_agg's region  (1 row)
//     WINDOW                 <- v_win's region  (5000 rows)
//       HASH_JOIN c
//         HASH_JOIN b
//           SCAN a
//           SCAN b
//         SCAN c
fn windowed_then_grouped() -> PlanArena {
    let join = op(
        "HASH_JOIN",
        10,
        5000,
        vec![op("HASH_JOIN", 20, 5000, vec![scan("a", 5), scan("b", 5)]), scan("c", 5)],
    );
    let window = op("WINDOW", 40, 5000, vec![join]);
    let group = op("HASH_GROUP_BY", 15, 1, vec![window]);
    PlanArena::build(&vec![group])
}

#[test]
fn leaves_and_times_roll_up_the_subtree() {
    let arena = windowed_then_grouped();
    let root = &arena.nodes[0];
    assert_eq!(sorted(&root.leaves), leaves(&["a", "b", "c"]));
    // 1.5 + 4.0 + 1.0 + 2.0 + 0.5 * 3
    assert_eq!(root.subtree_time, 100 * TENTH);
    assert_eq!(arena.total_time(), 100 * TENTH);
}

#[test]
fn a_scan_only_covers_part_of_a_three_relation_view() {
    // One scan covers 1/3 of the view's leaves, below the coverage floor,
    // so it can never be mistaken for the whole view's region.
    let arena = windowed_then_grouped();
    let one_leaf = arena.nodes.iter().position(|n| n.leaves == leaves(&["a"])).unwrap();
    assert!(
        (arena.nodes[one_leaf].leaves.len() as f64) / 3.0 < LEAF_COVERAGE_MIN as f64 / 100.0,
        "the fixture no longer exercises the coverage floor"
    );
    assert_ne!(arena.match_region(&leaves(&["a", "b", "c"]), None, false), Some(one_leaf));
}

#[test]
fn chained_views_over_the_same_relations_land_on_different_regions() {
    let arena = windowed_then_grouped();
    let placed = attribute_chain(
        &arena,
        &vec![
            ViewRegionRequest {
                id: "v_agg".to_string(),
                leaves: leaves(&["a", "b", "c"]),
                consumers: vec![],
                prefers_aggregate: true,
            },
            ViewRegionRequest {
                id: "v_win".to_string(),
                leaves: leaves(&["a", "b", "c"]),
                // v_agg depends on v_win, so v_win is confined below it.
                consumers: vec!["v_agg".to_string()],
                prefers_aggregate: false,
            },
        ],
    );

    let agg = placed.get("v_agg").expect("the aggregate view was placed");
    let win = placed.get("v_win").expect("the windowed view was placed");
    assert_ne!(agg.node, win.node, "both views landed on the same operator");
    assert_eq!(arena.nodes[agg.node].operator, "HASH_GROUP_BY");
    assert_eq!(agg.cardinality, Some(1));
    assert_eq!(arena.nodes[win.node].operator, "WINDOW");
    assert_eq!(win.cardinality, Some(5000), "the row-level view's real width was lost");
}

#[test]
fn a_placed_consumer_confines_the_search_strictly_below_it() {
    let arena = windowed_then_grouped();
    let group = 0;
    let interior = arena.interior(group);
    assert!(!interior.contains(&group), "interior must be strict");
    // Confined to the group's interior, the aggregate itself is unreachable.
    let found = arena.match_region(&leaves(&["a", "b", "c"]), Some(&interior), false).unwrap();
    assert_ne!(found, group);
}

#[test]
fn intersecting_two_placed_consumers_beats_either_alone() {
    //        root (a,b)
    //        /       \
    //   left(a,b)   right(a,b)
    let branch = |t: u64| op("HASH_JOIN", t, 10, vec![scan("a", 1), scan("b", 1)]);
    let arena = PlanArena::build(&vec![op("UNION", 1, 20, vec![branch(10), branch(20)])]);
    let left = arena.nodes[0].children[0];
    let right = arena.nodes[0].children[1];
    let below_right = arena.interior(right);
    let both: Vec<usize> = arena.interior(left).into_iter().filter(|i| below_right.contains(i)).collect();
    assert!(both.is_empty(), "two disjoint branches must intersect to nothing");
}

#[test]
fn a_view_that_reads_nothing_in_the_plan_is_placed_nowhere() {
    let arena = windowed_then_grouped();
    assert_eq!(arena.match_region(&leaves(&["z"]), None, false), None);
    let placed = attribute_chain(
        &arena,
        &vec![ViewRegionRequest {
            id: "v".to_string(),
            leaves: leaves(&["z"]),
            consumers: vec![],
            prefers_aggregate: false,
        }],
    );
    assert!(placed.get("v").is_none());
}

#[test]
fn an_interior_nests_in_the_interior_of_what_lies_above() {
    let arena = windowed_then_grouped();
    let outer = arena.interior(0);
    for i in outer.iter() {
        for j in arena.interior(*i) {
            assert!(outer.contains(&j));
        }
    }
}
