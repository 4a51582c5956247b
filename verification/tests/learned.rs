use dee::learned::{
    median, observed_write_path, sort_numbers, write_timing, CostBasis, LearnedCostModel, OperatorSamples, WriteSamples,
    SINGLE_WRITE_PATH,
};
use dee::plan::PlanNode;
use dee::stored::{StoredModel, StoredOperator, StoredPath};

/// The sink that the write fixtures are written through.
const CTAS: &str = "CREATE_TABLE_AS";
const BATCH: &str = "BATCH_CREATE_TABLE_AS";

const SECOND: u64 = 1_000_000_000;
const MILLISECOND: u64 = 1_000_000;

/// An operator that took `time` nanoseconds and made `rows` rows of `width`
/// bytes.
fn ran(key: &str, time: u64, rows: u64, width: u64, children: Vec<PlanNode>) -> PlanNode {
    PlanNode {
        operator: key.split('[').next().unwrap().to_string(),
        cost_key: key.to_string(),
        relation: None,
        subplan: None,
        writes: false,
        aggregates: key.contains('['),
        exclusive_time: Some(time),
        statement_time: None,
        cardinality: Some(rows),
        estimated_cardinality: Some(rows),
        rows_scanned: None,
        row_width: Some(width),
        children,
    }
}

fn written_by(sink: &str, time: u64, child: PlanNode) -> Vec<PlanNode> {
    let mut n = ran(sink, time, 1, 8, vec![child]);
    n.writes = true;
    n.estimated_cardinality = None;
    vec![n]
}

/// Estimates only, as a plan has them that was never executed.
fn estimated(key: &str, rows: u64, children: Vec<PlanNode>) -> PlanNode {
    let mut n = ran(key, 0, rows, 0, children);
    n.exclusive_time = None;
    n.cardinality = None;
    n.row_width = None;
    n
}

/// Two operators with known bytes and known times: 100 rows of 10 bytes out of
/// 1000 rows of 24.
fn profile() -> PlanNode {
    ran(
        "HASH_GROUP_BY[sum]",
        MILLISECOND,
        100,
        10,
        vec![ran("SEQ_SCAN", 2 * MILLISECOND, 1000, 24, vec![])],
    )
}

/// The same two operators under a write of 0.26 s.
fn write_profile() -> Vec<PlanNode> {
    written_by(CTAS, 260 * MILLISECOND, profile())
}

/// A write over one operator: `time` on the write, and a payload of `rows`
/// rows of `width` bytes under it.
fn write_plan(time: u64, rows: u64, width: u64) -> Vec<PlanNode> {
    written_by(CTAS, time, ran("SEQ_SCAN", 0, rows, width, vec![]))
}

fn relations(model: &LearnedCostModel, path: &str) -> Option<usize> {
    model.written_relations(path)
}

#[test]
fn a_write_constant_is_fitted_from_the_write_operators_own_timing() {
    let plans = write_profile();
    let mut model = LearnedCostModel::new();
    assert!(model.write_seconds_per_byte(CTAS).is_none(), "nothing observed yet");

    // The payload is the operator below the write: 100 rows at 10 bytes.
    model.observe_write("t", &plans, 100);

    let rate = model.write_seconds_per_byte(CTAS).expect("the write operator carries a timing");
    // 0.26 s over 1000 bytes, in femtoseconds.
    assert_eq!(rate, 260_000_000_000, "the write's time over the bytes it wrote");
    assert_eq!(model.write_cost(CTAS, &plans, 100), Some(260 * MILLISECOND));
}

#[test]
fn an_over_priced_compute_no_longer_suppresses_the_write_constant() {
    let plans = write_profile();
    let mut model = LearnedCostModel::new();
    assert!(
        model.cost(&plans).is_none(),
        "an empty model prices no compute at all --- the worst case for a residual"
    );

    model.observe_write("t", &plans, 100);
    assert!(
        model.write_seconds_per_byte(CTAS).is_some(),
        "the write is observable without any compute model to subtract from"
    );
}

#[test]
fn the_postgres_write_is_what_the_plan_does_not_account_for() {
    // The root takes 0.100 s in all; the statement 0.150 s. The gap is the
    // write. Payload: 100 rows at 10 bytes = 1000 bytes.
    let mut root = ran("AGGREGATE", 100 * MILLISECOND, 100, 10, vec![]);
    root.statement_time = Some(150 * MILLISECOND);
    let plans = vec![root];
    let mut model = LearnedCostModel::new();
    model.observe_write("t", &plans, 100);

    let rate = model.write_seconds_per_byte(SINGLE_WRITE_PATH).expect("a gap must be recorded");
    assert_eq!(rate, 50_000_000_000);
    assert_eq!(write_timing(&plans), Some(50 * MILLISECOND));
}

#[test]
fn a_plan_with_no_write_teaches_nothing_about_writing() {
    let plans = vec![profile()];
    let mut model = LearnedCostModel::new();
    model.observe(&plans);
    model.observe_write("t", &plans, 100);
    assert_eq!(model.write_paths().len(), 0);
}

#[test]
fn writing_nothing_costs_nothing() {
    let plans = vec![profile()];
    let model = LearnedCostModel::new();
    assert_eq!(model.write_cost(CTAS, &plans, 0), Some(0));
}

#[test]
fn an_empty_model_is_not_stale() {
    assert_eq!(LearnedCostModel::new().basis(), CostBasis::InputBytes);
}

#[test]
fn merging_carries_the_write_constant() {
    let plans = write_profile();
    let mut fitted = LearnedCostModel::new();
    fitted.observe(&plans);
    fitted.observe_write("t", &plans, 100);

    let mut empty = LearnedCostModel::new();
    empty.merge(&fitted);
    assert_eq!(empty.write_seconds_per_byte(CTAS), fitted.write_seconds_per_byte(CTAS));
    assert!(empty.write_seconds_per_byte(CTAS).is_some());
    assert_eq!(empty.basis(), CostBasis::InputBytes);
}

#[test]
fn each_write_path_keeps_its_own_constant() {
    let mut model = LearnedCostModel::new();
    // Buffered: 0.26 s for 1000 bytes. Batch: 0.04 s for the same 1000.
    model.observe_write("t", &write_profile(), 100);
    model.observe_write("t", &written_by(BATCH, 40 * MILLISECOND, profile()), 100);

    let buffered = model.write_seconds_per_byte(CTAS).expect("buffered fitted");
    let batch = model.write_seconds_per_byte(BATCH).expect("batch fitted");
    assert_eq!(buffered, 260_000_000_000);
    assert_eq!(batch, 40_000_000_000);
    assert_eq!(model.write_paths().len(), 2);
}

#[test]
fn the_exact_rate_never_answers_for_a_path_it_has_not_seen() {
    let plans = write_profile();
    let mut model = LearnedCostModel::new();
    model.observe_write("t", &plans, 100);

    assert!(model.write_seconds_per_byte(CTAS).is_some());
    assert!(model.write_seconds_per_byte(BATCH).is_none(), "the exact accessor substituted a constant");
}

#[test]
fn pricing_falls_back_to_another_paths_constant_and_names_it() {
    let plans = write_profile();
    let mut model = LearnedCostModel::new();
    model.observe_write("t", &plans, 100);

    let (rate, from) = model.write_rate_for(BATCH).expect("a substitute is offered");
    assert_eq!(from, CTAS, "the substitute must name where it came from");
    assert_eq!(Some(rate), model.write_seconds_per_byte(CTAS));
    assert!(model.write_cost(BATCH, &plans, 100).is_some(), "the build stayed unpriced");
}

#[test]
fn the_best_evidenced_path_is_the_one_that_stands_in() {
    let mut model = LearnedCostModel::new();
    model.observe_write("solo", &write_plan(100 * MILLISECOND, 100, 1_000_000), 100);
    for i in 0..3 {
        let plans = written_by(BATCH, 260 * MILLISECOND, profile());
        model.observe_write(&format!("b{i}"), &plans, 100);
    }
    let (_, from) = model.write_rate_for("SOME_THIRD_SINK").expect("a substitute");
    assert_eq!(from, BATCH, "the thinner path stood in");
}

#[test]
fn an_empty_model_has_nothing_to_fall_back_to() {
    let model = LearnedCostModel::new();
    let plans = write_profile();
    assert!(model.write_rate_for(CTAS).is_none());
    assert!(model.write_cost(CTAS, &plans, 100).is_none());
}

#[test]
fn an_observation_is_filed_under_the_sink_the_plan_names() {
    let mut model = LearnedCostModel::new();
    model.observe_write("t", &written_by(BATCH, 260 * MILLISECOND, profile()), 100);
    let paths: Vec<String> = model.write_paths().into_iter().map(|(p, _)| p).collect();
    assert_eq!(paths, vec![BATCH.to_string()]);
}

#[test]
fn merging_keeps_each_write_path_separate() {
    let mut a = LearnedCostModel::new();
    a.observe_write("t", &write_profile(), 100);
    let mut b = LearnedCostModel::new();
    b.observe_write("t", &written_by(BATCH, 40 * MILLISECOND, profile()), 100);
    a.merge(&b);
    assert_eq!(a.write_seconds_per_byte(CTAS), Some(260_000_000_000));
    assert_eq!(a.write_seconds_per_byte(BATCH), Some(40_000_000_000));
}

#[test]
fn a_model_holding_only_write_constants_is_not_empty() {
    let mut model = LearnedCostModel::new();
    model.observe_write("t", &write_profile(), 100);
    assert!(!model.is_empty());
    assert_eq!(model.basis(), CostBasis::InputBytes, "and is not stale");
}

#[test]
fn one_huge_table_no_longer_sets_the_price_of_every_write() {
    // Three ordinary relations at 1e-9 s/byte, and one giant at 4e-9.
    let mut model = LearnedCostModel::new();
    for i in 0..3 {
        model.observe_write(&format!("small_{i}"), &write_plan(100 * MILLISECOND, 100, 1_000_000), 100);
    }
    model.observe_write("giant", &write_plan(40 * SECOND, 100, 100_000_000), 100);

    let k = model.write_seconds_per_byte(CTAS).expect("fitted");
    // The median of three times 1e-9 and once 4e-9 is 1e-9: one vote each.
    assert_eq!(k, 1_000_000, "one table captured the constant");

    // For contrast, what byte-weighting would have said.
    let byte_weighted = (0.100 * 3.0 + 40.0) / (1e8 * 3.0 + 1e10);
    assert!(byte_weighted / (k as f64 * 1e-15) > 3.0, "the two should disagree sharply here");
}

#[test]
fn a_write_too_short_to_measure_is_outvoted_rather_than_excluded() {
    let mut model = LearnedCostModel::new();
    for i in 0..3 {
        model.observe_write(&format!("real_{i}"), &write_plan(100 * MILLISECOND, 100, 1_000_000), 100);
    }
    // 20 microseconds over a handful of bytes: an implied 2e-8 s/byte.
    model.observe_write("tiny", &write_plan(20_000, 100, 10), 100);

    let k = model.write_seconds_per_byte(CTAS).expect("fitted");
    assert_eq!(k, 1_000_000, "the noise sample moved the median");
    // And it is still recorded, so it counts once and can be re-measured.
    assert_eq!(relations(&model, CTAS), Some(4));
}

#[test]
fn re_measuring_a_relation_replaces_its_rate_rather_than_adding_a_vote() {
    let mut model = LearnedCostModel::new();
    model.observe_write("a", &write_plan(100 * MILLISECOND, 100, 1_000_000), 100);
    model.observe_write("b", &write_plan(300 * MILLISECOND, 100, 1_000_000), 100);
    assert_eq!(relations(&model, CTAS), Some(2));

    // `a` measured again, slower this time.
    model.observe_write("a", &write_plan(500 * MILLISECOND, 100, 1_000_000), 100);
    assert_eq!(relations(&model, CTAS), Some(2), "re-measuring a relation added a second vote for it");
    // The median of 3e-9 and 5e-9, not of 1e-9, 3e-9 and 5e-9.
    assert_eq!(model.write_seconds_per_byte(CTAS).unwrap(), 4_000_000);
}

#[test]
fn merging_carries_the_per_relation_observations() {
    let mut a = LearnedCostModel::new();
    a.observe_write("a", &write_plan(100 * MILLISECOND, 100, 1_000_000), 100);
    let mut b = LearnedCostModel::new();
    b.observe_write("b", &write_plan(300 * MILLISECOND, 100, 1_000_000), 100);
    a.merge(&b);
    assert_eq!(relations(&a, CTAS), Some(2));
    // The median of 1e-9 and 3e-9.
    assert_eq!(a.write_seconds_per_byte(CTAS).unwrap(), 2_000_000);
}

#[test]
fn an_operators_constant_is_its_seconds_divided_by_its_input_bytes() {
    let mut model = LearnedCostModel::new();
    model.observe(&vec![profile()]);

    // A leaf with nothing to say about what it read falls back to output:
    // 0.002 s over 24000 bytes.
    assert_eq!(model.seconds_per_byte("SEQ_SCAN"), Some(83_333_333));
    // 0.001 s over the same 24000 bytes.
    assert_eq!(
        model.seconds_per_byte("HASH_GROUP_BY[sum]"),
        Some(41_666_667),
        "the aggregate is priced against its child's output, not its own"
    );
}

#[test]
fn an_aggregates_type_carries_the_function_it_computes() {
    let mut model = LearnedCostModel::new();
    model.observe(&vec![profile()]);
    let keys: Vec<String> = model.operators().into_iter().map(|(k, _)| k).collect();
    assert!(keys.iter().any(|k| k == "HASH_GROUP_BY[sum]"));
    // The bare name is *not* a key: two aggregates that differ only in
    // their function must not share a constant.
    assert!(!keys.iter().any(|k| k == "HASH_GROUP_BY"));
}

#[test]
fn repeat_observations_of_an_operator_are_combined() {
    let mut model = LearnedCostModel::new();
    // 100 bytes in 1 s, then 100 bytes in 3 s: 0.01 and 0.03 s/byte.
    for seconds in [1, 3] {
        model.observe(&vec![ran("FILTER", seconds * SECOND, 10, 10, vec![])]);
    }
    assert_eq!(model.seconds_per_byte("FILTER"), Some(20_000_000_000_000));
}

#[test]
fn a_tiny_observation_cannot_outvote_a_large_one() {
    let mut model = LearnedCostModel::new();
    for (rows, width) in [(10u64, 10u64), (100_000u64, 10u64)] {
        model.observe(&vec![ran("HASH_GROUP_BY[sum]", SECOND, rows, width, vec![])]);
    }

    let key = "HASH_GROUP_BY[sum]";
    // Weighted: 2 seconds over 1,000,100 bytes.
    let weighted = model.seconds_per_byte(key).unwrap();
    assert_eq!(weighted, 1_999_800_020);
    // Unweighted: (0.01 + 0.000001) / 2, ~2500x larger.
    let samples: OperatorSamples = model.operators().into_iter().find(|(k, _)| k == key).unwrap().1;
    let unweighted = samples.unweighted_seconds_per_byte().unwrap();
    assert!(unweighted > weighted * 2000, "unweighted was {unweighted}");
}

#[test]
fn merging_two_models_is_the_same_as_observing_both_runs() {
    let plan = vec![profile()];
    let mut both = LearnedCostModel::new();
    both.observe(&plan);
    both.observe(&plan);

    let mut a = LearnedCostModel::new();
    a.observe(&plan);
    let mut b = LearnedCostModel::new();
    b.observe(&plan);
    a.merge(&b);

    assert_eq!(a.operators(), both.operators());
    assert_eq!(a.write_paths(), both.write_paths());
    assert_eq!(a.basis(), both.basis());
}

#[test]
fn costing_a_plan_prices_every_operators_output_bytes() {
    let mut model = LearnedCostModel::new();
    model.observe(&vec![profile()]);

    // A VIEW's plan: same operators, estimates only, no widths and no
    // timings. Widths come from what the same operator types were measured
    // at, so the cost is the profiled cost reproduced from estimates.
    let view = vec![estimated("HASH_GROUP_BY[sum]", 100, vec![estimated("SEQ_SCAN", 1000, vec![])])];
    assert_eq!(model.cost(&view), Some(3 * MILLISECOND));
}

#[test]
fn an_operator_type_never_seen_costs_the_average_rather_than_nothing() {
    let mut model = LearnedCostModel::new();
    model.observe(&vec![profile()]);
    let cost = model.cost(&vec![estimated("PIVOT", 1000, vec![])]).unwrap();
    assert!(cost > 0, "an unpriced operator must not be free");
}

#[test]
fn a_write_operator_teaches_the_model_nothing() {
    let mut model = LearnedCostModel::new();
    model.observe(&written_by(CTAS, 260 * MILLISECOND, ran("SEQ_SCAN", 2 * MILLISECOND, 1000, 24, vec![])));

    assert!(!model.operators().iter().any(|(k, _)| k == CTAS));
    // The mean is the scan's constant alone, not 0.0325 s/byte.
    assert_eq!(model.mean_seconds_per_byte(), Some(83_333_333));
}

#[test]
fn a_model_that_has_learned_nothing_declines_to_cost() {
    let model = LearnedCostModel::new();
    assert!(model.cost(&vec![profile()]).is_none());
}

#[test]
fn postgres_widths_come_from_the_plan_itself() {
    let mut model = LearnedCostModel::new();
    model.observe(&vec![ran(
        "AGGREGATE[count,sum]",
        MILLISECOND,
        100,
        40,
        vec![ran("SEQ SCAN", MILLISECOND, 1000, 36, vec![])],
    )]);

    // The aggregate consumed its child's output --- 1000 rows x 36 bytes ---
    // in 1 ms, not the 100 x 40 it emitted.
    assert_eq!(model.seconds_per_byte("AGGREGATE[count,sum]"), Some(27_777_778));
    // 1000 rows x 36 bytes in 1 ms.
    assert_eq!(model.seconds_per_byte("SEQ SCAN"), Some(27_777_778));
}

#[test]
fn a_postgres_group_key_expression_is_not_mistaken_for_an_aggregate() {
    // What the group key computes is no part of the kind of operator.
    let n = ran("AGGREGATE[count]", MILLISECOND, 10, 8, vec![]);
    assert_eq!(n.cost_key, "AGGREGATE[count]");
    let mut model = LearnedCostModel::new();
    model.observe(&vec![n]);
    assert_eq!(model.operators().len(), 1);
    assert_eq!(model.operators()[0].0, "AGGREGATE[count]");
}

#[test]
fn a_spool_factor_of_zero_is_free_and_an_unpriceable_write_is_not() {
    let model = LearnedCostModel::new();
    let roots: Vec<PlanNode> = Vec::new();
    assert_eq!(model.spool_cost("WRITE", &roots, 100, 0), Some(0));
    assert_eq!(model.spool_cost("WRITE", &roots, 100, 500_000), None);
}

#[test]
fn a_spool_is_a_part_of_the_write() {
    let plans = write_profile();
    let mut model = LearnedCostModel::new();
    model.observe_write("t", &plans, 100);
    assert_eq!(model.spool_cost(CTAS, &plans, 100, 500_000), Some(130 * MILLISECOND));
}

#[test]
fn a_median_lies_in_the_middle() {
    assert_eq!(median(&vec![]), None);
    assert_eq!(median(&vec![7]), Some(14));
    assert_eq!(median(&vec![9, 1, 5]), Some(10));
    assert_eq!(median(&vec![4, 1]), Some(5));
    assert_eq!(sort_numbers(&vec![3, 1, 2]), vec![1, 2, 3]);
}

#[test]
fn the_write_path_is_the_sink_or_the_only_one() {
    assert_eq!(observed_write_path(&write_profile()), CTAS);
    assert_eq!(observed_write_path(&vec![profile()]), SINGLE_WRITE_PATH);
}

#[test]
fn samples_merge_by_adding_up() {
    let mut a = OperatorSamples::new();
    assert_eq!(a.seconds_per_byte(), None);
    assert_eq!(a.bytes_per_tuple(), None);
    let b = OperatorSamples { rate_sum: 4, rate_n: 2, width_sum: 30, width_n: 3, time_total: 1, bytes_total: 1_000_000 };
    a.merge(&b);
    assert_eq!(a, b);
    assert_eq!(a.bytes_per_tuple(), Some(10_000));
    assert_eq!(a.seconds_per_byte(), Some(1));
    assert_eq!(a.unweighted_seconds_per_byte(), Some(2));
}

#[test]
fn write_samples_keep_the_latest_rate_of_a_relation() {
    let mut w = WriteSamples::new();
    assert!(w.is_empty());
    w.observe("a", 5);
    w.observe("b", 9);
    w.observe("a", 7);
    assert_eq!(w.len(), 2);
    assert_eq!(w.seconds_per_byte(), Some(8));
}

#[test]
fn a_stored_model_comes_back_as_it_was() {
    let mut fitted = LearnedCostModel::new();
    fitted.observe(&vec![profile()]);
    fitted.observe_write("a", &write_profile(), 100);
    fitted.observe_write("b", &write_plan(300 * MILLISECOND, 100, 1_000_000), 100);
    let back = LearnedCostModel::restore(&fitted.store());
    assert_eq!(back.basis(), CostBasis::InputBytes);
    assert_eq!(back.operators().len(), fitted.operators().len());
    assert_eq!(back.seconds_per_byte("SEQ_SCAN"), fitted.seconds_per_byte("SEQ_SCAN"));
    assert!(back.seconds_per_byte("SEQ_SCAN").is_some());
    assert_eq!(relations(&back, CTAS), Some(2));
    assert_eq!(back.write_seconds_per_byte(CTAS), fitted.write_seconds_per_byte(CTAS));
    assert_eq!(back.cost(&vec![profile()]), fitted.cost(&vec![profile()]));
}

#[test]
fn a_stored_model_predating_the_basis_field_loads_and_reports_the_old_basis() {
    let mut fitted = LearnedCostModel::new();
    fitted.observe(&vec![profile()]);
    let legacy = StoredModel { operators: fitted.store().operators, paths: vec![], basis: CostBasis::OutputBytes };

    let loaded = LearnedCostModel::restore(&legacy);
    assert_eq!(loaded.write_paths().len(), 0);
    assert_eq!(
        loaded.basis(),
        CostBasis::OutputBytes,
        "a row that does not say was written before the basis moved"
    );
}

#[test]
fn a_stored_model_predating_the_split_refits_its_write_constants() {
    let samples = OperatorSamples {
        rate_sum: 1_000_000_000_000,
        rate_n: 1,
        width_sum: 10,
        width_n: 1,
        time_total: 260 * MILLISECOND,
        bytes_total: 1000,
    };
    let legacy = StoredModel {
        operators: vec![StoredOperator { key: "SEQ_SCAN".to_string(), samples }],
        paths: vec![],
        basis: CostBasis::InputBytes,
    };
    let loaded = LearnedCostModel::restore(&legacy);
    assert_eq!(
        loaded.write_paths().len(),
        0,
        "a constant pooled across both sinks was adopted for one of them"
    );
    assert_eq!(loaded.operators().len(), 1, "the compute constants survive");
    assert_eq!(loaded.basis(), CostBasis::InputBytes);
}

#[test]
fn a_stored_row_from_before_the_median_refits() {
    let stored = StoredModel {
        operators: vec![],
        paths: vec![StoredPath { path: CTAS.to_string(), rates: vec![] }],
        basis: CostBasis::InputBytes,
    };
    let loaded = LearnedCostModel::restore(&stored);
    assert!(
        loaded.write_seconds_per_byte(CTAS).is_none(),
        "a byte-weighted average was served as a median"
    );
    assert_eq!(loaded.write_paths().len(), 0);
}

#[test]
fn rates_on_the_old_basis_are_discarded_rather_than_mixed_in() {
    let mut fitted = LearnedCostModel::new();
    fitted.observe(&vec![profile()]);
    let stale = StoredModel { basis: CostBasis::OutputBytes, ..fitted.store() };
    let mut model = LearnedCostModel::new();
    assert!(!model.adopt(&LearnedCostModel::restore(&stale)));
    assert!(model.is_empty());
    assert!(model.adopt(&fitted));
    assert_eq!(model.seconds_per_byte("SEQ_SCAN"), fitted.seconds_per_byte("SEQ_SCAN"));
    assert_eq!(model.basis(), CostBasis::InputBytes);
}
