//! Ranking Views by what materializing each could save.
//!
//! A View is ranked only where it is a branch point: where several nodes read
//! it, and there is more than one way from it to a materialized result.

use vstd::prelude::*;
use vstd::string::*;

use crate::dag::{models, Dag, Graph, GraphModel, MaterializeMode, NodeModel};
use crate::dup::{ConsumerCost, DuplicateCost};
use crate::learned::{
    is_blank, is_total, learn_all, observed_rate, plan_cost, total_is_unique, with_write, write_path_of, CostBasis,
    LearnedCostModel, LearnedModel, OperatorSamples,
};
use crate::levels::branch_point;
use crate::order::{order_positions, picked, stable_order, stably_sorted};
use crate::plan::{cap64, rows_of, PlanNode};
use crate::search::{within, SingletonCost};
use crate::step::{cost_text, show_cost};
use crate::text::{
    at_most, copy_texts, text_eq, text_le, text_le_total, text_le_transitive, texts, Text,
};
use crate::walk::frontier;

verus! {

/// What a run tells of one node.
#[derive(Debug)]
pub struct NodeStat {
    pub node: String,
    /// The node's time, in nanoseconds.
    pub duration: u64,
    /// The node's plan, where the run collected it.
    pub plan: Option<Vec<PlanNode>>,
    /// The rows that the node wrote, where that was reported.
    pub rows_produced: Option<u64>,
}

/// What a run tells of `node`, from `from` on.
pub open spec fn stat_from(stats: Seq<NodeStat>, node: Text, from: nat) -> Option<NodeStat>
    decreases stats.len() - from,
{
    if from >= stats.len() {
        None
    } else if stats[from as int].node@ == node {
        Some(stats[from as int])
    } else {
        stat_from(stats, node, from + 1)
    }
}

/// What a run tells of `node`.
pub open spec fn stat_of(stats: Seq<NodeStat>, node: Text) -> Option<NodeStat> {
    stat_from(stats, node, 0)
}

/// The plan of `node` in a run.
pub open spec fn plan_in(stats: Seq<NodeStat>, node: Text) -> Option<Seq<PlanNode>> {
    match stat_of(stats, node) {
        Some(s) => match s.plan {
            Some(p) => Some(p@),
            None => None,
        },
        None => None,
    }
}

/// What a run tells of `node`.
pub fn find_stat<'a>(stats: &'a Vec<NodeStat>, node: &str) -> (r: Option<&'a NodeStat>)
    ensures
        match r {
            Some(s) => stat_of(stats@, node@) == Some(*s),
            None => stat_of(stats@, node@) is None,
        },
{
    let mut i: usize = 0;
    while i < stats.len()
        invariant
            i <= stats@.len(),
            stat_of(stats@, node@) == stat_from(stats@, node@, i as nat),
        decreases stats@.len() - i,
    {
        if text_eq(stats[i].node.as_str(), node) {
            return Some(&stats[i]);
        }
        i = i + 1;
    }
    None
}

/// The plan of `node` in a run.
pub fn find_plan<'a>(stats: &'a Vec<NodeStat>, node: &str) -> (r: Option<&'a Vec<PlanNode>>)
    ensures
        match r {
            Some(p) => plan_in(stats@, node@) == Some(p@),
            None => plan_in(stats@, node@) is None,
        },
{
    match find_stat(stats, node) {
        Some(s) => match &s.plan {
            Some(p) => Some(p),
            None => None,
        },
        None => None,
    }
}

/// One View of a ranking.
#[derive(Debug)]
pub struct NodeRankingRow {
    pub rank: usize,
    pub node: String,
    /// The View's cost.
    pub total: u64,
    /// Whether the cost is a time in nanoseconds. Otherwise it is in the unit
    /// of the cost model.
    pub timed: bool,
    /// Twice the rows it makes, where that is known. Twice, so that the mean of
    /// two counts is exact.
    pub cardinality: Option<u128>,
    /// What it is ranked by, in millionths of a millionth.
    pub score: u128,
    /// The relations it reads, where regions of plans were matched by those.
    pub leaves: Vec<String>,
    /// What of which plan was matched.
    pub matched: Vec<String>,
}

/// One View of a ranking, as the specifications see it.
#[verifier::ext_equal]
pub struct RowModel {
    pub node: Text,
    pub total: u64,
    pub timed: bool,
    pub cardinality: Option<u128>,
    pub score: int,
    pub leaves: Seq<Text>,
    pub matched: Seq<Text>,
}

impl View for NodeRankingRow {
    type V = RowModel;

    open spec fn view(&self) -> RowModel {
        RowModel {
            node: self.node@,
            total: self.total,
            timed: self.timed,
            cardinality: self.cardinality,
            score: self.score as int,
            leaves: texts(self.leaves@),
            matched: texts(self.matched@),
        }
    }
}

/// The Views of a ranking, as the specifications see them.
pub open spec fn row_models(s: Seq<NodeRankingRow>) -> Seq<RowModel> {
    s.map_values(|r: NodeRankingRow| r@)
}

/// What a View is ranked by: its cost, or its cost for each row where that is
/// asked for and the rows are known, in millionths of a millionth.
pub open spec fn score_of(total: u64, cardinality: Option<u128>, normalize: bool) -> int {
    match cardinality {
        Some(c) => if normalize && c > 0 {
            total * 2000000000000 / c as int
        } else {
            total * 1000000000000
        },
        None => total * 1000000000000,
    }
}

/// What a View is ranked by.
pub fn ranking_score(total: u64, cardinality: Option<u128>, normalize: bool) -> (r: u128)
    ensures
        r == score_of(total, cardinality, normalize),
{
    match cardinality {
        Some(c) => if normalize && c > 0 {
            (total as u128 * 2000000000000) / c
        } else {
            total as u128 * 1000000000000
        },
        None => total as u128 * 1000000000000,
    }
}

/// The higher score first, and of equal scores the name that comes first.
pub open spec fn row_le() -> spec_fn(RowModel, RowModel) -> bool {
    |a: RowModel, b: RowModel| a.score > b.score || (a.score == b.score && text_le(a.node, b.node))
}

/// `rows` are the Views of `items`, ranked.
pub open spec fn ranked(rows: Seq<NodeRankingRow>, items: Seq<RowModel>) -> bool {
    &&& stably_sorted(row_models(rows), items, row_le())
    &&& forall|i: int| 0 <= i < rows.len() ==> (#[trigger] rows[i]).rank == i + 1
}

/// Ranks Views.
pub fn rank_rows(items: &Vec<NodeRankingRow>) -> (r: Vec<NodeRankingRow>)
    ensures
        ranked(r@, row_models(items@)),
        r@.len() == items@.len(),
{
    let ghost all = row_models(items@);
    let ghost le = row_le();
    proof {
        assert forall|i: int, j: int| 0 <= i < all.len() && 0 <= j < all.len() implies #[trigger] le(all[i], all[j]) || le(
            all[j],
            all[i],
        ) by {
            text_le_total(all[i].node, all[j].node);
        }
        assert forall|i: int, j: int, k: int|
            0 <= i < all.len() && 0 <= j < all.len() && 0 <= k < all.len() && #[trigger] le(all[i], all[j]) && #[trigger] le(
                all[j],
                all[k],
            ) implies le(all[i], all[k]) by {
            if all[i].score == all[j].score && all[j].score == all[k].score {
                text_le_transitive(all[i].node, all[j].node, all[k].node);
            }
        }
    }
    let before = |a: usize, b: usize| -> (r: bool)
        requires
            a < items@.len(),
            b < items@.len(),
        ensures
            r == (items@[a as int].score > items@[b as int].score || (items@[a as int].score == items@[b as int].score
                && text_le(items@[a as int].node@, items@[b as int].node@))),
        {
            items[a].score > items[b].score || (items[a].score == items[b].score && at_most(
                items[a].node.as_str(),
                items[b].node.as_str(),
            ))
        };
    proof {
        assert forall|a: usize, b: usize, r: bool|
            a < items@.len() && b < items@.len() && call_ensures(before, (a, b), r) implies r == le(
            all[a as int],
            all[b as int],
        ) by {
            assert(all[a as int] == items@[a as int]@);
            assert(all[b as int] == items@[b as int]@);
        }
    }
    let p = order_positions::<RowModel, _>(Ghost(all), Ghost(le), items.len(), before);
    let mut out: Vec<NodeRankingRow> = Vec::new();
    let mut i: usize = 0;
    while i < p.len()
        invariant
            i <= p@.len(),
            out@.len() == i,
            p@.len() == items@.len(),
            all == row_models(items@),
            stable_order(p@, all, le),
            row_models(out@) == picked(all, p@).take(i as int),
            forall|k: int| 0 <= k < i ==> (#[trigger] out@[k]).rank == k + 1,
        decreases p@.len() - i,
    {
        let ghost had = row_models(out@);
        let row = &items[p[i]];
        let copy = NodeRankingRow {
            rank: i + 1,
            node: row.node.clone(),
            total: row.total,
            timed: row.timed,
            cardinality: row.cardinality,
            score: row.score,
            leaves: copy_texts(&row.leaves),
            matched: copy_texts(&row.matched),
        };
        proof {
            assert(copy@ == items@[p@[i as int] as int]@);
        }
        out.push(copy);
        proof {
            let picks = picked(all, p@);
            assert(row_models(out@) =~= had.push(picks[i as int]));
            assert(picks.take(i + 1) =~= picks.take(i as int).push(picks[i as int]));
        }
        i = i + 1;
    }
    proof {
        let picks = picked(all, p@);
        assert(picks.take(p@.len() as int) =~= picks);
    }
    out
}

/// The View is one that materializing could save work at.
pub open spec fn rankable(listed: Seq<NodeModel>, n: NodeModel) -> bool {
    n.materialize == MaterializeMode::View && branch_point(listed, n.id)
}

/// A View ranked by its cost alone.
pub open spec fn plain_row(node: Text, total: u64, cardinality: Option<u128>, normalize: bool) -> RowModel {
    RowModel {
        node,
        total,
        timed: true,
        cardinality,
        score: score_of(total, cardinality, normalize),
        leaves: Seq::<Text>::empty(),
        matched: Seq::<Text>::empty(),
    }
}

/// A View ranked by its cost alone.
pub(crate) fn make_row(node: &str, total: u64, cardinality: Option<u128>, normalize: bool) -> (r: NodeRankingRow)
    ensures
        r@ == plain_row(node@, total, cardinality, normalize),
{
    let none: Vec<String> = Vec::new();
    let nothing: Vec<String> = Vec::new();
    proof {
        assert(texts(none@) =~= Seq::<Text>::empty());
        assert(texts(nothing@) =~= Seq::<Text>::empty());
    }
    NodeRankingRow {
        rank: 0,
        node: node.to_owned(),
        total,
        timed: true,
        cardinality,
        score: ranking_score(total, cardinality, normalize),
        leaves: none,
        matched: nothing,
    }
}

/// The rankable Views among the first `n` nodes, by their own measured times.
pub open spec fn timed_rows(listed: Seq<NodeModel>, stats: Seq<NodeStat>, n: nat) -> Seq<RowModel>
    decreases n,
{
    if n == 0 {
        Seq::<RowModel>::empty()
    } else {
        let rest = timed_rows(listed, stats, (n - 1) as nat);
        match stat_of(stats, listed[n - 1].id) {
            Some(s) => if rankable(listed, listed[n - 1]) {
                rest.push(plain_row(listed[n - 1].id, s.duration, None, false))
            } else {
                rest
            },
            None => rest,
        }
    }
}

/// The rankable Views by their own measured times: coarse, but every run has
/// them.
pub fn ranking_from_node_times(dag: &Dag, stats: &Vec<NodeStat>) -> (r: Vec<NodeRankingRow>)
    requires
        dag.wf(),
    ensures
        ranked(r@, timed_rows(dag.nodes.listed(), stats@, dag.nodes.listed().len())),
{
    let g = &dag.nodes;
    let nodes = g.nodes();
    let ghost listed = g.listed();
    let mut rows: Vec<NodeRankingRow> = Vec::new();
    let mut i: usize = 0;
    proof {
        assert(row_models(rows@) =~= timed_rows(listed, stats@, 0));
    }
    while i < nodes.len()
        invariant
            i <= nodes@.len(),
            g.wf(),
            listed == g.listed(),
            models(nodes@) == listed,
            row_models(rows@) == timed_rows(listed, stats@, i as nat),
        decreases nodes@.len() - i,
    {
        let n = &nodes[i];
        let ghost had = row_models(rows@);
        proof {
            assert(models(nodes@)[i as int] == n@);
        }
        if n.materialize == MaterializeMode::View && g.is_branch_point(n.id.as_str()) {
            if let Some(s) = find_stat(stats, n.id.as_str()) {
                let row = make_row(n.id.as_str(), s.duration, None, false);
                let ghost model = row@;
                rows.push(row);
                proof {
                    assert(row_models(rows@) =~= had.push(model));
                }
            }
        }
        i = i + 1;
    }
    rank_rows(&rows)
}

/// Folds the plans of the first `n` nodes that a run built into a model.
pub open spec fn learned_after(m: LearnedModel, listed: Seq<NodeModel>, stats: Seq<NodeStat>, n: nat) -> LearnedModel
    decreases n,
{
    if n == 0 {
        m
    } else {
        let before = learned_after(m, listed, stats, (n - 1) as nat);
        match plan_in(stats, listed[n - 1].id) {
            Some(roots) => if listed[n - 1].materialize == MaterializeMode::View {
                before
            } else {
                LearnedModel { ops: learn_all(before.ops, roots), basis: CostBasis::InputBytes, ..before }
            },
            None => before,
        }
    }
}

/// Folds what a run's executed plans tell into a model. Only the nodes that the
/// run built: a rate fitted to an estimate is fitted to nothing.
pub fn learn_from(model: &mut LearnedCostModel, dag: &Dag, stats: &Vec<NodeStat>)
    requires
        old(model).wf(),
        dag.wf(),
    ensures
        final(model).wf(),
        final(model)@ == learned_after(old(model)@, dag.nodes.listed(), stats@, dag.nodes.listed().len()),
{
    let nodes = dag.nodes.nodes();
    let ghost listed = dag.nodes.listed();
    let ghost start = model@;
    let mut i: usize = 0;
    while i < nodes.len()
        invariant
            i <= nodes@.len(),
            models(nodes@) == listed,
            model.wf(),
            model@ == learned_after(start, listed, stats@, i as nat),
        decreases nodes@.len() - i,
    {
        let n = &nodes[i];
        proof {
            assert(models(nodes@)[i as int] == n@);
        }
        if n.materialize != MaterializeMode::View {
            if let Some(roots) = find_plan(stats, n.id.as_str()) {
                model.observe(roots);
            }
        }
        i = i + 1;
    }
}

/// What writing `relation` revealed makes `after` of `m`.
pub open spec fn write_learned(
    m: LearnedModel,
    relation: Text,
    roots: Seq<PlanNode>,
    rows: u64,
    after: LearnedModel,
) -> bool {
    exists|total: OperatorSamples|
        #[trigger] is_total(m.ops, total) && after == match observed_rate(m.ops, total, roots, rows) {
            Some(rate) => LearnedModel { writes: with_write(m.writes, write_path_of(roots), relation, rate), ..m },
            None => m,
        }
}

/// What a run tells of one node, its write too, makes `after` of `m`.
pub open spec fn node_learned(m: LearnedModel, n: NodeModel, stats: Seq<NodeStat>, after: LearnedModel) -> bool {
    match (stat_of(stats, n.id), plan_in(stats, n.id)) {
        (Some(s), Some(roots)) => if n.materialize == MaterializeMode::View {
            after == m
        } else {
            let plans = LearnedModel { ops: learn_all(m.ops, roots), basis: CostBasis::InputBytes, ..m };
            match s.rows_produced {
                Some(rows) => write_learned(plans, n.id, roots, rows, after),
                None => after == plans,
            }
        },
        _ => after == m,
    }
}

/// What a run tells of its first `n` nodes, their writes too, makes `after` of
/// `m`.
pub open spec fn run_learned(
    m: LearnedModel,
    listed: Seq<NodeModel>,
    stats: Seq<NodeStat>,
    n: nat,
    after: LearnedModel,
) -> bool
    decreases n,
{
    if n == 0 {
        after == m
    } else {
        exists|mid: LearnedModel|
            #[trigger] node_learned(mid, listed[n - 1], stats, after) && run_learned(
                m,
                listed,
                stats,
                (n - 1) as nat,
                mid,
            )
    }
}

/// A run teaches one thing.
pub proof fn run_learned_once(
    m: LearnedModel,
    listed: Seq<NodeModel>,
    stats: Seq<NodeStat>,
    n: nat,
    a: LearnedModel,
    b: LearnedModel,
)
    requires
        run_learned(m, listed, stats, n, a),
        run_learned(m, listed, stats, n, b),
    ensures
        a == b,
    decreases n,
{
    if n > 0 {
        let node = listed[n - 1];
        let p = choose|mid: LearnedModel|
            #[trigger] node_learned(mid, node, stats, a) && run_learned(m, listed, stats, (n - 1) as nat, mid);
        let q = choose|mid: LearnedModel|
            #[trigger] node_learned(mid, node, stats, b) && run_learned(m, listed, stats, (n - 1) as nat, mid);
        run_learned_once(m, listed, stats, (n - 1) as nat, p, q);
        match (stat_of(stats, node.id), plan_in(stats, node.id)) {
            (Some(s), Some(roots)) => {
                if node.materialize != MaterializeMode::View && s.rows_produced is Some {
                    let plans = LearnedModel { ops: learn_all(p.ops, roots), basis: CostBasis::InputBytes, ..p };
                    let rows = s.rows_produced->0;
                    let t = choose|total: OperatorSamples|
                        #[trigger] is_total(plans.ops, total) && a == match observed_rate(plans.ops, total, roots, rows) {
                            Some(rate) => LearnedModel {
                                writes: with_write(plans.writes, write_path_of(roots), node.id, rate),
                                ..plans
                            },
                            None => plans,
                        };
                    let u = choose|total: OperatorSamples|
                        #[trigger] is_total(plans.ops, total) && b == match observed_rate(plans.ops, total, roots, rows) {
                            Some(rate) => LearnedModel {
                                writes: with_write(plans.writes, write_path_of(roots), node.id, rate),
                                ..plans
                            },
                            None => plans,
                        };
                    total_is_unique(plans.ops, t, u);
                }
            },
            _ => {},
        }
    }
}

/// Folds what a run's executed plans tell into a model, with what each write
/// cost: a write's own output is a count of what it wrote, so its bytes come
/// from the rows that the run reported.
pub fn learn_with_writes(model: &mut LearnedCostModel, dag: &Dag, stats: &Vec<NodeStat>)
    requires
        old(model).wf(),
        dag.wf(),
    ensures
        final(model).wf(),
        run_learned(old(model)@, dag.nodes.listed(), stats@, dag.nodes.listed().len(), final(model)@),
{
    let nodes = dag.nodes.nodes();
    let ghost listed = dag.nodes.listed();
    let ghost start = model@;
    let mut i: usize = 0;
    while i < nodes.len()
        invariant
            i <= nodes@.len(),
            models(nodes@) == listed,
            model.wf(),
            run_learned(start, listed, stats@, i as nat, model@),
        decreases nodes@.len() - i,
    {
        let n = &nodes[i];
        let ghost mid = model@;
        proof {
            assert(models(nodes@)[i as int] == n@);
        }
        if n.materialize != MaterializeMode::View {
            if let Some(s) = find_stat(stats, n.id.as_str()) {
                if let Some(roots) = &s.plan {
                    model.observe(roots);
                    let ghost plans = model@;
                    if let Some(rows) = s.rows_produced {
                        model.observe_write(n.id.as_str(), roots, rows);
                        proof {
                            assert(write_learned(plans, n@.id, roots@, rows, model@));
                        }
                    }
                }
            }
        }
        proof {
            assert(node_learned(mid, listed[i as int], stats@, model@));
            let k = i + 1;
            assert(listed[k - 1] == listed[i as int]);
            assert(run_learned(start, listed, stats@, (i + 1) as nat, model@));
        }
        i = i + 1;
    }
}

/// What materializing a View saves, by what one run of it costs: that, or the
/// copies beyond the first.
pub open spec fn copies_cost(once: u64, copies: nat, downstream: bool) -> u64 {
    if downstream {
        if copies <= 1 {
            0
        } else {
            cap64(once as nat * ((copies - 1) as nat))
        }
    } else {
        once
    }
}

/// Twice the rows that a plan's first root makes.
pub open spec fn first_rows(roots: Seq<PlanNode>) -> Option<u128> {
    if roots.len() == 0 {
        None
    } else {
        match rows_of(roots[0]) {
            Some(n) => Some((2 * n) as u128),
            None => None,
        }
    }
}

/// Twice the rows that a plan's first root makes.
fn plan_rows(roots: &Vec<PlanNode>) -> (r: Option<u128>)
    ensures
        r == first_rows(roots@),
{
    if roots.len() == 0 {
        return None;
    }
    match roots[0].rows() {
        Some(n) => Some(2 * (n as u128)),
        None => None,
    }
}

/// The rankable Views among the first `n` nodes that the model prices at
/// something.
pub open spec fn learned_rows(
    g: GraphModel,
    listed: Seq<NodeModel>,
    stats: Seq<NodeStat>,
    m: LearnedModel,
    total: OperatorSamples,
    downstream: bool,
    normalize: bool,
    n: nat,
) -> Seq<RowModel>
    decreases n,
{
    if n == 0 {
        Seq::<RowModel>::empty()
    } else {
        let rest = learned_rows(g, listed, stats, m, total, downstream, normalize, (n - 1) as nat);
        let v = listed[n - 1];
        if !rankable(listed, v) {
            rest
        } else {
            match plan_in(stats, v.id) {
                Some(roots) => match plan_cost(m, total, roots) {
                    Some(once) => {
                        let cost = copies_cost(once, frontier(g, v.id).len(), downstream);
                        if cost > 0 {
                            rest.push(plain_row(v.id, cost, first_rows(roots), normalize))
                        } else {
                            rest
                        }
                    },
                    None => rest,
                },
                None => rest,
            }
        }
    }
}

/// `once` for every copy but one.
fn count_copies(once: u64, copies: usize, downstream: bool) -> (r: u64)
    ensures
        r == copies_cost(once, copies as nat, downstream),
{
    if !downstream {
        return once;
    }
    if copies <= 1 {
        return 0;
    }
    let more: u64 = (copies - 1) as u64;
    proof {
        assert(once * more <= u64::MAX * u64::MAX) by (nonlinear_arith)
            requires
                once <= u64::MAX,
                more <= u64::MAX,
        ;
        assert(u64::MAX * u64::MAX <= u128::MAX) by (nonlinear_arith);
    }
    let x: u128 = once as u128 * more as u128;
    if x <= u64::MAX as u128 {
        x as u64
    } else {
        u64::MAX
    }
}

/// The rankable Views by what a learned model prices their own plans at. None
/// where the model knows nothing or prices no View: that is not a ranking.
pub fn ranking_learned(
    dag: &Dag,
    stats: &Vec<NodeStat>,
    model: &LearnedCostModel,
    downstream: bool,
    normalize: bool,
) -> (r: Option<Vec<NodeRankingRow>>)
    requires
        dag.wf(),
        model.wf(),
    ensures
        exists|total: OperatorSamples|
            #[trigger] is_total(model@.ops, total) && ({
                let rows = learned_rows(
                    dag.nodes@,
                    dag.nodes.listed(),
                    stats@,
                    model@,
                    total,
                    downstream,
                    normalize,
                    dag.nodes.listed().len(),
                );
                match r {
                    Some(out) => !is_blank(model@) && rows.len() > 0 && ranked(out@, rows),
                    None => is_blank(model@) || rows.len() == 0,
                }
            }),
{
    let none: Vec<PlanNode> = Vec::new();
    let probe = model.cost(&none);
    let ghost total = choose|total: OperatorSamples|
        #[trigger] is_total(model@.ops, total) && probe == plan_cost(model@, total, none@);
    if model.is_empty() {
        return None;
    }
    let g = &dag.nodes;
    let nodes = g.nodes();
    let ghost listed = g.listed();
    let mut rows: Vec<NodeRankingRow> = Vec::new();
    let mut i: usize = 0;
    proof {
        assert(row_models(rows@) =~= learned_rows(g@, listed, stats@, model@, total, downstream, normalize, 0));
    }
    while i < nodes.len()
        invariant
            i <= nodes@.len(),
            g.wf(),
            model.wf(),
            listed == g.listed(),
            models(nodes@) == listed,
            is_total(model@.ops, total),
            row_models(rows@) == learned_rows(g@, listed, stats@, model@, total, downstream, normalize, i as nat),
        decreases nodes@.len() - i,
    {
        let n = &nodes[i];
        let ghost had = row_models(rows@);
        proof {
            assert(models(nodes@)[i as int] == n@);
        }
        if n.materialize == MaterializeMode::View && g.is_branch_point(n.id.as_str()) {
            if let Some(roots) = find_plan(stats, n.id.as_str()) {
                let priced = model.cost(roots);
                proof {
                    let t = choose|t: OperatorSamples|
                        #[trigger] is_total(model@.ops, t) && priced == plan_cost(model@, t, roots@);
                    total_is_unique(model@.ops, t, total);
                }
                if let Some(once) = priced {
                    let reached = g.frontier_materializes(n.id.as_str());
                    proof {
                        texts(reached@).unique_seq_to_set();
                    }
                    let cost = count_copies(once, reached.len(), downstream);
                    if cost > 0 {
                        let row = make_row(n.id.as_str(), cost, plan_rows(roots), normalize);
                        let ghost model_row = row@;
                        rows.push(row);
                        proof {
                            assert(row_models(rows@) =~= had.push(model_row));
                        }
                    }
                }
            }
        }
        i = i + 1;
    }
    proof {
        assert(row_models(rows@).len() == rows@.len());
    }
    if rows.len() == 0 {
        return None;
    }
    Some(rank_rows(&rows))
}

/// The rankable Views among the first `n` nodes.
pub open spec fn rankable_ids(listed: Seq<NodeModel>, n: nat) -> Seq<Text>
    decreases n,
{
    if n == 0 {
        Seq::<Text>::empty()
    } else if rankable(listed, listed[n - 1]) {
        rankable_ids(listed, (n - 1) as nat).push(listed[n - 1].id)
    } else {
        rankable_ids(listed, (n - 1) as nat)
    }
}

/// The rankable Views of a graph: those whose duplication is worth asking the
/// engine about.
pub fn rankable_views(g: &Graph) -> (r: Vec<String>)
    requires
        g.wf(),
    ensures
        texts(r@) == rankable_ids(g.listed(), g.listed().len()),
{
    let nodes = g.nodes();
    let ghost listed = g.listed();
    let mut out: Vec<String> = Vec::new();
    let mut i: usize = 0;
    proof {
        assert(texts(out@) =~= rankable_ids(listed, 0));
    }
    while i < nodes.len()
        invariant
            i <= nodes@.len(),
            g.wf(),
            listed == g.listed(),
            models(nodes@) == listed,
            texts(out@) == rankable_ids(listed, i as nat),
        decreases nodes@.len() - i,
    {
        let ghost had = texts(out@);
        proof {
            assert(models(nodes@)[i as int] == nodes@[i as int]@);
        }
        if nodes[i].materialize == MaterializeMode::View && g.is_branch_point(nodes[i].id.as_str()) {
            out.push(nodes[i].id.clone());
            proof {
                assert(texts(out@) =~= had.push(listed[i as int].id));
            }
        }
        i = i + 1;
    }
    out
}

/// What each consumer spends, in words.
pub open spec fn spent_texts(costs: Seq<ConsumerCost>, timed: bool) -> Seq<Text> {
    costs.map_values(|c: ConsumerCost| c.consumer@ + " ("@ + cost_text(c.cost, timed) + ")"@)
}

/// A View ranked by what it duplicates.
pub open spec fn dup_row(
    node: Text,
    d: DuplicateCost,
    timed: bool,
    cardinality: Option<u128>,
    normalize: bool,
) -> RowModel {
    RowModel {
        node,
        total: d.duplicate as u64,
        timed,
        cardinality,
        score: score_of(d.duplicate as u64, cardinality, normalize),
        leaves: Seq::<Text>::empty(),
        matched: spent_texts(d.per_consumer@, timed),
    }
}

/// Twice the rows that a node's plan makes, where the run has one.
pub open spec fn rows_in_run(stats: Seq<NodeStat>, node: Text) -> Option<u128> {
    match plan_in(stats, node) {
        Some(roots) => first_rows(roots),
        None => None,
    }
}

/// Those of the first `n` Views that duplicate something.
pub open spec fn dup_rows(
    ids: Seq<Text>,
    measured: Seq<Option<DuplicateCost>>,
    timed: bool,
    stats: Seq<NodeStat>,
    normalize: bool,
    n: nat,
) -> Seq<RowModel>
    decreases n,
{
    if n == 0 {
        Seq::<RowModel>::empty()
    } else {
        let rest = dup_rows(ids, measured, timed, stats, normalize, (n - 1) as nat);
        match measured[n - 1] {
            Some(d) => if d.duplicate > 0 {
                rest.push(dup_row(ids[n - 1], d, timed, rows_in_run(stats, ids[n - 1]), normalize))
            } else {
                rest
            },
            None => rest,
        }
    }
}

/// What each consumer spends, in words.
fn describe_spent(costs: &Vec<ConsumerCost>, timed: bool) -> (r: Vec<String>)
    ensures
        texts(r@) == spent_texts(costs@, timed),
{
    let mut out: Vec<String> = Vec::new();
    let mut i: usize = 0;
    while i < costs.len()
        invariant
            i <= costs@.len(),
            out@.len() == i,
            forall|k: int| 0 <= k < i ==> (#[trigger] out@[k])@ == spent_texts(costs@, timed)[k],
        decreases costs@.len() - i,
    {
        let mut s = costs[i].consumer.clone();
        s.append(" (");
        s.append(show_cost(costs[i].cost, timed).as_str());
        s.append(")");
        out.push(s);
        i = i + 1;
    }
    proof {
        assert(texts(out@) =~= spent_texts(costs@, timed));
    }
    out
}

/// Views by what each was measured to duplicate. One that duplicates nothing is
/// left out. None where not one could be measured: that is not an answer,
/// while an empty ranking is. `timed` says whether the costs are times.
pub fn ranking_dup(
    ids: &Vec<String>,
    measured: &Vec<Option<DuplicateCost>>,
    timed: bool,
    stats: &Vec<NodeStat>,
    normalize: bool,
) -> (r: Option<Vec<NodeRankingRow>>)
    requires
        ids@.len() == measured@.len(),
    ensures
        match r {
            Some(out) => (exists|i: int| 0 <= i < measured@.len() && (#[trigger] measured@[i]) is Some) && ranked(
                out@,
                dup_rows(texts(ids@), measured@, timed, stats@, normalize, ids@.len()),
            ),
            None => forall|i: int| 0 <= i < measured@.len() ==> (#[trigger] measured@[i]) is None,
        },
{
    let ghost names = texts(ids@);
    let mut rows: Vec<NodeRankingRow> = Vec::new();
    let mut any = false;
    let mut i: usize = 0;
    proof {
        assert(row_models(rows@) =~= dup_rows(names, measured@, timed, stats@, normalize, 0));
    }
    while i < ids.len()
        invariant
            i <= ids@.len() == measured@.len(),
            names == texts(ids@),
            any == exists|k: int| 0 <= k < i && (#[trigger] measured@[k]) is Some,
            row_models(rows@) == dup_rows(names, measured@, timed, stats@, normalize, i as nat),
        decreases ids@.len() - i,
    {
        let ghost had = row_models(rows@);
        proof {
            assert(names[i as int] == ids@[i as int]@);
        }
        if let Some(d) = &measured[i] {
            proof {
                assert(measured@[i as int] is Some);
            }
            any = true;
            if d.duplicate > 0 {
                let cardinality = match find_plan(stats, ids[i].as_str()) {
                    Some(roots) => plan_rows(roots),
                    None => None,
                };
                let none: Vec<String> = Vec::new();
                proof {
                    assert(texts(none@) =~= Seq::<Text>::empty());
                }
                let total: u64 = d.duplicate as u64;
                let row = NodeRankingRow {
                    rank: 0,
                    node: ids[i].clone(),
                    total,
                    timed,
                    cardinality,
                    score: ranking_score(total, cardinality, normalize),
                    leaves: none,
                    matched: describe_spent(&d.per_consumer, timed),
                };
                let ghost model = row@;
                rows.push(row);
                proof {
                    assert(row_models(rows@) =~= had.push(model));
                    assert(model == dup_row(names[i as int], *d, timed, rows_in_run(stats@, names[i as int]), normalize));
                }
            }
        }
        i = i + 1;
    }
    if !any {
        return None;
    }
    Some(rank_rows(&rows))
}

/// A score as a cost.
pub open spec fn as_cost(score: u128) -> i128 {
    within(score as int)
}

/// A ranking as costs by node.
pub fn scores_of(rows: &Vec<NodeRankingRow>) -> (r: Vec<SingletonCost>)
    ensures
        r@.len() == rows@.len(),
        forall|i: int| 0 <= i < r@.len() ==> (#[trigger] r@[i]).node@ == rows@[i].node@ && r@[i].cost == as_cost(rows@[i].score),
{
    let mut out: Vec<SingletonCost> = Vec::new();
    let mut i: usize = 0;
    while i < rows.len()
        invariant
            i <= rows@.len(),
            out@.len() == i,
            forall|k: int|
                0 <= k < i ==> (#[trigger] out@[k]).node@ == rows@[k].node@ && out@[k].cost == as_cost(rows@[k].score),
        decreases rows@.len() - i,
    {
        let score: u128 = rows[i].score;
        let cost: i128 = if score <= i128::MAX as u128 {
            score as i128
        } else {
            i128::MAX
        };
        out.push(SingletonCost { node: rows[i].node.clone(), cost });
        i = i + 1;
    }
    out
}

/// A score is the cost, or the cost for each row: in millionths of a millionth,
/// rounded down. `cardinality` is twice the rows.
pub proof fn a_score_is_cost_for_each_row(total: u64, cardinality: u128)
    ensures
        score_of(total, None, true) == total * 1000000000000,
        score_of(total, Some(cardinality), false) == total * 1000000000000,
        score_of(total, Some(0u128), true) == total * 1000000000000,
        cardinality > 0 ==> score_of(total, Some(cardinality), true) * cardinality <= total * 2000000000000 < (score_of(
            total,
            Some(cardinality),
            true,
        ) + 1) * cardinality,
{
    if cardinality > 0 {
        let x = total * 2000000000000;
        let c = cardinality as int;
        assert(x / c * c <= x < (x / c + 1) * c) by (nonlinear_arith)
            requires
                c > 0,
        ;
    }
}

/// A ranking has the dearest View first and every View once, numbered from one.
pub proof fn a_ranking_has_the_dearest_first(rows: Seq<NodeRankingRow>, items: Seq<RowModel>, i: int, j: int)
    requires
        ranked(rows, items),
        items.len() <= usize::MAX,
        0 <= i < j < rows.len(),
    ensures
        rows.len() == items.len(),
        rows[i].score >= rows[j].score,
        rows[i].score == rows[j].score ==> text_le(rows[i].node@, rows[j].node@),
        rows[i].rank < rows[j].rank,
        rows[0].rank == 1,
        row_models(rows).to_set() == items.to_set(),
{
    let le = row_le();
    let out = row_models(rows);
    crate::order::sorted_keeps_members(out, items, le);
    let p = choose|p: Seq<usize>| #[trigger] stable_order(p, items, le) && out == picked(items, p);
    assert(le(items[p[i] as int], items[p[j] as int]));
    assert(out[i] == items[p[i] as int]);
    assert(out[j] == items[p[j] as int]);
    assert(rows[0].rank == 1);
}

/// Downstream a View is charged all of its copies but one: with that one they
/// come to every copy. Otherwise it is charged one.
pub proof fn all_copies_but_one_are_charged(once: u64, copies: nat)
    requires
        copies > 0,
        once * copies <= u64::MAX,
    ensures
        copies_cost(once, copies, true) + once == once * copies,
        copies_cost(once, copies, false) == once,
        copies_cost(once, 0, true) == 0,
{
    assert(once * (copies - 1) + once == once * copies) by (nonlinear_arith);
    assert(once as nat * ((copies - 1) as nat) == once * (copies - 1));
    if copies == 1 {
        assert(once * 1 == once);
    }
}

/// What a run tells of a node is what its first entry says.
pub proof fn the_first_stat_counts(stats: Seq<NodeStat>, node: Text, i: int)
    requires
        0 <= i < stats.len(),
        stats[i].node@ == node,
        forall|j: int| 0 <= j < i ==> (#[trigger] stats[j]).node@ != node,
    ensures
        stat_of(stats, node) == Some(stats[i]),
{
    first_stat(stats, node, 0, i);
}

proof fn first_stat(stats: Seq<NodeStat>, node: Text, from: nat, i: int)
    requires
        from <= i < stats.len(),
        stats[i].node@ == node,
        forall|j: int| from <= j < i ==> (#[trigger] stats[j]).node@ != node,
    ensures
        stat_from(stats, node, from) == Some(stats[i]),
    decreases stats.len() - from,
{
    if from < i {
        assert(stats[from as int].node@ != node);
        first_stat(stats, node, from + 1, i);
    }
}

/// `rows` holds a row with this node and total.
pub open spec fn has_row(rows: Seq<RowModel>, node: Text, total: u64) -> bool {
    exists|k: int| 0 <= k < rows.len() && (#[trigger] rows[k]).node == node && rows[k].total == total
}

proof fn pushed_row(rows: Seq<RowModel>, row: RowModel, node: Text, total: u64)
    ensures
        has_row(rows.push(row), node, total) == (has_row(rows, node, total) || (row.node == node && row.total == total)),
{
    let more = rows.push(row);
    if has_row(rows, node, total) {
        let k = choose|k: int| 0 <= k < rows.len() && (#[trigger] rows[k]).node == node && rows[k].total == total;
        assert(more[k].node == node && more[k].total == total);
    }
    if row.node == node && row.total == total {
        assert(more[rows.len() as int].node == node && more[rows.len() as int].total == total);
    }
    if has_row(more, node, total) {
        let k = choose|k: int| 0 <= k < more.len() && (#[trigger] more[k]).node == node && more[k].total == total;
        if k < rows.len() {
            assert(rows[k].node == node && rows[k].total == total);
        }
    }
}

/// By node times every rankable View that was measured is ranked at what it
/// took, and nothing else is.
pub proof fn every_measured_view_is_timed(listed: Seq<NodeModel>, stats: Seq<NodeStat>, n: nat, node: Text, total: u64)
    requires
        n <= listed.len(),
    ensures
        has_row(timed_rows(listed, stats, n), node, total) <==> exists|i: int|
            0 <= i < n && rankable(listed, #[trigger] listed[i]) && listed[i].id == node && stat_of(stats, node) is Some
                && stat_of(stats, node)->0.duration == total,
    decreases n,
{
    if n > 0 {
        every_measured_view_is_timed(listed, stats, (n - 1) as nat, node, total);
        let rest = timed_rows(listed, stats, (n - 1) as nat);
        let v = listed[n - 1];
        if stat_of(stats, v.id) is Some && rankable(listed, v) {
            pushed_row(rest, plain_row(v.id, stat_of(stats, v.id)->0.duration, None, false), node, total);
        }
        if has_row(rest, node, total) {
            let i = choose|i: int|
                0 <= i < n - 1 && rankable(listed, #[trigger] listed[i]) && listed[i].id == node && stat_of(stats, node) is Some
                    && stat_of(stats, node)->0.duration == total;
            assert(0 <= i < n && rankable(listed, listed[i]));
        }
        if v.id == node && stat_of(stats, v.id) is Some && rankable(listed, v) && stat_of(stats, node)->0.duration == total {
            assert(0 <= n - 1 < n && rankable(listed, listed[n - 1]));
        }
        if exists|i: int|
            0 <= i < n && rankable(listed, #[trigger] listed[i]) && listed[i].id == node && stat_of(stats, node) is Some
                && stat_of(stats, node)->0.duration == total {
            let i = choose|i: int|
                0 <= i < n && rankable(listed, #[trigger] listed[i]) && listed[i].id == node && stat_of(stats, node) is Some
                    && stat_of(stats, node)->0.duration == total;
            if i < n - 1 {
                assert(0 <= i < n - 1 && rankable(listed, listed[i]));
            }
        }
    }
}

/// By learned rates every rankable View that has a plan with a price is ranked
/// at what its copies cost.
pub proof fn every_priced_view_is_ranked(
    g: GraphModel,
    listed: Seq<NodeModel>,
    stats: Seq<NodeStat>,
    m: LearnedModel,
    total: OperatorSamples,
    downstream: bool,
    normalize: bool,
    n: nat,
    i: int,
    once: u64,
)
    requires
        0 <= i < n <= listed.len(),
        rankable(listed, listed[i]),
        plan_in(stats, listed[i].id) is Some,
        plan_cost(m, total, plan_in(stats, listed[i].id)->0) == Some(once),
        copies_cost(once, frontier(g, listed[i].id).len(), downstream) > 0,
    ensures
        has_row(
            learned_rows(g, listed, stats, m, total, downstream, normalize, n),
            listed[i].id,
            copies_cost(once, frontier(g, listed[i].id).len(), downstream),
        ),
    decreases n,
{
    let cost = copies_cost(once, frontier(g, listed[i].id).len(), downstream);
    let rest = learned_rows(g, listed, stats, m, total, downstream, normalize, (n - 1) as nat);
    let v = listed[n - 1];
    if i < n - 1 {
        every_priced_view_is_ranked(g, listed, stats, m, total, downstream, normalize, (n - 1) as nat, i, once);
    }
    if rankable(listed, v) && plan_in(stats, v.id) is Some {
        let roots = plan_in(stats, v.id)->0;
        if plan_cost(m, total, roots) is Some {
            let own = copies_cost(plan_cost(m, total, roots)->0, frontier(g, v.id).len(), downstream);
            if own > 0 {
                pushed_row(rest, plain_row(v.id, own, first_rows(roots), normalize), listed[i].id, cost);
            }
        }
    }
}

/// By duplicates every View that was measured to duplicate something is ranked
/// at just that, and no other is.
pub proof fn every_duplicate_is_ranked(
    ids: Seq<Text>,
    measured: Seq<Option<DuplicateCost>>,
    timed: bool,
    stats: Seq<NodeStat>,
    normalize: bool,
    n: nat,
    node: Text,
    total: u64,
)
    requires
        n <= ids.len(),
        n <= measured.len(),
    ensures
        has_row(dup_rows(ids, measured, timed, stats, normalize, n), node, total) <==> exists|i: int|
            0 <= i < n && #[trigger] ids[i] == node && measured[i] is Some && measured[i]->0.duplicate > 0
                && measured[i]->0.duplicate == total,
    decreases n,
{
    if n > 0 {
        every_duplicate_is_ranked(ids, measured, timed, stats, normalize, (n - 1) as nat, node, total);
        let rest = dup_rows(ids, measured, timed, stats, normalize, (n - 1) as nat);
        let last = measured[n - 1];
        if last is Some && last->0.duplicate > 0 {
            pushed_row(
                rest,
                dup_row(ids[n - 1], last->0, timed, rows_in_run(stats, ids[n - 1]), normalize),
                node,
                total,
            );
            if ids[n - 1] == node && last->0.duplicate == total {
                assert(0 <= n - 1 < n && ids[n - 1] == node);
            }
        }
        if has_row(rest, node, total) {
            let i = choose|i: int|
                0 <= i < n - 1 && #[trigger] ids[i] == node && measured[i] is Some && measured[i]->0.duplicate > 0
                    && measured[i]->0.duplicate == total;
            assert(0 <= i < n && ids[i] == node);
        }
        if exists|i: int|
            0 <= i < n && #[trigger] ids[i] == node && measured[i] is Some && measured[i]->0.duplicate > 0
                && measured[i]->0.duplicate == total {
            let i = choose|i: int|
                0 <= i < n && #[trigger] ids[i] == node && measured[i] is Some && measured[i]->0.duplicate > 0
                    && measured[i]->0.duplicate == total;
            if i < n - 1 {
                assert(0 <= i < n - 1 && ids[i] == node);
            }
        }
    }
}

/// Every plan of a run is learned from: a node that is built adds its plan to
/// what the nodes before it taught, a View adds nothing.
pub proof fn every_built_node_teaches(m: LearnedModel, listed: Seq<NodeModel>, stats: Seq<NodeStat>, n: nat, roots: Seq<PlanNode>)
    requires
        0 < n <= listed.len(),
    ensures
        listed[n - 1].materialize == MaterializeMode::View ==> learned_after(m, listed, stats, n) == learned_after(
            m,
            listed,
            stats,
            (n - 1) as nat,
        ),
        listed[n - 1].materialize != MaterializeMode::View && plan_in(stats, listed[n - 1].id) == Some(roots) ==> learned_after(
            m,
            listed,
            stats,
            n,
        ).ops == learn_all(learned_after(m, listed, stats, (n - 1) as nat).ops, roots),
        learned_after(m, listed, stats, n).writes == m.writes,
        learned_after(m, listed, stats, 0) == m,
    decreases n,
{
    if n > 1 {
        every_built_node_teaches(m, listed, stats, (n - 1) as nat, roots);
    }
}

/// The Views to measure are the rankable ones, all of them.
pub proof fn every_rankable_view_is_measured(listed: Seq<NodeModel>, n: nat, id: Text)
    requires
        n <= listed.len(),
    ensures
        rankable_ids(listed, n).contains(id) <==> exists|i: int|
            0 <= i < n && (#[trigger] listed[i]).id == id && rankable(listed, listed[i]),
    decreases n,
{
    if n > 0 {
        every_rankable_view_is_measured(listed, (n - 1) as nat, id);
        let rest = rankable_ids(listed, (n - 1) as nat);
        let all = rankable_ids(listed, n);
        if rest.contains(id) {
            let k = choose|k: int| 0 <= k < rest.len() && rest[k] == id;
            assert(all[k] == id);
        }
        if rankable(listed, listed[n - 1]) && listed[n - 1].id == id {
            assert(all[rest.len() as int] == id);
        }
        if all.contains(id) {
            let k = choose|k: int| 0 <= k < all.len() && all[k] == id;
            if k < rest.len() {
                assert(rest[k] == id);
                let i = choose|i: int| 0 <= i < n - 1 && (#[trigger] listed[i]).id == id && rankable(listed, listed[i]);
                assert(0 <= i < n && listed[i].id == id);
            } else {
                assert(listed[n - 1].id == id);
            }
        }
        if exists|i: int| 0 <= i < n && (#[trigger] listed[i]).id == id && rankable(listed, listed[i]) {
            let i = choose|i: int| 0 <= i < n && (#[trigger] listed[i]).id == id && rankable(listed, listed[i]);
            if i < n - 1 {
                assert(0 <= i < n - 1 && listed[i].id == id);
            }
        }
    }
}

/// A node that a run built teaches what its operators took, whether or not it
/// tells how many rows were written; how its write went is learned only where
/// it does. A View, and a node without a plan, teaches nothing.
pub proof fn a_built_node_teaches_its_operators(
    m: LearnedModel,
    n: NodeModel,
    stats: Seq<NodeStat>,
    after: LearnedModel,
    roots: Seq<PlanNode>,
)
    requires
        node_learned(m, n, stats, after),
    ensures
        n.materialize == MaterializeMode::View ==> after == m,
        plan_in(stats, n.id) is None ==> after == m,
        n.materialize != MaterializeMode::View && plan_in(stats, n.id) == Some(roots) && stat_of(stats, n.id) is Some
            ==> after.ops == learn_all(m.ops, roots) && after.basis == CostBasis::InputBytes,
        stat_of(stats, n.id) is Some && stat_of(stats, n.id)->0.rows_produced is None ==> after.writes == m.writes,
        after.writes != m.writes ==> exists|path: Text, relation: Text, rate: u64|
            after.writes == #[trigger] with_write(m.writes, path, relation, rate) && relation == n.id,
{
    if stat_of(stats, n.id) is Some && plan_in(stats, n.id) is Some && n.materialize != MaterializeMode::View {
        let r = plan_in(stats, n.id)->0;
        let plans = LearnedModel { ops: learn_all(m.ops, r), basis: CostBasis::InputBytes, ..m };
        match stat_of(stats, n.id)->0.rows_produced {
            Some(rows) => {
                let total = choose|total: OperatorSamples|
                    #[trigger] is_total(plans.ops, total) && after == match observed_rate(plans.ops, total, r, rows) {
                        Some(rate) => LearnedModel {
                            writes: with_write(plans.writes, write_path_of(r), n.id, rate),
                            ..plans
                        },
                        None => plans,
                    };
                if let Some(rate) = observed_rate(plans.ops, total, r, rows) {
                    assert(after.writes == with_write(m.writes, write_path_of(r), n.id, rate));
                }
            },
            None => {},
        }
    }
}

} // verus!
