//! What it costs to materialize a set of the expressions of a `WITH` chain.
//!
//! A materialized expression is a barrier: it is computed and spooled once, and
//! its readers wait for it. A plain one is pipelined into each reader. So
//! materializing removes repeated work and adds waiting, and the two are
//! priced apart.

use vstd::prelude::*;

use crate::combo::Scored;
use crate::dag::{with_text, without_text, Dag, Graph, GraphModel, MaterializeMode, NodeModel, TransformNode};
use crate::dup::{spool_priced, SubtreeCost};
use crate::fusion::{chain_ids, CtePlan};
use crate::makespan::{charged, cost_from, cost_in, critical_monotone, critical_path, critical_time, buildable, critical, stage_count, stages, weight, NodeCost};
use crate::order::{list_of, listing, listing_unique};
use crate::plan::{add_capped, cap64, find_subplan, rows_of, subplan_in, PlanNode};
use crate::search::clamped;
use crate::table::TextMap;
use crate::text::{contains_text, copy_texts, texts, Text};
use crate::walk::reads;

verus! {

/// What one expression costs on its own.
#[derive(Debug, Clone, Copy)]
pub struct CteProfile {
    /// Computing it once.
    pub compute: u64,
    /// Spooling it; none where the model does not know, which is not free.
    pub spool: Option<u64>,
}

/// `s` with `t` in it where it was not, and without it where it was.
pub open spec fn toggled(s: Set<Text>, t: Text) -> Set<Text> {
    if s.contains(t) {
        s.remove(t)
    } else {
        s.insert(t)
    }
}

/// `s` after the first `n` of `flips`.
pub open spec fn flipped(s: Set<Text>, flips: Seq<Text>, n: nat) -> Set<Text>
    decreases n,
{
    if n == 0 {
        s
    } else {
        toggled(flipped(s, flips, (n - 1) as nat), flips[n - 1])
    }
}

/// `t` stands an odd number of times among the first `n` of `flips`.
pub open spec fn odd_times(flips: Seq<Text>, t: Text, n: nat) -> bool
    decreases n,
{
    n > 0 && (odd_times(flips, t, (n - 1) as nat) != (flips[n - 1] == t))
}

/// A member is flipped by each time that it is named.
pub proof fn flip_changes_what_is_named(s: Set<Text>, flips: Seq<Text>, n: nat, t: Text)
    ensures
        flipped(s, flips, n).contains(t) == (s.contains(t) != odd_times(flips, t, n)),
    decreases n,
{
    if n > 0 {
        flip_changes_what_is_named(s, flips, (n - 1) as nat, t);
    }
}

/// Flipping twice changes nothing.
pub proof fn flipping_twice_is_nothing(s: Set<Text>, flips: Seq<Text>)
    ensures
        flipped(flipped(s, flips, flips.len()), flips, flips.len()) == s,
{
    let once = flipped(s, flips, flips.len());
    let twice = flipped(once, flips, flips.len());
    assert forall|t: Text| twice.contains(t) == s.contains(t) by {
        flip_changes_what_is_named(s, flips, flips.len(), t);
        flip_changes_what_is_named(once, flips, flips.len(), t);
    }
    assert(twice =~= s);
}

/// The set that flipping `flips` in `default_set` reaches. No flips reach
/// `default_set` itself.
pub fn flip(default_set: &Vec<String>, flips: &Vec<String>) -> (r: Vec<String>)
    ensures
        listing(texts(r@), flipped(texts(default_set@).to_set(), texts(flips@), flips@.len())),
{
    let ghost start = texts(default_set@).to_set();
    let ghost names = texts(flips@);
    let mut out = copy_texts(default_set);
    let mut i: usize = 0;
    while i < flips.len()
        invariant
            i <= flips@.len(),
            names == texts(flips@),
            texts(out@).to_set() == flipped(start, names, i as nat),
        decreases flips@.len() - i,
    {
        proof {
            assert(names[i as int] == flips@[i as int]@);
            assert(texts(out@).contains(names[i as int]) == texts(out@).to_set().contains(names[i as int]));
        }
        if contains_text(&out, flips[i].as_str()) {
            out = without_text(&out, flips[i].as_str());
        } else {
            out = with_text(&out, flips[i].as_str());
        }
        i = i + 1;
    }
    list_of(&out)
}

/// The node that stands for an expression.
pub open spec fn chain_node(c: CtePlan) -> NodeModel {
    NodeModel {
        id: c.node_id@,
        query_text: Seq::<char>::empty(),
        materialize: MaterializeMode::View,
        depends_on: texts(c.reads@).to_set(),
        schema: None,
    }
}

/// The first `n` expressions of a chain, as a graph.
pub open spec fn chain_graph(chain: Seq<CtePlan>, n: nat) -> GraphModel
    decreases n,
{
    if n == 0 {
        Map::<Text, NodeModel>::empty()
    } else {
        chain_graph(chain, (n - 1) as nat).insert(chain[n - 1].node_id@, chain_node(chain[n - 1]))
    }
}

/// A chain as a graph, so that one longest-path walk serves both.
pub fn chain_as_dag(chain: &Vec<CtePlan>) -> (r: Dag)
    ensures
        r.wf(),
        r.nodes@ == chain_graph(chain@, chain@.len()),
{
    let mut nodes = Graph::new();
    let mut i: usize = 0;
    while i < chain.len()
        invariant
            i <= chain@.len(),
            nodes.wf(),
            nodes@ == chain_graph(chain@, i as nat),
        decreases chain@.len() - i,
    {
        let node = TransformNode {
            id: chain[i].node_id.clone(),
            query_text: String::new(),
            materialize: MaterializeMode::View,
            depends_on: copy_texts(&chain[i].reads),
            schema: None,
        };
        proof {
            assert(node@ =~= chain_node(chain@[i as int]));
        }
        nodes.add_node_unchecked(node);
        i = i + 1;
    }
    Dag { db: "duckdb".to_owned(), nodes, sources: Vec::new(), max_parallelism: None }
}

/// What is known of the expressions.
pub type Profiles = Map<Text, CteProfile>;

/// The waiting that `id` adds with `set` materialized.
pub open spec fn barrier_cost(profiles: Profiles, set: Set<Text>, id: Text) -> u64 {
    if set.contains(id) {
        cap64((profiles[id].compute + profiles[id].spool->0) as nat)
    } else {
        0
    }
}

/// The waiting that each expression of a chain adds.
pub open spec fn barriers(chain: Seq<CtePlan>, profiles: Profiles, set: Set<Text>) -> spec_fn(Text) -> nat {
    |id: Text|
        if chain_ids(chain).contains(id) {
            barrier_cost(profiles, set, id) as nat
        } else {
            0
        }
}

/// The waiting that `id` adds is not known.
pub open spec fn unpriced(profiles: Profiles, set: Set<Text>, id: Text) -> bool {
    !profiles.contains_key(id) || (set.contains(id) && profiles[id].spool is None)
}

proof fn weights_are_barriers(
    costs: Seq<NodeCost>,
    chain: Seq<CtePlan>,
    profiles: Profiles,
    set: Set<Text>,
    node: Text,
    from: nat,
)
    requires
        from <= costs.len() == chain.len(),
        forall|k: int|
            0 <= k < costs.len() ==> (#[trigger] costs[k]).node@ == chain[k].node_id@ && costs[k].cost == barrier_cost(
                profiles,
                set,
                chain[k].node_id@,
            ),
    ensures
        match cost_from(costs, node, from) {
            Some(c) => c == barrier_cost(profiles, set, node) && exists|k: int|
                from <= k < chain.len() && (#[trigger] chain[k]).node_id@ == node,
            None => forall|k: int| from <= k < chain.len() ==> (#[trigger] chain[k]).node_id@ != node,
        },
    decreases costs.len() - from,
{
    if from < costs.len() {
        weights_are_barriers(costs, chain, profiles, set, node, from + 1);
        assert(costs[from as int].node@ == chain[from as int].node_id@);
        if chain[from as int].node_id@ != node && cost_from(costs, node, from) is Some {
            let k = choose|k: int| from + 1 <= k < chain.len() && (#[trigger] chain[k]).node_id@ == node;
            assert(from <= k < chain.len() && chain[k].node_id@ == node);
        }
    }
}

/// Barriers only ever add waiting: materializing more never shortens the
/// longest chain of them.
pub proof fn barriers_only_add(
    chain: Seq<CtePlan>,
    profiles: Profiles,
    small: Set<Text>,
    large: Set<Text>,
    a: nat,
    b: nat,
)
    requires
        small.subset_of(large),
        critical_time(chain_graph(chain, chain.len()), barriers(chain, profiles, small), a),
        critical_time(chain_graph(chain, chain.len()), barriers(chain, profiles, large), b),
    ensures
        a <= b,
{
    let low = barriers(chain, profiles, small);
    let high = barriers(chain, profiles, large);
    assert forall|t: Text| #[trigger] low(t) <= high(t) by {}
    critical_monotone(chain_graph(chain, chain.len()), low, high, a, b);
}

/// The longest chain of barriers with `set` materialized. None where the
/// waiting of some expression is not known, which is not a wait of zero.
pub fn barrier_chain(chain: &Vec<CtePlan>, profiles: &TextMap<CteProfile>, set: &Vec<String>) -> (r: Option<u128>)
    requires
        profiles.wf(),
    ensures
        match r {
            Some(t) => (forall|i: int|
                0 <= i < chain@.len() ==> !unpriced(profiles@, texts(set@).to_set(), (#[trigger] chain@[i]).node_id@))
                && critical_time(
                chain_graph(chain@, chain@.len()),
                barriers(chain@, profiles@, texts(set@).to_set()),
                t as nat,
            ),
            None => exists|i: int|
                0 <= i < chain@.len() && unpriced(profiles@, texts(set@).to_set(), (#[trigger] chain@[i]).node_id@),
        },
{
    let ghost members = texts(set@).to_set();
    let mut costs: Vec<NodeCost> = Vec::new();
    let mut i: usize = 0;
    while i < chain.len()
        invariant
            i <= chain@.len(),
            profiles.wf(),
            members == texts(set@).to_set(),
            costs@.len() == i,
            forall|k: int|
                0 <= k < i ==> (#[trigger] costs@[k]).node@ == chain@[k].node_id@ && costs@[k].cost == barrier_cost(
                    profiles@,
                    members,
                    chain@[k].node_id@,
                ),
            forall|k: int| 0 <= k < i ==> !unpriced(profiles@, members, (#[trigger] chain@[k]).node_id@),
        decreases chain@.len() - i,
    {
        let id = chain[i].node_id.as_str();
        let profile = match profiles.get(id) {
            Some(p) => *p,
            None => {
                proof {
                    assert(unpriced(profiles@, members, chain@[i as int].node_id@));
                }
                return None;
            },
        };
        let cost = if contains_text(set, id) {
            match profile.spool {
                Some(s) => add_capped(profile.compute, s),
                None => {
                    proof {
                        assert(unpriced(profiles@, members, chain@[i as int].node_id@));
                    }
                    return None;
                },
            }
        } else {
            0
        };
        costs.push(NodeCost { node: chain[i].node_id.clone(), cost });
        i = i + 1;
    }
    let dag = chain_as_dag(chain);
    let (total, path) = critical_path(&dag, &costs);
    proof {
        let want = barriers(chain@, profiles@, members);
        assert forall|node: Text| #[trigger] charged(costs@)(node) == want(node) by {
            weights_are_barriers(costs@, chain@, profiles@, members, node, 0);
            if chain_ids(chain@).contains(node) {
                let k = choose|k: int| 0 <= k < chain_ids(chain@).len() && chain_ids(chain@)[k] == node;
                assert(chain@[k].node_id@ == node);
            }
            if cost_in(costs@, node) is Some {
                let k = choose|k: int| 0 <= k < chain@.len() && (#[trigger] chain@[k]).node_id@ == node;
                assert(chain_ids(chain@)[k] == node);
            }
        }
        assert(charged(costs@) =~= want);
        assert(critical(dag.nodes@, buildable(dag.nodes@), want, total as nat, texts(path@)));
    }
    Some(total)
}

/// How many members of `set` are spooled one after another.
pub fn makespan_stages(chain: &Vec<CtePlan>, set: &Vec<String>) -> (r: usize)
    ensures
        stage_count(chain_graph(chain@, chain@.len()), texts(set@).to_set(), r as nat),
{
    stages(&chain_as_dag(chain), set)
}

/// What spooling the first `n` of `list` costs: none unless each is known.
pub open spec fn spool_sum(profiles: Profiles, list: Seq<Text>, n: nat) -> Option<nat>
    decreases n,
{
    if n == 0 {
        Some(0)
    } else {
        match spool_sum(profiles, list, (n - 1) as nat) {
            Some(t) => if profiles.contains_key(list[n - 1]) && profiles[list[n - 1]].spool is Some {
                Some(t + profiles[list[n - 1]].spool->0 as nat)
            } else {
                None
            },
            None => None,
        }
    }
}

/// `r` is what spooling the members of `set` costs: none unless each is known.
pub open spec fn spools(profiles: Profiles, set: Set<Text>, r: Option<u64>) -> bool {
    exists|list: Seq<Text>|
        #[trigger] listing(list, set) && r == match spool_sum(profiles, list, list.len()) {
            Some(t) => Some(cap64(t)),
            None => None,
        }
}

proof fn spool_sum_fails(profiles: Profiles, list: Seq<Text>, k: nat, n: nat)
    requires
        k <= n,
        spool_sum(profiles, list, k) is None,
    ensures
        spool_sum(profiles, list, n) is None,
    decreases n,
{
    if k < n {
        spool_sum_fails(profiles, list, k, (n - 1) as nat);
    }
}

/// What spooling every member of `set` costs. None unless each is known: a
/// partial sum would favour the sets whose spools are not.
pub fn spool_total(profiles: &TextMap<CteProfile>, set: &Vec<String>) -> (r: Option<u64>)
    requires
        profiles.wf(),
    ensures
        spools(profiles@, texts(set@).to_set(), r),
{
    let list = list_of(set);
    let ghost names = texts(list@);
    let mut total: u64 = 0;
    let mut i: usize = 0;
    while i < list.len()
        invariant
            i <= list@.len(),
            profiles.wf(),
            names == texts(list@),
            listing(names, texts(set@).to_set()),
            spool_sum(profiles@, names, i as nat) matches Some(t) && total == cap64(t),
        decreases list@.len() - i,
    {
        proof {
            assert(names[i as int] == list@[i as int]@);
        }
        let mut cost: Option<u64> = None;
        if let Some(p) = profiles.get(list[i].as_str()) {
            cost = p.spool;
        }
        match cost {
            Some(c) => {
                total = add_capped(total, c);
            },
            None => {
                proof {
                    spool_sum_fails(profiles@, names, (i + 1) as nat, names.len());
                }
                return None;
            },
        }
        i = i + 1;
    }
    Some(total)
}

/// Whether the engine plans the two extremes differently. What cannot be
/// measured is not taken for sameness.
pub fn responds_to_the_hint(plain: Option<u64>, materialized: Option<u64>) -> (r: bool)
    ensures
        r == match (plain, materialized) {
            (Some(a), Some(b)) => a != b,
            _ => true,
        },
{
    match (plain, materialized) {
        (Some(a), Some(b)) => a != b,
        _ => true,
    }
}

/// What a fused query costs: what its plan computes and what it spools, as far
/// as that is known.
pub open spec fn fused_work(compute: u64, spool: Option<u64>) -> u64 {
    match spool {
        Some(s) => cap64((compute + s) as nat),
        None => compute,
    }
}

/// What a fused query costs.
pub fn work_of(compute: u64, spool: Option<u64>) -> (r: u64)
    ensures
        r == fused_work(compute, spool),
{
    match spool {
        Some(s) => add_capped(compute, s),
        None => compute,
    }
}

/// `s` is what materializing `set` is worth: the work it removes from
/// `baseline`, the work and the waiting that are left, and its stages.
pub open spec fn scores(
    chain: Seq<CtePlan>,
    profiles: Profiles,
    baseline: u64,
    set: Set<Text>,
    compute: u64,
    s: Scored,
) -> bool {
    exists|spool: Option<u64>| {
        &&& #[trigger] spools(profiles, set, spool)
        &&& s.cost == clamped(baseline - fused_work(compute, spool))
        &&& stage_count(chain_graph(chain, chain.len()), set, s.stages as nat)
        &&& match s.makespan {
            Some(m) => (forall|i: int| 0 <= i < chain.len() ==> !unpriced(profiles, set, (#[trigger] chain[i]).node_id@))
                && waits_for(chain, profiles, set, fused_work(compute, spool), m),
            None => exists|i: int| 0 <= i < chain.len() && unpriced(profiles, set, (#[trigger] chain[i]).node_id@),
        }
    }
}

/// `m` is `work` and the waiting that the barriers add to it.
pub open spec fn waits_for(chain: Seq<CtePlan>, profiles: Profiles, set: Set<Text>, work: u64, m: i64) -> bool {
    exists|t: nat|
        #[trigger] critical_time(chain_graph(chain, chain.len()), barriers(chain, profiles, set), t) && m == clamped(work + t)
}

/// What flipping `flips` in the default set is worth, where the engine's plan
/// of the fused query under the set so reached costs `compute`. None where
/// that could not be priced.
pub fn price_flips(
    chain: &Vec<CtePlan>,
    profiles: &TextMap<CteProfile>,
    default_set: &Vec<String>,
    flips: &Vec<String>,
    baseline_work: u64,
    compute: Option<u64>,
) -> (r: Option<Scored>)
    requires
        profiles.wf(),
    ensures
        r is Some == compute is Some,
        r matches Some(s) ==> scores(
            chain@,
            profiles@,
            baseline_work,
            flipped(texts(default_set@).to_set(), texts(flips@), flips@.len()),
            compute->0,
            s,
        ),
{
    let compute = match compute {
        Some(c) => c,
        None => {
            return None;
        },
    };
    let set = flip(default_set, flips);
    let ghost members = flipped(texts(default_set@).to_set(), texts(flips@), flips@.len());
    let spool = spool_total(profiles, &set);
    let work = work_of(compute, spool);
    let cost = clamp(baseline_work as i128 - work as i128);
    let makespan = match barrier_chain(chain, profiles, &set) {
        Some(t) => {
            let m = clamp_sum(work, t);
            proof {
                assert(critical_time(chain_graph(chain@, chain@.len()), barriers(chain@, profiles@, members), t as nat));
                assert(waits_for(chain@, profiles@, members, work, m));
            }
            Some(m)
        },
        None => None,
    };
    let stages = makespan_stages(chain, &set);
    let s = Scored { cost, makespan, stages };
    proof {
        assert(spools(profiles@, members, spool));
        assert(scores(chain@, profiles@, baseline_work, members, compute, s));
    }
    Some(s)
}

/// `x`, or the nearest machine number.
fn clamp(x: i128) -> (r: i64)
    ensures
        r == clamped(x as int),
{
    if x < i64::MIN as i128 {
        i64::MIN
    } else if x > i64::MAX as i128 {
        i64::MAX
    } else {
        x as i64
    }
}

/// `a + b`, or the largest machine number.
fn clamp_sum(a: u64, b: u128) -> (r: i64)
    ensures
        r == clamped(a + b),
{
    if b > i64::MAX as u128 || a as u128 > i64::MAX as u128 - b {
        i64::MAX
    } else {
        (a as u128 + b) as i64
    }
}

/// The plan of the probe, with every expression materialized, says what the
/// expression `c` costs.
pub open spec fn profiled<C: SubtreeCost>(
    coster: &C,
    plans: Seq<PlanNode>,
    c: CtePlan,
    path: Option<Text>,
    factor: u64,
    p: CteProfile,
) -> bool {
    match subplan_in(plans, c.cte_name@) {
        Some(region) => coster.prices(seq![region], Some(p.compute)) && match (path, rows_of(region)) {
            (Some(path), Some(rows)) => spool_priced(coster, path, region, rows, factor, p.spool),
            _ => p.spool is None,
        },
        None => false,
    }
}

/// The plan does not say what the expression costs.
pub open spec fn not_profiled<C: SubtreeCost>(coster: &C, plans: Seq<PlanNode>, c: CtePlan) -> bool {
    match subplan_in(plans, c.cte_name@) {
        Some(region) => coster.prices(seq![region], None),
        None => true,
    }
}

/// How the engine would write one expression, and what a spool is taken to
/// cost against that, in millionths.
#[derive(Debug)]
pub struct WritePath {
    pub path: Option<String>,
    pub factor: u64,
}

/// What is known of the expressions of a chain, by the plan of the fused query
/// with every one of them materialized. An expression without a region in the
/// plan, or one that the model cannot price, is left out.
pub fn profile_ctes<C: SubtreeCost>(
    ctes: &Vec<CtePlan>,
    plans: &Vec<PlanNode>,
    paths: &Vec<WritePath>,
    coster: &C,
) -> (r: TextMap<CteProfile>)
    requires
        coster.ready(),
        ctes@.len() == paths@.len(),
        chain_ids(ctes@).no_duplicates(),
    ensures
        r.wf(),
        forall|i: int|
            0 <= i < ctes@.len() ==> if r@.contains_key((#[trigger] ctes@[i]).node_id@) {
                profiled(
                    coster,
                    plans@,
                    ctes@[i],
                    crate::sql::text_in(paths@[i].path),
                    paths@[i].factor,
                    r@[ctes@[i].node_id@],
                )
            } else {
                not_profiled(coster, plans@, ctes@[i])
            },
        forall|id: Text| #[trigger] r@.contains_key(id) ==> chain_ids(ctes@).contains(id),
{
    let ghost ids = chain_ids(ctes@);
    let mut out: TextMap<CteProfile> = TextMap::new();
    let mut i: usize = 0;
    while i < ctes.len()
        invariant
            i <= ctes@.len() == paths@.len(),
            coster.ready(),
            out.wf(),
            ids == chain_ids(ctes@),
            ids.no_duplicates(),
            forall|k: int|
                0 <= k < i ==> if out@.contains_key((#[trigger] ctes@[k]).node_id@) {
                    profiled(
                        coster,
                        plans@,
                        ctes@[k],
                        crate::sql::text_in(paths@[k].path),
                        paths@[k].factor,
                        out@[ctes@[k].node_id@],
                    )
                } else {
                    not_profiled(coster, plans@, ctes@[k])
                },
            forall|id: Text| #[trigger] out@.contains_key(id) ==> ids.take(i as int).contains(id),
        decreases ctes@.len() - i,
    {
        let ghost before = out@;
        let ghost id = ctes@[i as int].node_id@;
        proof {
            assert(ids[i as int] == id);
            assert(!before.contains_key(id)) by {
                if before.contains_key(id) {
                    let k = choose|k: int| 0 <= k < ids.take(i as int).len() && ids.take(i as int)[k] == id;
                    assert(ids[k] == ids[i as int]);
                }
            }
        }
        if let Some(region) = find_subplan(plans, ctes[i].cte_name.as_str()) {
            if let Some(compute) = coster.region_cost(region) {
                let spool = match &paths[i].path {
                    Some(path) => match region.rows() {
                        Some(rows) => coster.spool_cost(path.as_str(), region, rows, paths[i].factor),
                        None => None,
                    },
                    None => None,
                };
                out.insert(ctes[i].node_id.as_str(), CteProfile { compute, spool });
            }
        }
        proof {
            assert forall|k: int| 0 <= k < i + 1 implies if out@.contains_key((#[trigger] ctes@[k]).node_id@) {
                profiled(
                    coster,
                    plans@,
                    ctes@[k],
                    crate::sql::text_in(paths@[k].path),
                    paths@[k].factor,
                    out@[ctes@[k].node_id@],
                )
            } else {
                not_profiled(coster, plans@, ctes@[k])
            } by {
                assert(ids[k] == ctes@[k].node_id@);
                if k < i {
                    assert(ids[k] != ids[i as int]);
                    assert(out@.contains_key(ctes@[k].node_id@) == before.contains_key(ctes@[k].node_id@));
                }
            }
            assert forall|t: Text| #[trigger] out@.contains_key(t) implies ids.take(i + 1).contains(t) by {
                if t == id {
                    assert(ids.take(i + 1)[i as int] == id);
                } else {
                    assert(before.contains_key(t));
                    let k = choose|k: int| 0 <= k < ids.take(i as int).len() && ids.take(i as int)[k] == t;
                    assert(ids.take(i + 1)[k] == t);
                }
            }
        }
        i = i + 1;
    }
    proof {
        assert(ids.take(ctes@.len() as int) =~= ids);
    }
    out
}

/// A set with a member whose spool is not known has no makespan, however small
/// it would have been.
pub proof fn unknown_spool_is_unranked(
    chain: Seq<CtePlan>,
    profiles: Profiles,
    baseline: u64,
    set: Set<Text>,
    compute: u64,
    s: Scored,
    i: int,
)
    requires
        scores(chain, profiles, baseline, set, compute, s),
        0 <= i < chain.len(),
        set.contains(chain[i].node_id@),
        profiles.contains_key(chain[i].node_id@),
        profiles[chain[i].node_id@].spool is None,
    ensures
        s.makespan is None,
{
    assert(unpriced(profiles, set, chain[i].node_id@));
}

proof fn spool_sum_taken(profiles: Profiles, a: Seq<Text>, b: Seq<Text>, n: nat)
    requires
        n <= a.len(),
        n <= b.len(),
        forall|i: int| 0 <= i < n ==> a[i] == b[i],
    ensures
        spool_sum(profiles, a, n) == spool_sum(profiles, b, n),
    decreases n,
{
    if n > 0 {
        spool_sum_taken(profiles, a, b, (n - 1) as nat);
    }
}

/// Two totals together: none unless each is known.
spec fn both(a: Option<nat>, b: Option<nat>) -> Option<nat> {
    match (a, b) {
        (Some(x), Some(y)) => Some(x + y),
        _ => None,
    }
}

/// What spooling one expression costs.
spec fn one_spool(profiles: Profiles, t: Text) -> Option<nat> {
    if profiles.contains_key(t) && profiles[t].spool is Some {
        Some(profiles[t].spool->0 as nat)
    } else {
        None
    }
}

proof fn spool_sum_without(profiles: Profiles, list: Seq<Text>, i: int)
    requires
        0 <= i < list.len(),
    ensures
        spool_sum(profiles, list, list.len()) == both(
            spool_sum(profiles, list.remove(i), (list.len() - 1) as nat),
            one_spool(profiles, list[i]),
        ),
    decreases list.len(),
{
    let n = (list.len() - 1) as nat;
    spool_sum_taken(profiles, list, list.drop_last(), n);
    if i == n {
        spool_sum_taken(profiles, list.remove(i), list, n);
    } else {
        let front = list.drop_last();
        spool_sum_without(profiles, front, i);
        let less = list.remove(i);
        assert(less.last() == list.last());
        assert(less.drop_last() =~= front.remove(i));
        spool_sum_taken(profiles, less, less.drop_last(), (n - 1) as nat);
    }
}

proof fn spool_sum_of_two(profiles: Profiles, a: Seq<Text>, b: Seq<Text>, list: Seq<Text>)
    requires
        a.no_duplicates(),
        b.no_duplicates(),
        list.no_duplicates(),
        a.to_set().disjoint(b.to_set()),
        list.to_set() == a.to_set().union(b.to_set()),
    ensures
        spool_sum(profiles, list, list.len()) == both(
            spool_sum(profiles, a, a.len()),
            spool_sum(profiles, b, b.len()),
        ),
    decreases list.len(),
{
    if list.len() == 0 {
        if a.len() > 0 {
            assert(list.to_set().contains(a[0])) by {
                assert(a.to_set().contains(a[0]));
            }
        }
        if b.len() > 0 {
            assert(list.to_set().contains(b[0])) by {
                assert(b.to_set().contains(b[0]));
            }
        }
    } else {
        let x = list.last();
        let n = (list.len() - 1) as nat;
        let rest = list.drop_last();
        assert(list.to_set().contains(x));
        spool_sum_taken(profiles, list, rest, n);
        assert forall|t: Text| rest.to_set().contains(t) == (list.to_set().contains(t) && t != x) by {
            if rest.contains(t) {
                let k = choose|k: int| 0 <= k < rest.len() && rest[k] == t;
                assert(list[k] == t);
            }
            if list.contains(t) && t != x {
                let k = choose|k: int| 0 <= k < list.len() && list[k] == t;
                assert(rest[k] == t);
            }
        }
        if a.to_set().contains(x) {
            let i = choose|i: int| 0 <= i < a.len() && a[i] == x;
            let less = a.remove(i);
            removed_from_set(a, i);
            spool_sum_without(profiles, a, i);
            assert(rest.to_set() =~= less.to_set().union(b.to_set()));
            spool_sum_of_two(profiles, less, b, rest);
        } else {
            let i = choose|i: int| 0 <= i < b.len() && b[i] == x;
            let less = b.remove(i);
            removed_from_set(b, i);
            spool_sum_without(profiles, b, i);
            assert(rest.to_set() =~= a.to_set().union(less.to_set()));
            spool_sum_of_two(profiles, a, less, rest);
        }
    }
}

proof fn removed_from_set(a: Seq<Text>, i: int)
    requires
        a.no_duplicates(),
        0 <= i < a.len(),
    ensures
        a.remove(i).no_duplicates(),
        a.remove(i).to_set() == a.to_set().remove(a[i]),
{
    let less = a.remove(i);
    assert forall|t: Text| less.to_set().contains(t) == (a.to_set().contains(t) && t != a[i]) by {
        if less.contains(t) {
            let k = choose|k: int| 0 <= k < less.len() && less[k] == t;
            assert(a[if k < i { k } else { k + 1 }] == t);
        }
        if a.contains(t) && t != a[i] {
            let k = choose|k: int| 0 <= k < a.len() && a[k] == t;
            assert(less[if k < i { k } else { k - 1 }] == t);
        }
    }
    assert(less.to_set() =~= a.to_set().remove(a[i]));
}

/// Spooling adds up: two sets that share no member cost together what each
/// costs, and nothing can be said where nothing can be said of one of them.
pub proof fn spooling_adds_up(
    profiles: Profiles,
    a: Set<Text>,
    b: Set<Text>,
    x: Option<u64>,
    y: Option<u64>,
    r: Option<u64>,
)
    requires
        a.disjoint(b),
        spools(profiles, a, x),
        spools(profiles, b, y),
        spools(profiles, a.union(b), r),
    ensures
        x is None || y is None ==> r is None,
        x is Some && y is Some && x->0 + y->0 <= u64::MAX ==> r is Some && r->0 == x->0 + y->0,
        x is Some && y is Some && x->0 + y->0 > u64::MAX ==> r == Some(u64::MAX),
{
    let p = choose|list: Seq<Text>|
        #[trigger] listing(list, a) && x == match spool_sum(profiles, list, list.len()) {
            Some(t) => Some(cap64(t)),
            None => None,
        };
    let q = choose|list: Seq<Text>|
        #[trigger] listing(list, b) && y == match spool_sum(profiles, list, list.len()) {
            Some(t) => Some(cap64(t)),
            None => None,
        };
    let l = choose|list: Seq<Text>|
        #[trigger] listing(list, a.union(b)) && r == match spool_sum(profiles, list, list.len()) {
            Some(t) => Some(cap64(t)),
            None => None,
        };
    spool_sum_of_two(profiles, p, q, l);
}

/// What spooling a set costs is one number.
pub proof fn spooling_is_determined(profiles: Profiles, set: Set<Text>, a: Option<u64>, b: Option<u64>)
    requires
        spools(profiles, set, a),
        spools(profiles, set, b),
    ensures
        a == b,
{
    let p = choose|list: Seq<Text>|
        #[trigger] listing(list, set) && a == match spool_sum(profiles, list, list.len()) {
            Some(t) => Some(cap64(t)),
            None => None,
        };
    let q = choose|list: Seq<Text>|
        #[trigger] listing(list, set) && b == match spool_sum(profiles, list, list.len()) {
            Some(t) => Some(cap64(t)),
            None => None,
        };
    listing_unique(p, q, set);
}

/// Spooling one expression costs what is known of it; spooling none is free.
pub proof fn one_spool_costs_its_own(profiles: Profiles, t: Text, r: Option<u64>, none: Option<u64>)
    requires
        spools(profiles, set![t], r),
        spools(profiles, Set::<Text>::empty(), none),
    ensures
        r == (if profiles.contains_key(t) {
            profiles[t].spool
        } else {
            None
        }),
        none == Some(0u64),
{
    let l = choose|list: Seq<Text>|
        #[trigger] listing(list, set![t]) && r == match spool_sum(profiles, list, list.len()) {
            Some(t) => Some(cap64(t)),
            None => None,
        };
    assert(l.to_set().contains(t));
    assert forall|i: int| 0 <= i < l.len() implies l[i] == t by {
        assert(l.to_set().contains(l[i]));
    }
    if l.len() > 1 {
        assert(l[0] == l[1]);
    }
    assert(l.len() == 1);
    assert(spool_sum(profiles, l, 0) == Some(0nat));
    let e = choose|list: Seq<Text>|
        #[trigger] listing(list, Set::<Text>::empty()) && none == match spool_sum(profiles, list, list.len()) {
            Some(t) => Some(cap64(t)),
            None => None,
        };
    if e.len() > 0 {
        assert(e.to_set().contains(e[0]));
    }
}

/// What materializing a set is worth is the baseline less what the plan
/// computes and what the set spools; and its makespan is that work and the
/// waiting of the longest chain of barriers.
pub proof fn worth_is_baseline_less_work(
    chain: Seq<CtePlan>,
    profiles: Profiles,
    baseline: u64,
    set: Set<Text>,
    compute: u64,
    s: Scored,
    spool: Option<u64>,
    wait: nat,
)
    requires
        scores(chain, profiles, baseline, set, compute, s),
        spools(profiles, set, spool),
        critical_time(chain_graph(chain, chain.len()), barriers(chain, profiles, set), wait),
        baseline <= i64::MAX,
        compute + (match spool {
            Some(x) => x as int,
            None => 0,
        }) + wait <= i64::MAX,
    ensures
        s.cost == baseline - compute - (match spool {
            Some(x) => x as int,
            None => 0,
        }),
        s.makespan matches Some(m) ==> m == compute + (match spool {
            Some(x) => x as int,
            None => 0,
        }) + wait,
{
    let other = choose|other: Option<u64>| {
        &&& #[trigger] spools(profiles, set, other)
        &&& s.cost == clamped(baseline - fused_work(compute, other))
        &&& stage_count(chain_graph(chain, chain.len()), set, s.stages as nat)
        &&& match s.makespan {
            Some(m) => (forall|i: int| 0 <= i < chain.len() ==> !unpriced(profiles, set, (#[trigger] chain[i]).node_id@))
                && waits_for(chain, profiles, set, fused_work(compute, other), m),
            None => exists|i: int| 0 <= i < chain.len() && unpriced(profiles, set, (#[trigger] chain[i]).node_id@),
        }
    };
    spooling_is_determined(profiles, set, other, spool);
    if let Some(m) = s.makespan {
        let g = chain_graph(chain, chain.len());
        let cost = barriers(chain, profiles, set);
        let work = fused_work(compute, other);
        let t = choose|t: nat| #[trigger] critical_time(g, cost, t) && m == clamped(work + t);
        critical_monotone(g, cost, cost, t, wait);
        critical_monotone(g, cost, cost, wait, t);
    }
}

/// An expression that is materialized holds its readers up for as long as it
/// takes to compute and to spool; one that is not holds nobody up.
pub proof fn a_barrier_is_computed_and_spooled(chain: Seq<CtePlan>, profiles: Profiles, set: Set<Text>, i: int)
    requires
        0 <= i < chain.len(),
        profiles.contains_key(chain[i].node_id@),
        set.contains(chain[i].node_id@) ==> profiles[chain[i].node_id@].spool is Some,
    ensures
        !set.contains(chain[i].node_id@) ==> barriers(chain, profiles, set)(chain[i].node_id@) == 0,
        set.contains(chain[i].node_id@) && profiles[chain[i].node_id@].compute + profiles[chain[i].node_id@].spool->0
            <= u64::MAX ==> barriers(chain, profiles, set)(chain[i].node_id@) == profiles[chain[i].node_id@].compute
            + profiles[chain[i].node_id@].spool->0,
{
    assert(chain_ids(chain)[i] == chain[i].node_id@);
}

/// A chain as a graph has an expression's reads, and nothing else.
pub proof fn a_chain_reads_what_its_expressions_read(chain: Seq<CtePlan>, i: int, a: Text)
    requires
        0 <= i < chain.len(),
        chain_ids(chain).no_duplicates(),
    ensures
        chain_graph(chain, chain.len()).contains_key(chain[i].node_id@),
        reads(chain_graph(chain, chain.len()), chain[i].node_id@, a) == texts(chain[i].reads@).contains(a),
{
    chain_graph_holds(chain, chain.len(), i);
}

proof fn chain_graph_holds(chain: Seq<CtePlan>, n: nat, i: int)
    requires
        0 <= i < n <= chain.len(),
        chain_ids(chain).no_duplicates(),
    ensures
        chain_graph(chain, n).contains_key(chain[i].node_id@),
        chain_graph(chain, n)[chain[i].node_id@] == chain_node(chain[i]),
    decreases n,
{
    if i < n - 1 {
        chain_graph_holds(chain, (n - 1) as nat, i);
        assert(chain_ids(chain)[i] == chain[i].node_id@);
        assert(chain_ids(chain)[n - 1] == chain[n - 1].node_id@);
    }
}

/// Nothing that costs nothing adds up to anything.
proof fn free_steps_weigh_nothing(cost: spec_fn(Text) -> nat, p: Seq<Text>)
    requires
        forall|t: Text| #[trigger] cost(t) == 0,
    ensures
        weight(cost, p) == 0,
    decreases p.len(),
{
    if p.len() > 0 {
        free_steps_weigh_nothing(cost, p.drop_last());
    }
}

/// Where nothing is materialized nothing waits: the query takes its work.
pub proof fn without_barriers_nothing_waits(chain: Seq<CtePlan>, profiles: Profiles, work: u64, m: i64)
    requires
        waits_for(chain, profiles, Set::<Text>::empty(), work, m),
    ensures
        m == clamped(work as int),
{
    let g = chain_graph(chain, chain.len());
    let cost = barriers(chain, profiles, Set::<Text>::empty());
    let t = choose|t: nat| #[trigger] critical_time(g, cost, t) && m == clamped(work + t);
    let path = choose|path: Seq<Text>| #[trigger] critical(g, buildable(g), cost, t, path);
    free_steps_weigh_nothing(cost, path);
}

} // verus!
