//! Common subplan elimination: subplans that several nodes share become nodes
//! of their own.

use std::sync::Arc;
use vstd::prelude::*;

use crate::common::{prefix_of, schema_prefix};
use crate::dag::{Graph, GraphModel, MaterializeMode, NodeModel, TransformNode};
use crate::logical::{
    collect_dep_ids, entries_of, entry_of, flat, flat_list, flatten_plan, occurs, occurs_in, reads,
    replace_subplan, replaced, same_plan, scan_of, EntryModel, LogicalPlan, PlanEntry, PlanModel,
};
use crate::order::{order_positions, picked, sorted_lists_agree, stable_order};
use crate::table::TextMap;
use crate::text::{
    at_most, chars_of, contains_text, copy_texts, decimal, decimal_text, text_le, text_le_antisymmetric,
    text_le_total, text_le_transitive, texts, Text,
};

verus! {

/// A node and the plan of its query.
#[derive(Debug)]
pub struct PlannedNode {
    pub id: String,
    pub plan: LogicalPlan,
}

/// The ids of planned nodes.
pub open spec fn planned_ids(planned: Seq<PlannedNode>) -> Seq<Text> {
    planned.map_values(|n: PlannedNode| n.id@)
}

/// The plans of planned nodes, flattened.
pub open spec fn flats(planned: Seq<PlannedNode>) -> Seq<Seq<EntryModel>> {
    planned.map_values(|n: PlannedNode| flat(n.plan@, None, 0))
}

/// A plan without inputs: a scan of it in its place would save nothing.
pub open spec fn trivial(p: PlanModel) -> bool {
    p.inputs.len() == 0
}

/// `s` stands at position `idx` of a flattened plan.
pub open spec fn stands_at(entries: Seq<EntryModel>, idx: int, s: PlanModel) -> bool {
    0 <= idx < entries.len() && entries[idx].plan == s
}

/// `s` stands somewhere in a flattened plan.
pub open spec fn holds(entries: Seq<EntryModel>, s: PlanModel) -> bool {
    exists|idx: int| #[trigger] stands_at(entries, idx, s)
}

/// How many of the first `n` plans hold `s`.
pub open spec fn holders(nodes: Seq<Seq<EntryModel>>, s: PlanModel, n: nat) -> nat
    decreases n,
{
    if n == 0 {
        0
    } else {
        holders(nodes, s, (n - 1) as nat) + if holds(nodes[n - 1], s) {
            1nat
        } else {
            0
        }
    }
}

/// `s` is worth factoring out and stands in the plans of two nodes or more.
pub open spec fn shared(nodes: Seq<Seq<EntryModel>>, s: PlanModel) -> bool {
    !trivial(s) && holders(nodes, s, nodes.len()) >= 2
}

/// The operator right above is shared too: a larger common subplan covers this
/// occurrence.
pub open spec fn climbable(nodes: Seq<Seq<EntryModel>>, entries: Seq<EntryModel>, idx: int) -> bool {
    match entries[idx].parent {
        Some(p) => shared(nodes, entries[p].plan),
        None => false,
    }
}

/// `s` stands at `idx` and no larger common subplan covers it there.
pub open spec fn maximal_at(nodes: Seq<Seq<EntryModel>>, entries: Seq<EntryModel>, idx: int, s: PlanModel) -> bool {
    stands_at(entries, idx, s) && !climbable(nodes, entries, idx)
}

/// `s` stands somewhere in a flattened plan with no larger common subplan over
/// it.
pub open spec fn maximal_in(nodes: Seq<Seq<EntryModel>>, entries: Seq<EntryModel>, s: PlanModel) -> bool {
    exists|idx: int| #[trigger] maximal_at(nodes, entries, idx, s)
}

/// Those of the first `n` nodes in which `s` is maximal.
pub open spec fn members(ids: Seq<Text>, nodes: Seq<Seq<EntryModel>>, s: PlanModel, n: nat) -> Seq<Text>
    decreases n,
{
    if n == 0 {
        Seq::<Text>::empty()
    } else {
        let rest = members(ids, nodes, s, (n - 1) as nat);
        if maximal_in(nodes, nodes[n - 1], s) {
            rest.push(ids[n - 1])
        } else {
            rest
        }
    }
}

/// `s` is a maximal common subplan: shared, and maximal in two nodes or more.
pub open spec fn common_subplan(ids: Seq<Text>, nodes: Seq<Seq<EntryModel>>, s: PlanModel) -> bool {
    shared(nodes, s) && members(ids, nodes, s, nodes.len()).len() >= 2
}

/// A maximal common subplan and the nodes in which it is one.
#[derive(Debug)]
pub struct Candidate {
    pub plan: LogicalPlan,
    pub node_ids: Vec<String>,
}

/// A candidate as the specifications see it.
#[verifier::ext_equal]
pub struct CandidateModel {
    pub plan: PlanModel,
    pub node_ids: Seq<Text>,
}

impl View for Candidate {
    type V = CandidateModel;

    open spec fn view(&self) -> CandidateModel {
        CandidateModel { plan: self.plan@, node_ids: texts(self.node_ids@) }
    }
}

/// The candidates of a list.
pub open spec fn candidate_models(s: Seq<Candidate>) -> Seq<CandidateModel> {
    s.map_values(|c: Candidate| c@)
}

/// The more widely shared candidate first, then by what the plan reads like.
pub open spec fn candidate_le() -> spec_fn(CandidateModel, CandidateModel) -> bool {
    |a: CandidateModel, b: CandidateModel|
        a.node_ids.len() > b.node_ids.len() || (a.node_ids.len() == b.node_ids.len() && text_le(
            a.plan.display,
            b.plan.display,
        ))
}

/// `cs` are maximal common subplans, each once and with its nodes.
pub open spec fn are_common(ids: Seq<Text>, nodes: Seq<Seq<EntryModel>>, cs: Seq<CandidateModel>) -> bool {
    &&& forall|k: int|
        0 <= k < cs.len() ==> common_subplan(ids, nodes, (#[trigger] cs[k]).plan) && cs[k].node_ids == members(
            ids,
            nodes,
            cs[k].plan,
            nodes.len(),
        )
    &&& forall|k: int, m: int| 0 <= k < m < cs.len() ==> (#[trigger] cs[k]).plan != (#[trigger] cs[m]).plan
}

/// `s` is among the plans of `cs`.
pub open spec fn listed_among(cs: Seq<CandidateModel>, s: PlanModel) -> bool {
    exists|k: int| 0 <= k < cs.len() && (#[trigger] cs[k]).plan == s
}

/// `cs` are the maximal common subplans, each once, the most widely shared
/// first.
pub open spec fn all_common(ids: Seq<Text>, nodes: Seq<Seq<EntryModel>>, cs: Seq<CandidateModel>) -> bool {
    &&& are_common(ids, nodes, cs)
    &&& forall|s: PlanModel| #[trigger] common_subplan(ids, nodes, s) ==> listed_among(cs, s)
    &&& forall|k: int, m: int| 0 <= k < m < cs.len() ==> #[trigger] candidate_le()(cs[k], cs[m])
}

/// The flattened plans of a list.
pub open spec fn flattened(all: Seq<Vec<PlanEntry<'_>>>) -> Seq<Seq<EntryModel>> {
    all.map_values(|v: Vec<PlanEntry<'_>>| entries_of(v@))
}

/// Every parent link goes to an entry of the same plan.
spec fn links_inside(nodes: Seq<Seq<EntryModel>>) -> bool {
    forall|i: int, idx: int|
        0 <= i < nodes.len() && 0 <= idx < nodes[i].len() ==> ((#[trigger] nodes[i][idx]).parent matches Some(p) ==> 0
            <= p < nodes[i].len())
}

/// Whether a plan stands in a flattened plan.
pub(crate) fn find_plan(entries: &Vec<PlanEntry<'_>>, plan: &LogicalPlan) -> (r: bool)
    ensures
        r == holds(entries_of(entries@), plan@),
{
    let mut i: usize = 0;
    while i < entries.len()
        invariant
            i <= entries@.len(),
            forall|k: int| 0 <= k < i ==> !#[trigger] stands_at(entries_of(entries@), k, plan@),
        decreases entries@.len() - i,
    {
        proof {
            assert(entries_of(entries@)[i as int] == entry_of(entries@[i as int]));
        }
        if same_plan(entries[i].plan, plan) {
            proof {
                assert(stands_at(entries_of(entries@), i as int, plan@));
            }
            return true;
        }
        i = i + 1;
    }
    false
}

/// Whether a subplan is worth factoring out and stands in two plans or more.
fn is_shared(all: &Vec<Vec<PlanEntry<'_>>>, plan: &LogicalPlan) -> (r: bool)
    ensures
        r == shared(flattened(all@), plan@),
{
    let ghost nodes = flattened(all@);
    proof {
        crate::logical::models_stand(plan.inputs@);
    }
    if plan.inputs.len() == 0 {
        return false;
    }
    let mut count: usize = 0;
    let mut i: usize = 0;
    while i < all.len()
        invariant
            i <= all@.len(),
            nodes == flattened(all@),
            count <= i,
            count == holders(nodes, plan@, i as nat),
        decreases all@.len() - i,
    {
        proof {
            assert(nodes[i as int] == entries_of(all@[i as int]@));
        }
        if find_plan(&all[i], plan) {
            count = count + 1;
        }
        i = i + 1;
    }
    count >= 2
}

/// Whether the operator above an occurrence is shared too.
fn is_climbable(all: &Vec<Vec<PlanEntry<'_>>>, node: usize, idx: usize) -> (r: bool)
    requires
        node < all@.len(),
        idx < all@[node as int]@.len(),
        links_inside(flattened(all@)),
    ensures
        r == climbable(flattened(all@), flattened(all@)[node as int], idx as int),
{
    let ghost nodes = flattened(all@);
    let entries = &all[node];
    proof {
        assert(nodes[node as int] == entries_of(entries@));
        assert(nodes[node as int][idx as int] == entry_of(entries@[idx as int]));
    }
    match entries[idx].parent {
        Some(p) => {
            proof {
                assert(nodes[node as int][p as int] == entry_of(entries@[p as int]));
            }
            is_shared(all, entries[p].plan)
        },
        None => false,
    }
}

/// Whether a subplan is maximal somewhere in the plan of a node.
fn is_maximal_in(all: &Vec<Vec<PlanEntry<'_>>>, node: usize, plan: &LogicalPlan) -> (r: bool)
    requires
        node < all@.len(),
        links_inside(flattened(all@)),
    ensures
        r == maximal_in(flattened(all@), flattened(all@)[node as int], plan@),
{
    let ghost nodes = flattened(all@);
    let entries = &all[node];
    proof {
        assert(nodes[node as int] == entries_of(entries@));
    }
    let mut i: usize = 0;
    while i < entries.len()
        invariant
            i <= entries@.len(),
            node < all@.len(),
            entries@ == all@[node as int]@,
            nodes == flattened(all@),
            links_inside(nodes),
            nodes[node as int] == entries_of(entries@),
            forall|k: int| 0 <= k < i ==> !#[trigger] maximal_at(nodes, nodes[node as int], k, plan@),
        decreases entries@.len() - i,
    {
        proof {
            assert(nodes[node as int][i as int] == entry_of(entries@[i as int]));
        }
        if same_plan(entries[i].plan, plan) && !is_climbable(all, node, i) {
            proof {
                assert(maximal_at(nodes, nodes[node as int], i as int, plan@));
            }
            return true;
        }
        i = i + 1;
    }
    false
}

/// The nodes in which a subplan is maximal.
fn list_members(planned: &Vec<PlannedNode>, all: &Vec<Vec<PlanEntry<'_>>>, plan: &LogicalPlan) -> (r: Vec<String>)
    requires
        all@.len() == planned@.len(),
        links_inside(flattened(all@)),
    ensures
        texts(r@) == members(planned_ids(planned@), flattened(all@), plan@, planned@.len()),
{
    let ghost ids = planned_ids(planned@);
    let ghost nodes = flattened(all@);
    let mut out: Vec<String> = Vec::new();
    let mut i: usize = 0;
    proof {
        assert(texts(out@) =~= members(ids, nodes, plan@, 0));
    }
    while i < planned.len()
        invariant
            i <= planned@.len(),
            all@.len() == planned@.len(),
            ids == planned_ids(planned@),
            nodes == flattened(all@),
            links_inside(nodes),
            texts(out@) == members(ids, nodes, plan@, i as nat),
        decreases planned@.len() - i,
    {
        let ghost had = texts(out@);
        proof {
            assert(ids[i as int] == planned@[i as int].id@);
        }
        if is_maximal_in(all, i, plan) {
            out.push(planned[i].id.clone());
            proof {
                assert(texts(out@) =~= had.push(ids[i as int]));
            }
        }
        i = i + 1;
    }
    out
}

/// Whether a plan is among the candidates.
fn is_listed(found: &Vec<Candidate>, plan: &LogicalPlan) -> (r: bool)
    ensures
        r == listed_among(candidate_models(found@), plan@),
{
    let ghost cs = candidate_models(found@);
    let mut i: usize = 0;
    while i < found.len()
        invariant
            i <= found@.len(),
            cs == candidate_models(found@),
            forall|k: int| 0 <= k < i ==> (#[trigger] cs[k]).plan != plan@,
        decreases found@.len() - i,
    {
        proof {
            assert(cs[i as int] == found@[i as int]@);
        }
        if same_plan(&found[i].plan, plan) {
            return true;
        }
        i = i + 1;
    }
    false
}

/// Every common subplan at a position up to `idx` of node `i`, or in an
/// earlier node, is among `cs`.
spec fn covered(ids: Seq<Text>, nodes: Seq<Seq<EntryModel>>, cs: Seq<CandidateModel>, i: int, idx: int) -> bool {
    forall|a: int, b: int|
        0 <= a < nodes.len() && 0 <= b < nodes[a].len() && (a < i || (a == i && b < idx)) && common_subplan(
            ids,
            nodes,
            (#[trigger] nodes[a][b]).plan,
        ) ==> listed_among(cs, nodes[a][b].plan)
}

proof fn still_listed(cs: Seq<CandidateModel>, c: CandidateModel, s: PlanModel)
    requires
        listed_among(cs, s) || c.plan == s,
    ensures
        listed_among(cs.push(c), s),
{
    let more = cs.push(c);
    if listed_among(cs, s) {
        let k = choose|k: int| 0 <= k < cs.len() && (#[trigger] cs[k]).plan == s;
        assert(more[k].plan == s);
    } else {
        assert(more[cs.len() as int].plan == s);
    }
}

proof fn a_holder_stands(nodes: Seq<Seq<EntryModel>>, s: PlanModel, n: nat) -> (i: int)
    requires
        holders(nodes, s, n) > 0,
    ensures
        0 <= i < n,
        holds(nodes[i], s),
    decreases n,
{
    if holds(nodes[n - 1], s) {
        n - 1
    } else {
        a_holder_stands(nodes, s, (n - 1) as nat)
    }
}

/// The plans of nodes, flattened.
fn flatten_all(planned: &Vec<PlannedNode>) -> (r: Vec<Vec<PlanEntry<'_>>>)
    ensures
        flattened(r@) == flats(planned@),
        links_inside(flattened(r@)),
        r@.len() == planned@.len(),
{
    let mut all: Vec<Vec<PlanEntry<'_>>> = Vec::new();
    let mut i: usize = 0;
    while i < planned.len()
        invariant
            i <= planned@.len(),
            all@.len() == i,
            forall|k: int| 0 <= k < i ==> entries_of((#[trigger] all@[k])@) == flat(planned@[k].plan@, None, 0),
        decreases planned@.len() - i,
    {
        all.push(flatten_plan(&planned[i].plan));
        i = i + 1;
    }
    proof {
        assert(flattened(all@) =~= flats(planned@));
        let nodes = flats(planned@);
        assert forall|a: int, idx: int| 0 <= a < nodes.len() && 0 <= idx < nodes[a].len() implies ((
        #[trigger] nodes[a][idx]).parent matches Some(p) ==> 0 <= p < nodes[a].len()) by {
            crate::logical::flattened_is_linked(planned@[a].plan@);
            assert(nodes[a] == flat(planned@[a].plan@, None, 0));
        }
    }
    all
}

/// The maximal common subplans of planned nodes in the order in which they are
/// met.
fn meet_candidates(planned: &Vec<PlannedNode>) -> (r: Vec<Candidate>)
    ensures
        are_common(planned_ids(planned@), flats(planned@), candidate_models(r@)),
        forall|s: PlanModel|
            #[trigger] common_subplan(planned_ids(planned@), flats(planned@), s) ==> listed_among(
                candidate_models(r@),
                s,
            ),
{
    let all = flatten_all(planned);
    let ghost ids = planned_ids(planned@);
    let ghost nodes = flats(planned@);
    let mut found: Vec<Candidate> = Vec::new();
    let mut i: usize = 0;
    while i < all.len()
        invariant
            i <= all@.len(),
            all@.len() == planned@.len(),
            ids == planned_ids(planned@),
            nodes == flats(planned@),
            nodes == flattened(all@),
            links_inside(nodes),
            are_common(ids, nodes, candidate_models(found@)),
            covered(ids, nodes, candidate_models(found@), i as int, 0),
        decreases all@.len() - i,
    {
        let entries = &all[i];
        let mut idx: usize = 0;
        proof {
            assert(nodes[i as int] == entries_of(entries@));
        }
        while idx < entries.len()
            invariant
                idx <= entries@.len(),
                i < all@.len(),
                all@.len() == planned@.len(),
                ids == planned_ids(planned@),
                nodes == flats(planned@),
                nodes == flattened(all@),
                links_inside(nodes),
                nodes[i as int] == entries_of(entries@),
                are_common(ids, nodes, candidate_models(found@)),
                covered(ids, nodes, candidate_models(found@), i as int, idx as int),
            decreases entries@.len() - idx,
        {
            let plan = entries[idx].plan;
            let ghost cs = candidate_models(found@);
            proof {
                assert(nodes[i as int][idx as int] == entry_of(entries@[idx as int]));
                assert(nodes[i as int][idx as int].plan == plan@);
            }
            if is_shared(&all, plan) && !is_listed(&found, plan) {
                let node_ids = list_members(planned, &all, plan);
                if node_ids.len() >= 2 {
                    let c = Candidate { plan: plan.copy(), node_ids };
                    let ghost model = c@;
                    found.push(c);
                    proof {
                        assert(texts(c.node_ids@).len() == c.node_ids@.len());
                        assert(candidate_models(found@) =~= cs.push(model));
                        assert forall|a: int, b: int|
                            0 <= a < nodes.len() && 0 <= b < nodes[a].len() && (a < i || (a == i && b < idx + 1))
                                && common_subplan(ids, nodes, (#[trigger] nodes[a][b]).plan) implies listed_among(
                            candidate_models(found@),
                            nodes[a][b].plan,
                        ) by {
                            still_listed(cs, model, nodes[a][b].plan);
                        }
                        assert forall|k: int, m: int| 0 <= k < m < cs.push(model).len() implies (#[trigger] cs.push(
                            model,
                        )[k]).plan != (#[trigger] cs.push(model)[m]).plan by {
                            if m == cs.len() {
                                assert(cs[k].plan != model.plan);
                            }
                        }
                    }
                }
            }
            proof {
                let now = candidate_models(found@);
                assert forall|a: int, b: int|
                    0 <= a < nodes.len() && 0 <= b < nodes[a].len() && (a < i || (a == i && b < idx + 1))
                        && common_subplan(ids, nodes, (#[trigger] nodes[a][b]).plan) implies listed_among(
                    now,
                    nodes[a][b].plan,
                ) by {}
            }
            idx = idx + 1;
        }
        proof {
            assert(covered(ids, nodes, candidate_models(found@), i + 1, 0));
        }
        i = i + 1;
    }
    proof {
        let cs = candidate_models(found@);
        assert forall|s: PlanModel| #[trigger] common_subplan(ids, nodes, s) implies listed_among(cs, s) by {
            let a = a_holder_stands(nodes, s, nodes.len());
            let b = choose|b: int| #[trigger] stands_at(nodes[a], b, s);
            assert(nodes[a][b].plan == s);
        }
    }
    found
}

/// The maximal common subplans of planned nodes, the most widely shared first.
pub fn find_maximal_common_subplans(planned: &Vec<PlannedNode>) -> (r: Vec<Candidate>)
    ensures
        all_common(planned_ids(planned@), flats(planned@), candidate_models(r@)),
{
    let found = meet_candidates(planned);
    let ghost ids = planned_ids(planned@);
    let ghost nodes = flats(planned@);
    let ghost items = candidate_models(found@);
    let ghost le = candidate_le();
    proof {
        assert forall|i: int, j: int| 0 <= i < items.len() && 0 <= j < items.len() implies #[trigger] le(
            items[i],
            items[j],
        ) || le(items[j], items[i]) by {
            text_le_total(items[i].plan.display, items[j].plan.display);
        }
        assert forall|i: int, j: int, k: int|
            0 <= i < items.len() && 0 <= j < items.len() && 0 <= k < items.len() && #[trigger] le(items[i], items[j])
                && #[trigger] le(items[j], items[k]) implies le(items[i], items[k]) by {
            if items[i].node_ids.len() == items[j].node_ids.len() && items[j].node_ids.len() == items[k].node_ids.len() {
                text_le_transitive(items[i].plan.display, items[j].plan.display, items[k].plan.display);
            }
        }
    }
    let before = |a: usize, b: usize| -> (r: bool)
        requires
            a < found@.len(),
            b < found@.len(),
        ensures
            r == (found@[a as int].node_ids@.len() > found@[b as int].node_ids@.len() || (
            found@[a as int].node_ids@.len() == found@[b as int].node_ids@.len() && text_le(
                found@[a as int].plan.display@,
                found@[b as int].plan.display@,
            ))),
        {
            found[a].node_ids.len() > found[b].node_ids.len() || (found[a].node_ids.len() == found[b].node_ids.len()
                && at_most(found[a].plan.display.as_str(), found[b].plan.display.as_str()))
        };
    proof {
        assert forall|a: usize, b: usize, r: bool|
            a < found@.len() && b < found@.len() && call_ensures(before, (a, b), r) implies r == le(
            items[a as int],
            items[b as int],
        ) by {
            assert(items[a as int] == found@[a as int]@);
            assert(items[b as int] == found@[b as int]@);
        }
    }
    let p = order_positions::<CandidateModel, _>(Ghost(items), Ghost(le), found.len(), before);
    let mut out: Vec<Candidate> = Vec::new();
    let mut i: usize = 0;
    while i < p.len()
        invariant
            i <= p@.len(),
            items == candidate_models(found@),
            stable_order(p@, items, le),
            candidate_models(out@) == picked(items, p@).take(i as int),
        decreases p@.len() - i,
    {
        let ghost had = candidate_models(out@);
        let c = &found[p[i]];
        let next = Candidate { plan: c.plan.copy(), node_ids: copy_texts(&c.node_ids) };
        proof {
            assert(items[p@[i as int] as int] == c@);
            assert(next@ == c@);
        }
        out.push(next);
        proof {
            let want = picked(items, p@);
            assert(candidate_models(out@) =~= had.push(want[i as int]));
            assert(want.take(i + 1) =~= want.take(i as int).push(want[i as int]));
        }
        i = i + 1;
    }
    proof {
        let want = picked(items, p@);
        assert(want.take(p@.len() as int) =~= want);
        let cs = candidate_models(out@);
        assert(cs == want);
        assert(are_common(ids, nodes, cs)) by {
            assert forall|k: int| 0 <= k < cs.len() implies common_subplan(ids, nodes, (#[trigger] cs[k]).plan)
                && cs[k].node_ids == members(ids, nodes, cs[k].plan, nodes.len()) by {
                assert(cs[k] == items[p@[k] as int]);
            }
            assert forall|k: int, m: int| 0 <= k < m < cs.len() implies (#[trigger] cs[k]).plan != (
            #[trigger] cs[m]).plan by {
                let a = p@[k] as int;
                let b = p@[m] as int;
                assert(p@[k] != p@[m]);
                assert(cs[k] == items[a] && cs[m] == items[b]);
                if a < b {
                    assert(items[a].plan != items[b].plan);
                } else {
                    assert(items[b].plan != items[a].plan);
                }
            }
        }
        assert forall|s: PlanModel| #[trigger] common_subplan(ids, nodes, s) implies listed_among(cs, s) by {
            assert(listed_among(items, s));
            let k = choose|k: int| 0 <= k < items.len() && (#[trigger] items[k]).plan == s;
            assert(p@.contains(k as usize));
            let m = choose|m: int| 0 <= m < p@.len() && p@[m] == k as usize;
            assert(cs[m] == items[k]);
        }
        assert forall|k: int, m: int| 0 <= k < m < cs.len() implies #[trigger] candidate_le()(cs[k], cs[m]) by {
            assert(le(items[p@[k] as int], items[p@[m] as int]));
        }
    }
    out
}

/// The lexicographically least text of a list.
pub open spec fn least(list: Seq<Text>) -> Text
    decreases list.len(),
{
    if list.len() == 0 {
        Seq::<char>::empty()
    } else if list.len() == 1 {
        list[0]
    } else {
        let rest = least(list.drop_last());
        if text_le(rest, list.last()) {
            rest
        } else {
            list.last()
        }
    }
}

/// The name of the node that the candidate with the number `i` becomes: beside
/// the least of its nodes.
pub open spec fn factored_name(c: CandidateModel, i: nat) -> Text {
    let prefix = prefix_of(least(c.node_ids));
    let base = "cspe_"@ + decimal(i);
    if prefix.len() == 0 {
        base
    } else {
        prefix + seq!['"'] + base + seq!['"']
    }
}

/// The lexicographically least text of a list; empty where the list is.
fn least_text(list: &Vec<String>) -> (r: String)
    ensures
        r@ == least(texts(list@)),
{
    if list.len() == 0 {
        let r = String::new();
        proof {
            assert(r@ =~= Seq::<char>::empty());
        }
        return r;
    }
    let ghost all = texts(list@);
    let mut best: usize = 0;
    let mut i: usize = 1;
    proof {
        assert(all.take(1).len() == 1 && all.take(1)[0] == all[0]);
    }
    while i < list.len()
        invariant
            1 <= i <= list@.len(),
            best < list@.len(),
            all == texts(list@),
            list@[best as int]@ == least(all.take(i as int)),
        decreases list@.len() - i,
    {
        proof {
            let t = all.take(i + 1);
            assert(t.drop_last() =~= all.take(i as int));
            assert(t.last() == list@[i as int]@);
        }
        if !at_most(list[best].as_str(), list[i].as_str()) {
            best = i;
        }
        i = i + 1;
    }
    proof {
        assert(all.take(all.len() as int) =~= all);
    }
    list[best].clone()
}

/// The name of the node that the candidate with the number `i` becomes.
pub fn name_factored(c: &Candidate, i: usize) -> (r: String)
    ensures
        r@ == factored_name(c@, i as nat),
{
    let sample = least_text(&c.node_ids);
    let prefix = schema_prefix(sample.as_str());
    let number = decimal_text(i as u64);
    let bare = chars_of(prefix.as_str()).len() == 0;
    let mut out = prefix;
    let ghost front = out@;
    if !bare {
        out.push('"');
    }
    out.append("cspe_");
    out.append(number.as_str());
    if !bare {
        out.push('"');
    }
    proof {
        assert(out@ =~= factored_name(c@, i as nat));
    }
    out
}

/// What a plan reads like as a query: its text and its columns.
#[derive(Debug)]
pub struct Unparsed {
    pub sql: String,
    pub columns: Vec<String>,
}

/// A node, its plan as it now stands, and whether that was rewritten.
#[derive(Debug)]
pub struct CurrentPlan {
    pub id: String,
    pub plan: LogicalPlan,
    pub rewritten: bool,
}

/// A current plan as the specifications see it.
#[verifier::ext_equal]
pub struct CurrentModel {
    pub id: Text,
    pub plan: PlanModel,
    pub rewritten: bool,
}

impl View for CurrentPlan {
    type V = CurrentModel;

    open spec fn view(&self) -> CurrentModel {
        CurrentModel { id: self.id@, plan: self.plan@, rewritten: self.rewritten }
    }
}

/// The current plans of a list.
pub open spec fn current_models(s: Seq<CurrentPlan>) -> Seq<CurrentModel> {
    s.map_values(|c: CurrentPlan| c@)
}

/// The plans before anything was rewritten.
pub open spec fn unchanged_plans(planned: Seq<PlannedNode>) -> Seq<CurrentModel> {
    planned.map_values(|n: PlannedNode| CurrentModel { id: n.id@, plan: n.plan@, rewritten: false })
}

/// The two graphs and the plans in the course of factoring, and how many nodes
/// were factored out.
#[verifier::ext_equal]
pub struct FactorState {
    pub graph: GraphModel,
    pub minor: GraphModel,
    pub plans: Seq<CurrentModel>,
    pub factored: nat,
}

/// The node that a candidate becomes.
pub open spec fn factored_node(c: CandidateModel, name: Text, u: Unparsed, minor: GraphModel) -> NodeModel {
    NodeModel {
        id: name,
        query_text: u.sql@,
        materialize: MaterializeMode::TempTable,
        depends_on: reads(c.plan, minor),
        schema: Some(texts(u.columns@)),
    }
}

/// The plan `p` once `c` is the node `name`: a scan of the node stands for the
/// subplan in each of the candidate's nodes.
pub open spec fn rewritten_by(p: CurrentModel, c: CandidateModel, name: Text) -> CurrentModel {
    if c.node_ids.contains(p.id) {
        CurrentModel { id: p.id, plan: replaced(p.plan, c.plan, name), rewritten: true }
    } else {
        p
    }
}

/// The plans once `c` is the node `name`.
pub open spec fn rewrite_plans(plans: Seq<CurrentModel>, c: CandidateModel, name: Text) -> Seq<CurrentModel> {
    plans.map_values(|p: CurrentModel| rewritten_by(p, c, name))
}

/// What becomes of the candidate with the number `i`. One that does not read as
/// a query, or that the graph cannot take, is passed over.
pub open spec fn factor_step(s: FactorState, c: CandidateModel, i: nat, u: Option<Unparsed>) -> FactorState {
    let name = factored_name(c, i);
    match u {
        None => s,
        Some(u) => {
            let node = factored_node(c, name, u, s.minor);
            if node.depends_on.subset_of(s.graph.dom()) {
                FactorState {
                    graph: s.graph.insert(name, node),
                    minor: s.minor.insert(name, node),
                    plans: rewrite_plans(s.plans, c, name),
                    factored: s.factored + 1,
                }
            } else {
                FactorState { minor: s.minor.remove(name), ..s }
            }
        },
    }
}

/// What becomes of the first `n` candidates, one after the other.
pub open spec fn factor_run(
    s: FactorState,
    cs: Seq<CandidateModel>,
    us: Seq<Option<Unparsed>>,
    n: nat,
) -> FactorState
    decreases n,
{
    if n == 0 {
        s
    } else {
        factor_step(factor_run(s, cs, us, (n - 1) as nat), cs[n - 1], (n - 1) as nat, us[n - 1])
    }
}

/// Puts the node of a candidate into both graphs, unless the graph cannot take
/// it.
fn add_factored(graph: &mut Graph, minor: &mut Graph, c: &Candidate, name: &str, u: &Unparsed) -> (r: bool)
    requires
        old(graph).wf(),
        old(minor).wf(),
    ensures
        final(graph).wf(),
        final(minor).wf(),
        ({
            let node = factored_node(c@, name@, *u, old(minor)@);
            if node.depends_on.subset_of(old(graph)@.dom()) {
                r && final(graph)@ == old(graph)@.insert(name@, node) && final(minor)@ == old(minor)@.insert(
                    name@,
                    node,
                )
            } else {
                !r && final(graph)@ == old(graph)@ && final(minor)@ == old(minor)@.remove(name@)
            }
        }),
{
    let ghost before = minor@;
    let ghost want = factored_node(c@, name@, *u, minor@);
    let mut deps: Vec<String> = Vec::new();
    proof {
        assert(texts(deps@).to_set() =~= Set::<Text>::empty());
    }
    collect_dep_ids(&c.plan, minor, &mut deps);
    proof {
        assert(texts(deps@).to_set() =~= reads(c.plan@, before));
        assert(reads(c.plan@, before).subset_of(before.dom()));
    }
    let node = TransformNode {
        id: name.to_owned(),
        query_text: u.sql.clone(),
        materialize: MaterializeMode::TempTable,
        depends_on: deps,
        schema: Some(copy_texts(&u.columns)),
    };
    let again = node.copy();
    proof {
        assert(node@ == want);
    }
    minor.add_node_unchecked(again);
    match graph.add_node(node) {
        Ok(_) => true,
        Err(_) => {
            minor.remove(name);
            proof {
                assert(minor@ =~= before.remove(name@));
            }
            false
        },
    }
}

/// Puts a scan of `name` for the subplan into the plans of the candidate's
/// nodes.
fn rewrite_members(plans: &Vec<CurrentPlan>, c: &Candidate, name: &str) -> (r: Vec<CurrentPlan>)
    ensures
        current_models(r@) == rewrite_plans(current_models(plans@), c@, name@),
{
    let ghost want = rewrite_plans(current_models(plans@), c@, name@);
    let mut out: Vec<CurrentPlan> = Vec::new();
    let mut i: usize = 0;
    while i < plans.len()
        invariant
            i <= plans@.len(),
            out@.len() == i,
            want == rewrite_plans(current_models(plans@), c@, name@),
            forall|k: int| 0 <= k < i ==> (#[trigger] out@[k])@ == want[k],
        decreases plans@.len() - i,
    {
        let p = &plans[i];
        proof {
            assert(want[i as int] == rewritten_by(p@, c@, name@));
        }
        let next = if contains_text(&c.node_ids, p.id.as_str()) {
            CurrentPlan { id: p.id.clone(), plan: replace_subplan(&p.plan, &c.plan, name), rewritten: true }
        } else {
            CurrentPlan { id: p.id.clone(), plan: p.plan.copy(), rewritten: p.rewritten }
        };
        out.push(next);
        i = i + 1;
    }
    proof {
        assert(current_models(out@) =~= want);
    }
    out
}

/// How many of the first `n` plans were rewritten.
pub open spec fn rewritten_count(plans: Seq<CurrentModel>, n: nat) -> nat
    decreases n,
{
    if n == 0 {
        0
    } else {
        rewritten_count(plans, (n - 1) as nat) + if plans[n - 1].rewritten {
            1nat
        } else {
            0
        }
    }
}

/// The graph once the first `n` plans that were rewritten, and read as a query,
/// are the queries of their nodes. What a rewritten plan scans is what its node
/// now reads.
pub open spec fn regenerated(
    g: GraphModel,
    minor: GraphModel,
    plans: Seq<CurrentModel>,
    sqls: Seq<Option<String>>,
    n: nat,
) -> GraphModel
    decreases n,
{
    if n == 0 {
        g
    } else {
        let before = regenerated(g, minor, plans, sqls, (n - 1) as nat);
        let p = plans[n - 1];
        match sqls[n - 1] {
            Some(sql) => if p.rewritten && before.contains_key(p.id) {
                before.insert(
                    p.id,
                    NodeModel { query_text: sql@, depends_on: reads(p.plan, minor), ..before[p.id] },
                )
            } else {
                before
            },
            None => before,
        }
    }
}

/// How a pass went.
#[derive(Debug, Clone, Copy)]
pub struct CspeStats {
    pub common_subplans_found: usize,
    pub factored_nodes: usize,
    pub nodes_rewritten: usize,
}

impl CspeStats {
    /// The numbers by name, as texts.
    pub fn entries(&self) -> (r: TextMap<String>)
        ensures
            r.wf(),
            r@.dom() == set!["common_subplans_found"@, "factored_nodes"@, "nodes_rewritten"@],
            r@["common_subplans_found"@]@ == decimal(self.common_subplans_found as nat),
            r@["factored_nodes"@]@ == decimal(self.factored_nodes as nat),
            r@["nodes_rewritten"@]@ == decimal(self.nodes_rewritten as nat),
    {
        let mut out: TextMap<String> = TextMap::new();
        out.insert("common_subplans_found", decimal_text(self.common_subplans_found as u64));
        out.insert("factored_nodes", decimal_text(self.factored_nodes as u64));
        out.insert("nodes_rewritten", decimal_text(self.nodes_rewritten as u64));
        proof {
            reveal_strlit("common_subplans_found");
            reveal_strlit("factored_nodes");
            reveal_strlit("nodes_rewritten");
            assert("common_subplans_found"@.len() == 21);
            assert("factored_nodes"@.len() == 14);
            assert("nodes_rewritten"@.len() == 15);
            assert(out@.dom() =~= set!["common_subplans_found"@, "factored_nodes"@, "nodes_rewritten"@]);
        }
        out
    }
}

/// What factoring leaves to be written out: the plans as they now stand, and
/// how many nodes were factored out.
#[derive(Debug)]
pub struct Factoring {
    pub plans: Vec<CurrentPlan>,
    pub factored: usize,
}

/// Common subplan elimination. Subplans that are the same in two nodes or more
/// each become a node of their own, which the nodes scan instead of computing
/// the shared part each for itself.
#[derive(Debug)]
pub struct CSPEPass<C, E> {
    pub conn: Arc<C>,
    pub engine: Arc<E>,
}

impl<C, E> CSPEPass<C, E> {
    /// A pass on the given connection and engine.
    pub fn new(conn: Arc<C>, engine: Arc<E>) -> (r: Self)
        ensures
            r.conn == conn,
            r.engine == engine,
    {
        CSPEPass { conn, engine }
    }

    /// Makes nodes of the candidates, each in its turn, in the graph and in the
    /// graph without Views.
    pub fn factor(
        &self,
        graph: &mut Graph,
        minor: &mut Graph,
        planned: &Vec<PlannedNode>,
        candidates: &Vec<Candidate>,
        unparsed: &Vec<Option<Unparsed>>,
    ) -> (r: Factoring)
        requires
            old(graph).wf(),
            old(minor).wf(),
            unparsed@.len() == candidates@.len(),
        ensures
            final(graph).wf(),
            final(minor).wf(),
            ({
                let end = factor_run(
                    FactorState {
                        graph: old(graph)@,
                        minor: old(minor)@,
                        plans: unchanged_plans(planned@),
                        factored: 0,
                    },
                    candidate_models(candidates@),
                    unparsed@,
                    candidates@.len(),
                );
                &&& final(graph)@ == end.graph
                &&& final(minor)@ == end.minor
                &&& current_models(r.plans@) == end.plans
                &&& r.factored == end.factored
            }),
    {
        let ghost cs = candidate_models(candidates@);
        let mut plans: Vec<CurrentPlan> = Vec::new();
        let mut k: usize = 0;
        while k < planned.len()
            invariant
                k <= planned@.len(),
                plans@.len() == k,
                forall|j: int| 0 <= j < k ==> (#[trigger] plans@[j])@ == unchanged_plans(planned@)[j],
            decreases planned@.len() - k,
        {
            plans.push(CurrentPlan { id: planned[k].id.clone(), plan: planned[k].plan.copy(), rewritten: false });
            k = k + 1;
        }
        proof {
            assert(current_models(plans@) =~= unchanged_plans(planned@));
        }
        let ghost start = FactorState {
            graph: graph@,
            minor: minor@,
            plans: unchanged_plans(planned@),
            factored: 0,
        };
        let mut factored: usize = 0;
        let mut i: usize = 0;
        while i < candidates.len()
            invariant
                i <= candidates@.len(),
                unparsed@.len() == candidates@.len(),
                cs == candidate_models(candidates@),
                graph.wf(),
                minor.wf(),
                factored <= i,
                (FactorState {
                    graph: graph@,
                    minor: minor@,
                    plans: current_models(plans@),
                    factored: factored as nat,
                }) == factor_run(start, cs, unparsed@, i as nat),
            decreases candidates@.len() - i,
        {
            let c = &candidates[i];
            let ghost s = factor_run(start, cs, unparsed@, i as nat);
            proof {
                assert(cs[i as int] == c@);
            }
            if let Some(u) = &unparsed[i] {
                let name = name_factored(c, i);
                if add_factored(graph, minor, c, name.as_str(), u) {
                    plans = rewrite_members(&plans, c, name.as_str());
                    factored = factored + 1;
                }
            }
            proof {
                let now = FactorState {
                    graph: graph@,
                    minor: minor@,
                    plans: current_models(plans@),
                    factored: factored as nat,
                };
                assert(now =~= factor_step(s, c@, i as nat, unparsed@[i as int]));
            }
            i = i + 1;
        }
        Factoring { plans, factored }
    }

    /// Makes the rewritten plans the queries of their nodes.
    pub fn regenerate(
        &self,
        graph: &mut Graph,
        minor: &Graph,
        found: usize,
        done: &Factoring,
        sqls: &Vec<Option<String>>,
    ) -> (r: CspeStats)
        requires
            old(graph).wf(),
            minor.wf(),
            sqls@.len() == done.plans@.len(),
        ensures
            final(graph).wf(),
            final(graph)@ == regenerated(
                old(graph)@,
                minor@,
                current_models(done.plans@),
                sqls@,
                sqls@.len(),
            ),
            r.common_subplans_found == found,
            r.factored_nodes == done.factored,
            r.nodes_rewritten == rewritten_count(current_models(done.plans@), done.plans@.len()),
    {
        let ghost start = graph@;
        let ghost plans = current_models(done.plans@);
        let mut count: usize = 0;
        let mut i: usize = 0;
        while i < sqls.len()
            invariant
                i <= sqls@.len(),
                sqls@.len() == done.plans@.len(),
                plans == current_models(done.plans@),
                graph.wf(),
                minor.wf(),
                count <= i,
                count == rewritten_count(plans, i as nat),
                graph@ == regenerated(start, minor@, plans, sqls@, i as nat),
            decreases sqls@.len() - i,
        {
            let p = &done.plans[i];
            let ghost before = graph@;
            proof {
                assert(plans[i as int] == p@);
            }
            if p.rewritten {
                count = count + 1;
                if let Some(sql) = &sqls[i] {
                    if graph.position(p.id.as_str()).is_some() {
                        let mut deps: Vec<String> = Vec::new();
                        proof {
                            assert(texts(deps@).to_set() =~= Set::<Text>::empty());
                        }
                        collect_dep_ids(&p.plan, minor, &mut deps);
                        proof {
                            assert(texts(deps@).to_set() =~= reads(p.plan@, minor@));
                        }
                        graph.rewrite_node(p.id.as_str(), sql.clone(), deps);
                    }
                }
            }
            i = i + 1;
        }
        CspeStats { common_subplans_found: found, factored_nodes: done.factored, nodes_rewritten: count }
    }
}

/// The entries of a flattened plan are the plan and what lies below it.
pub proof fn entries_are_subtrees(p: PlanModel, s: PlanModel)
    ensures
        holds(flat(p, None, 0), s) == occurs(p, s),
{
    flat_holds(p, None, 0, s);
}

proof fn flat_holds(p: PlanModel, parent: Option<int>, at: int, s: PlanModel)
    ensures
        holds(flat(p, parent, at), s) == occurs(p, s),
    decreases p,
{
    let all = flat(p, parent, at);
    let rest = flat_list(p.inputs, at, at + 1);
    flat_list_holds(p.inputs, at, at + 1, s);
    if p == s {
        assert(stands_at(all, 0, s));
    }
    if holds(rest, s) {
        let k = choose|k: int| #[trigger] stands_at(rest, k, s);
        assert(all[k + 1] == rest[k]);
        assert(stands_at(all, k + 1, s));
    }
    if holds(all, s) {
        let k = choose|k: int| #[trigger] stands_at(all, k, s);
        if k > 0 {
            assert(all[k] == rest[k - 1]);
            assert(stands_at(rest, k - 1, s));
        }
    }
}

proof fn flat_list_holds(list: Seq<PlanModel>, parent: int, at: int, s: PlanModel)
    ensures
        holds(flat_list(list, parent, at), s) == occurs_in(list, s),
    decreases list, list.len(),
{
    let all = flat_list(list, parent, at);
    if list.len() == 0 {
        if holds(all, s) {
            let k = choose|k: int| #[trigger] stands_at(all, k, s);
        }
    } else {
        let before = flat_list(list.drop_last(), parent, at);
        let last = flat(list.last(), Some(parent), at + before.len());
        flat_list_holds(list.drop_last(), parent, at, s);
        flat_holds(list.last(), Some(parent), at + before.len(), s);
        if holds(before, s) {
            let k = choose|k: int| #[trigger] stands_at(before, k, s);
            assert(all[k] == before[k]);
            assert(stands_at(all, k, s));
        }
        if holds(last, s) {
            let k = choose|k: int| #[trigger] stands_at(last, k, s);
            assert(all[before.len() + k] == last[k]);
            assert(stands_at(all, before.len() + k, s));
        }
        if holds(all, s) {
            let k = choose|k: int| #[trigger] stands_at(all, k, s);
            if k < before.len() {
                assert(all[k] == before[k]);
                assert(stands_at(before, k, s));
            } else {
                assert(all[k] == last[k - before.len()]);
                assert(stands_at(last, k - before.len(), s));
            }
        }
    }
}

/// A plan that is shared as a whole has no larger common subplan over it: it is
/// maximal in every node whose whole plan it is.
pub proof fn a_whole_plan_is_maximal(nodes: Seq<Seq<EntryModel>>, p: PlanModel)
    ensures
        maximal_in(nodes, flat(p, None, 0), p),
{
    assert(flat(p, None, 0)[0].plan == p);
    assert(maximal_at(nodes, flat(p, None, 0), 0, p));
}

/// Two nodes with the same plan, which is no bare scan, have that plan for a
/// maximal common subplan.
pub proof fn twins_share_their_plan(planned: Seq<PlannedNode>, i: int, j: int)
    requires
        0 <= i < j < planned.len(),
        planned[i].plan@ == planned[j].plan@,
        !trivial(planned[i].plan@),
    ensures
        common_subplan(planned_ids(planned), flats(planned), planned[i].plan@),
{
    let ids = planned_ids(planned);
    let nodes = flats(planned);
    let s = planned[i].plan@;
    a_whole_plan_is_maximal(nodes, s);
    assert(nodes[i] == flat(s, None, 0) && nodes[j] == flat(s, None, 0));
    assert(stands_at(nodes[i], 0, s));
    assert(holds(nodes[i], s) && holds(nodes[j], s));
    twins_counted(ids, nodes, s, i, j, nodes.len());
}

proof fn twins_counted(ids: Seq<Text>, nodes: Seq<Seq<EntryModel>>, s: PlanModel, i: int, j: int, n: nat)
    requires
        0 <= i < j < nodes.len(),
        n <= nodes.len(),
        holds(nodes[i], s),
        holds(nodes[j], s),
        maximal_in(nodes, nodes[i], s),
        maximal_in(nodes, nodes[j], s),
    ensures
        i < n ==> holders(nodes, s, n) >= 1 && members(ids, nodes, s, n).len() >= 1,
        j < n ==> holders(nodes, s, n) >= 2 && members(ids, nodes, s, n).len() >= 2,
    decreases n,
{
    if n > 0 {
        twins_counted(ids, nodes, s, i, j, (n - 1) as nat);
    }
}

/// A subplan that stands only right below shared subplans is not factored out:
/// the larger ones cover it.
pub proof fn covered_subplans_are_left_out(ids: Seq<Text>, nodes: Seq<Seq<EntryModel>>, s: PlanModel)
    requires
        forall|i: int, idx: int|
            0 <= i < nodes.len() && #[trigger] stands_at(nodes[i], idx, s) ==> climbable(nodes, nodes[i], idx),
    ensures
        !common_subplan(ids, nodes, s),
{
    no_members(ids, nodes, s, nodes.len());
}

proof fn no_members(ids: Seq<Text>, nodes: Seq<Seq<EntryModel>>, s: PlanModel, n: nat)
    requires
        n <= nodes.len(),
        forall|i: int, idx: int|
            0 <= i < nodes.len() && #[trigger] stands_at(nodes[i], idx, s) ==> climbable(nodes, nodes[i], idx),
    ensures
        members(ids, nodes, s, n).len() == 0,
    decreases n,
{
    if n > 0 {
        no_members(ids, nodes, s, (n - 1) as nat);
        if maximal_in(nodes, nodes[n - 1], s) {
            let idx = choose|idx: int| #[trigger] maximal_at(nodes, nodes[n - 1], idx, s);
            assert(stands_at(nodes[n - 1], idx, s));
        }
    }
}

/// Where plans that read alike are alike, the candidates and their order follow
/// from the plans alone.
pub proof fn candidates_are_determined(
    ids: Seq<Text>,
    nodes: Seq<Seq<EntryModel>>,
    a: Seq<CandidateModel>,
    b: Seq<CandidateModel>,
)
    requires
        all_common(ids, nodes, a),
        all_common(ids, nodes, b),
        forall|p: PlanModel, q: PlanModel|
            #[trigger] common_subplan(ids, nodes, p) && #[trigger] common_subplan(ids, nodes, q) && p.display == q.display
                ==> p == q,
    ensures
        a == b,
{
    let le = candidate_le();
    assert forall|x: CandidateModel| a.contains(x) == b.contains(x) by {
        if a.contains(x) {
            let k = choose|k: int| 0 <= k < a.len() && a[k] == x;
            assert(common_subplan(ids, nodes, a[k].plan));
            assert(listed_among(b, a[k].plan));
            let m = choose|m: int| 0 <= m < b.len() && (#[trigger] b[m]).plan == a[k].plan;
            assert(b[m] =~= x);
        }
        if b.contains(x) {
            let k = choose|k: int| 0 <= k < b.len() && b[k] == x;
            assert(common_subplan(ids, nodes, b[k].plan));
            assert(listed_among(a, b[k].plan));
            let m = choose|m: int| 0 <= m < a.len() && (#[trigger] a[m]).plan == b[k].plan;
            assert(a[m] =~= x);
        }
    }
    assert forall|i: int, j: int| 0 <= i < a.len() && 0 <= j < a.len() && #[trigger] le(a[i], a[j]) && le(a[j], a[i])
        implies a[i] == a[j] by {
        text_le_antisymmetric(a[i].plan.display, a[j].plan.display);
        assert(common_subplan(ids, nodes, a[i].plan));
        assert(common_subplan(ids, nodes, a[j].plan));
        assert(a[i].plan == a[j].plan);
        if i < j {
            assert(a[i].plan != a[j].plan);
        } else if j < i {
            assert(a[j].plan != a[i].plan);
        }
    }
    assert(a.no_duplicates()) by {
        assert forall|i: int, j: int| 0 <= i < a.len() && 0 <= j < a.len() && i != j implies a[i] != a[j] by {
            if i < j {
                assert(a[i].plan != a[j].plan);
            } else {
                assert(a[j].plan != a[i].plan);
            }
        }
    }
    assert(b.no_duplicates()) by {
        assert forall|i: int, j: int| 0 <= i < b.len() && 0 <= j < b.len() && i != j implies b[i] != b[j] by {
            if i < j {
                assert(b[i].plan != b[j].plan);
            } else {
                assert(b[j].plan != b[i].plan);
            }
        }
    }
    sorted_lists_agree(a, b, le);
}

/// A node of a candidate scans the new node after the rewriting, and, unless
/// the subplan holds that very scan, computes the subplan no more.
pub proof fn factoring_takes_the_subplan_out(
    planned: Seq<PlannedNode>,
    s: PlanModel,
    i: int,
    name: Text,
    minor: GraphModel,
)
    requires
        0 <= i < planned.len(),
        maximal_in(flats(planned), flats(planned)[i], s),
        minor.contains_key(name),
    ensures
        reads(replaced(planned[i].plan@, s, name), minor).contains(name),
        !occurs(s, scan_of(name)) ==> !occurs(replaced(planned[i].plan@, s, name), s),
{
    let nodes = flats(planned);
    let p = planned[i].plan@;
    let idx = choose|idx: int| #[trigger] maximal_at(nodes, nodes[i], idx, s);
    assert(stands_at(nodes[i], idx, s));
    entries_are_subtrees(p, s);
    crate::logical::replacing_leaves_a_scan(p, s, name);
    crate::logical::a_scan_is_scanned(replaced(p, s, name), name);
    if !occurs(s, scan_of(name)) {
        crate::logical::replacing_leaves_no_subtree(p, s, name);
    }
}

/// Where no two nodes share a subplan, the graph stays as it is.
pub proof fn nothing_shared_changes_nothing(
    planned: Seq<PlannedNode>,
    cs: Seq<CandidateModel>,
    us: Seq<Option<Unparsed>>,
    sqls: Seq<Option<String>>,
    g: GraphModel,
    minor: GraphModel,
)
    requires
        all_common(planned_ids(planned), flats(planned), cs),
        forall|s: PlanModel| !#[trigger] shared(flats(planned), s),
        sqls.len() == planned.len(),
    ensures
        cs.len() == 0,
        ({
            let start = FactorState { graph: g, minor, plans: unchanged_plans(planned), factored: 0 };
            let end = factor_run(start, cs, us, cs.len());
            &&& end == start
            &&& regenerated(end.graph, end.minor, end.plans, sqls, sqls.len()) == g
        }),
{
    if cs.len() > 0 {
        assert(common_subplan(planned_ids(planned), flats(planned), cs[0].plan));
        assert(shared(flats(planned), cs[0].plan));
    }
    nothing_to_regenerate(g, minor, unchanged_plans(planned), sqls, sqls.len());
}

proof fn nothing_to_regenerate(
    g: GraphModel,
    minor: GraphModel,
    plans: Seq<CurrentModel>,
    sqls: Seq<Option<String>>,
    n: nat,
)
    requires
        n <= plans.len(),
        n <= sqls.len(),
        forall|k: int| 0 <= k < plans.len() ==> !(#[trigger] plans[k]).rewritten,
    ensures
        regenerated(g, minor, plans, sqls, n) == g,
    decreases n,
{
    if n > 0 {
        nothing_to_regenerate(g, minor, plans, sqls, (n - 1) as nat);
        assert(!plans[n - 1].rewritten);
    }
}

/// Whoever stands among the first `n` plans and holds `s` is among its holders.
proof fn a_holder_is_counted(nodes: Seq<Seq<EntryModel>>, s: PlanModel, i: int, n: nat)
    requires
        0 <= i < n <= nodes.len(),
        holds(nodes[i], s),
    ensures
        holders(nodes, s, n) >= holders(nodes, s, i as nat) + 1,
    decreases n,
{
    if i < n - 1 {
        a_holder_is_counted(nodes, s, i, (n - 1) as nat);
    }
}

/// Where there are holders among the first `n` plans, one of them is the last.
proof fn a_last_holder(nodes: Seq<Seq<EntryModel>>, s: PlanModel, n: nat) -> (i: int)
    requires
        n <= nodes.len(),
        holders(nodes, s, n) >= 1,
    ensures
        0 <= i < n,
        holds(nodes[i], s),
        holders(nodes, s, n) == holders(nodes, s, i as nat) + 1,
    decreases n,
{
    if holds(nodes[n - 1], s) {
        n - 1
    } else {
        a_last_holder(nodes, s, (n - 1) as nat)
    }
}

/// A subplan with inputs is shared exactly where two different nodes hold it.
pub proof fn two_nodes_share_a_subplan(nodes: Seq<Seq<EntryModel>>, s: PlanModel)
    ensures
        shared(nodes, s) <==> s.inputs.len() > 0 && exists|i: int, j: int|
            0 <= i < j < nodes.len() && #[trigger] holds(nodes[i], s) && #[trigger] holds(nodes[j], s),
{
    if shared(nodes, s) {
        let j = a_last_holder(nodes, s, nodes.len());
        let i = a_last_holder(nodes, s, j as nat);
        assert(0 <= i < j < nodes.len() && holds(nodes[i], s) && holds(nodes[j], s));
    }
    if exists|i: int, j: int|
        0 <= i < j < nodes.len() && #[trigger] holds(nodes[i], s) && #[trigger] holds(nodes[j], s) {
        let (i, j) = choose|i: int, j: int|
            0 <= i < j < nodes.len() && #[trigger] holds(nodes[i], s) && #[trigger] holds(nodes[j], s);
        a_holder_is_counted(nodes, s, i, j as nat);
        a_holder_is_counted(nodes, s, j, nodes.len());
    }
}

/// The nodes of a subplan are those in which it stands with no larger common
/// subplan over it.
pub proof fn members_hold_it_uncovered(ids: Seq<Text>, nodes: Seq<Seq<EntryModel>>, s: PlanModel, n: nat, id: Text)
    requires
        n <= nodes.len(),
        n <= ids.len(),
    ensures
        members(ids, nodes, s, n).contains(id) <==> exists|i: int|
            0 <= i < n && #[trigger] ids[i] == id && maximal_in(nodes, nodes[i], s),
    decreases n,
{
    if n > 0 {
        members_hold_it_uncovered(ids, nodes, s, (n - 1) as nat, id);
        let rest = members(ids, nodes, s, (n - 1) as nat);
        let all = members(ids, nodes, s, n);
        if maximal_in(nodes, nodes[n - 1], s) {
            assert(all[rest.len() as int] == ids[n - 1]);
            if rest.contains(id) {
                let k = choose|k: int| 0 <= k < rest.len() && rest[k] == id;
                assert(all[k] == id);
            }
            if all.contains(id) && ids[n - 1] != id {
                let k = choose|k: int| 0 <= k < all.len() && all[k] == id;
                assert(rest[k] == id);
            }
        }
    }
}

/// The least text of a list is one of the list, and no other comes before it.
pub proof fn the_least_comes_first(list: Seq<Text>)
    requires
        list.len() > 0,
    ensures
        list.contains(least(list)),
        forall|k: int| 0 <= k < list.len() ==> text_le(least(list), #[trigger] list[k]),
    decreases list.len(),
{
    if list.len() == 1 {
        assert(list[0] == least(list));
        text_le_total(list[0], list[0]);
    } else {
        let short = list.drop_last();
        the_least_comes_first(short);
        let rest = least(short);
        let at = choose|k: int| 0 <= k < short.len() && short[k] == rest;
        assert(list[at] == rest);
        assert(list[list.len() - 1] == list.last());
        text_le_total(rest, list.last());
        text_le_total(list.last(), list.last());
        assert forall|k: int| 0 <= k < list.len() implies text_le(least(list), #[trigger] list[k]) by {
            if k < list.len() - 1 {
                assert(short[k] == list[k]);
                if least(list) != rest {
                    text_le_transitive(list.last(), rest, list[k]);
                }
            }
        }
    }
}

/// Of the plans of `a` and then those of `b` as many were rewritten as of each.
pub proof fn rewritten_plans_add_up(a: Seq<CurrentModel>, b: Seq<CurrentModel>)
    ensures
        rewritten_count(a + b, (a + b).len()) == rewritten_count(a, a.len()) + rewritten_count(b, b.len()),
        a.len() == 1 ==> (rewritten_count(a, 1) == 1 <==> a[0].rewritten),
        rewritten_count(a, a.len()) <= a.len(),
{
    rewritten_after(a, b, b.len());
    rewritten_within(a, a.len());
    assert(rewritten_count(a, 0) == 0);
    if a.len() == 1 {
        assert(rewritten_count(a, 1) == rewritten_count(a, 0) + if a[0].rewritten { 1nat } else { 0 });
    }
}

/// The first plans of `a + b`, all of `a` and `n` of `b`.
proof fn rewritten_after(a: Seq<CurrentModel>, b: Seq<CurrentModel>, n: nat)
    requires
        n <= b.len(),
    ensures
        rewritten_count(a + b, a.len() + n) == rewritten_count(a, a.len()) + rewritten_count(b, n),
    decreases n,
{
    if n == 0 {
        rewritten_of_first(a, b, a.len());
    } else {
        rewritten_after(a, b, (n - 1) as nat);
        assert((a + b)[a.len() + n - 1] == b[n - 1]);
        assert((a.len() + n - 1) as nat == a.len() + (n - 1) as nat);
    }
}

/// The first plans of `a + b` are those of `a`.
proof fn rewritten_of_first(a: Seq<CurrentModel>, b: Seq<CurrentModel>, n: nat)
    requires
        n <= a.len(),
    ensures
        rewritten_count(a + b, n) == rewritten_count(a, n),
    decreases n,
{
    if n > 0 {
        rewritten_of_first(a, b, (n - 1) as nat);
        assert((a + b)[n - 1] == a[n - 1]);
    }
}

/// No more plans were rewritten than there are.
proof fn rewritten_within(a: Seq<CurrentModel>, n: nat)
    requires
        n <= a.len(),
    ensures
        rewritten_count(a, n) <= n,
    decreases n,
{
    if n > 0 {
        rewritten_within(a, (n - 1) as nat);
    }
}

/// Plan `i` is one whose node gets a new query: it was rewritten, and it reads
/// as a query.
pub open spec fn gets_a_query(plans: Seq<CurrentModel>, sqls: Seq<Option<String>>, i: int) -> bool {
    plans[i].rewritten && sqls[i] is Some
}

/// No node comes or goes with the new queries; one that gets none stays as it
/// is, and one that gets a new query keeps its name, mode and schema.
pub proof fn the_other_nodes_stay(
    g: GraphModel,
    minor: GraphModel,
    plans: Seq<CurrentModel>,
    sqls: Seq<Option<String>>,
    n: nat,
    id: Text,
)
    requires
        n <= plans.len(),
        n <= sqls.len(),
    ensures
        regenerated(g, minor, plans, sqls, n).contains_key(id) <==> g.contains_key(id),
        (forall|i: int| 0 <= i < n && #[trigger] gets_a_query(plans, sqls, i) ==> plans[i].id != id)
            && g.contains_key(id) ==> regenerated(g, minor, plans, sqls, n)[id] == g[id],
        g.contains_key(id) ==> {
            let after = regenerated(g, minor, plans, sqls, n)[id];
            after.id == g[id].id && after.materialize == g[id].materialize && after.schema == g[id].schema
        },
    decreases n,
{
    if n > 0 {
        the_other_nodes_stay(g, minor, plans, sqls, (n - 1) as nat, id);
        if plans[n - 1].rewritten && sqls[n - 1] is Some {
            assert(gets_a_query(plans, sqls, n - 1));
        }
    }
}

/// A node whose plan was rewritten and reads as a query has that query, and
/// reads what the plan scans.
pub proof fn a_rewritten_node_gets_its_query(
    g: GraphModel,
    minor: GraphModel,
    plans: Seq<CurrentModel>,
    sqls: Seq<Option<String>>,
    n: nat,
    i: int,
)
    requires
        0 <= i < n <= plans.len(),
        n <= sqls.len(),
        gets_a_query(plans, sqls, i),
        g.contains_key(plans[i].id),
        forall|a: int, b: int| 0 <= a < b < n ==> (#[trigger] plans[a]).id != (#[trigger] plans[b]).id,
    ensures
        regenerated(g, minor, plans, sqls, n)[plans[i].id].query_text == sqls[i]->0@,
        regenerated(g, minor, plans, sqls, n)[plans[i].id].depends_on == reads(plans[i].plan, minor),
    decreases n,
{
    the_other_nodes_stay(g, minor, plans, sqls, (n - 1) as nat, plans[i].id);
    if i < n - 1 {
        a_rewritten_node_gets_its_query(g, minor, plans, sqls, (n - 1) as nat, i);
        assert(plans[i].id != plans[n - 1].id);
    }
}

/// However many candidates are factored out, the plans keep their nodes and
/// their order, none that was rewritten is taken back, and every node of the
/// graph is still there.
pub proof fn factoring_keeps_the_nodes(
    s: FactorState,
    cs: Seq<CandidateModel>,
    us: Seq<Option<Unparsed>>,
    n: nat,
    i: int,
    id: Text,
)
    requires
        n <= cs.len(),
        n <= us.len(),
    ensures
        factor_run(s, cs, us, n).plans.len() == s.plans.len(),
        0 <= i < s.plans.len() ==> factor_run(s, cs, us, n).plans[i].id == s.plans[i].id,
        0 <= i < s.plans.len() && s.plans[i].rewritten ==> factor_run(s, cs, us, n).plans[i].rewritten,
        s.graph.contains_key(id) ==> factor_run(s, cs, us, n).graph.contains_key(id),
        s.graph.contains_key(id) && (forall|k: int| 0 <= k < n ==> #[trigger] factored_name(cs[k], k as nat) != id)
            ==> factor_run(s, cs, us, n).graph[id] == s.graph[id],
        s.factored <= factor_run(s, cs, us, n).factored <= s.factored + n,
    decreases n,
{
    if n > 0 {
        factoring_keeps_the_nodes(s, cs, us, (n - 1) as nat, i, id);
        assert((n - 1) as nat as int == n - 1);
    }
}

/// A candidate that reads as a query, and reads nothing but nodes of the graph,
/// becomes a temporary table with that query, and is counted. Exactly the plans
/// of its nodes are rewritten.
pub proof fn a_candidate_becomes_a_temporary_table(
    s: FactorState,
    cs: Seq<CandidateModel>,
    us: Seq<Option<Unparsed>>,
    k: nat,
)
    requires
        k < cs.len(),
        k < us.len(),
        us[k as int] is Some,
        reads(cs[k as int].plan, factor_run(s, cs, us, k).minor).subset_of(factor_run(s, cs, us, k).graph.dom()),
    ensures
        ({
            let c = cs[k as int];
            let before = factor_run(s, cs, us, k);
            let after = factor_run(s, cs, us, k + 1);
            let name = factored_name(c, k);
            &&& after.graph.contains_key(name)
            &&& after.graph[name].id == name
            &&& after.graph[name].materialize is TempTable
            &&& after.graph[name].query_text == us[k as int]->0.sql@
            &&& after.graph[name].schema == Some(texts(us[k as int]->0.columns@))
            &&& after.graph[name].depends_on == reads(c.plan, before.minor)
            &&& after.minor.contains_key(name) && after.minor[name] == after.graph[name]
            &&& after.factored == before.factored + 1
            &&& forall|i: int| 0 <= i < before.plans.len() && c.node_ids.contains(before.plans[i].id) ==> (
            #[trigger] after.plans[i]).rewritten
            &&& forall|i: int| 0 <= i < before.plans.len() && !c.node_ids.contains(before.plans[i].id) ==> (
            #[trigger] after.plans[i]) == before.plans[i]
        }),
{
    let before = factor_run(s, cs, us, k);
    assert(((k + 1) - 1) as nat == k);
    assert(factor_run(s, cs, us, k + 1) == factor_step(before, cs[k as int], k, us[k as int]));
}

/// The subplan that the most nodes share comes first, and of those that as many
/// share the one that reads first.
pub proof fn the_most_widely_shared_comes_first(
    ids: Seq<Text>,
    nodes: Seq<Seq<EntryModel>>,
    cs: Seq<CandidateModel>,
    k: int,
    m: int,
)
    requires
        all_common(ids, nodes, cs),
        0 <= k < m < cs.len(),
    ensures
        cs[k].node_ids.len() >= cs[m].node_ids.len(),
        cs[k].node_ids.len() == cs[m].node_ids.len() ==> text_le(cs[k].plan.display, cs[m].plan.display),
        cs[k].node_ids.len() >= 2,
{
    assert(candidate_le()(cs[k], cs[m]));
    assert(common_subplan(ids, nodes, cs[k].plan));
}

} // verus!
