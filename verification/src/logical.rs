//! Logical plans as trees: equality, flattening with parent links, and the
//! replacement of one subtree by a scan.

use vstd::prelude::*;

use crate::dag::{Graph, GraphModel};
use crate::text::{text_eq, texts, Text};

verus! {

/// A logical plan. Two plans are the same where they agree in every field, so
/// `operator` has to tell apart operators that differ in anything else.
#[derive(Debug)]
pub struct LogicalPlan {
    /// The number of the operator; `0` is a scan of a node that was factored
    /// out.
    pub operator: u64,
    /// The plan from this operator down, in words.
    pub display: String,
    /// The id of the node that the operator scans.
    pub table: Option<String>,
    pub inputs: Vec<LogicalPlan>,
}

/// A logical plan as the specifications see it.
#[verifier::ext_equal]
pub struct PlanModel {
    pub operator: u64,
    pub display: Text,
    pub table: Option<Text>,
    pub inputs: Seq<PlanModel>,
}

/// A table name, where there is one.
pub open spec fn table_text(t: Option<String>) -> Option<Text> {
    match t {
        Some(s) => Some(s@),
        None => None,
    }
}

/// The plan `p`.
pub open spec fn model_of(p: LogicalPlan) -> PlanModel
    decreases p,
{
    PlanModel {
        operator: p.operator,
        display: p.display@,
        table: table_text(p.table),
        inputs: models_of(p.inputs@),
    }
}

/// The plans of a list.
pub open spec fn models_of(list: Seq<LogicalPlan>) -> Seq<PlanModel>
    decreases list, list.len(),
{
    if list.len() == 0 {
        Seq::<PlanModel>::empty()
    } else {
        models_of(list.drop_last()).push(model_of(list.last()))
    }
}

/// The models of a list stand where the plans do.
pub proof fn models_stand(list: Seq<LogicalPlan>)
    ensures
        models_of(list).len() == list.len(),
        forall|i: int| 0 <= i < list.len() ==> #[trigger] models_of(list)[i] == model_of(list[i]),
    decreases list.len(),
{
    if list.len() > 0 {
        models_stand(list.drop_last());
        assert forall|i: int| 0 <= i < list.len() implies #[trigger] models_of(list)[i] == model_of(list[i]) by {
            if i < list.len() - 1 {
                assert(list.drop_last()[i] == list[i]);
            }
        }
    }
}

impl View for LogicalPlan {
    type V = PlanModel;

    open spec fn view(&self) -> PlanModel {
        model_of(*self)
    }
}

/// Whether two plans are the same.
pub fn same_plan(a: &LogicalPlan, b: &LogicalPlan) -> (r: bool)
    ensures
        r == (a@ == b@),
    decreases a,
{
    proof {
        models_stand(a.inputs@);
        models_stand(b.inputs@);
    }
    if a.operator != b.operator || a.inputs.len() != b.inputs.len() {
        return false;
    }
    if !text_eq(a.display.as_str(), b.display.as_str()) {
        return false;
    }
    let same_table = match (&a.table, &b.table) {
        (Some(x), Some(y)) => text_eq(x.as_str(), y.as_str()),
        (None, None) => true,
        _ => false,
    };
    if !same_table {
        return false;
    }
    let mut i: usize = 0;
    while i < a.inputs.len()
        invariant
            i <= a.inputs@.len(),
            a.inputs@.len() == b.inputs@.len(),
            models_of(a.inputs@).len() == a.inputs@.len(),
            models_of(b.inputs@).len() == b.inputs@.len(),
            forall|k: int| 0 <= k < a.inputs@.len() ==> #[trigger] models_of(a.inputs@)[k] == model_of(a.inputs@[k]),
            forall|k: int| 0 <= k < b.inputs@.len() ==> #[trigger] models_of(b.inputs@)[k] == model_of(b.inputs@[k]),
            forall|k: int| 0 <= k < i ==> models_of(a.inputs@)[k] == #[trigger] models_of(b.inputs@)[k],
        decreases a.inputs@.len() - i,
    {
        if !same_plan(&a.inputs[i], &b.inputs[i]) {
            proof {
                assert(models_of(a.inputs@)[i as int] != models_of(b.inputs@)[i as int]);
            }
            return false;
        }
        proof {
            assert(models_of(a.inputs@)[i as int] == models_of(b.inputs@)[i as int]);
        }
        i = i + 1;
    }
    proof {
        assert(models_of(a.inputs@) =~= models_of(b.inputs@));
        assert(a@ == b@);
    }
    true
}

impl LogicalPlan {
    /// A copy of the plan.
    pub fn copy(&self) -> (r: LogicalPlan)
        ensures
            r@ == self@,
        decreases self,
    {
        let mut inputs: Vec<LogicalPlan> = Vec::new();
        let mut i: usize = 0;
        proof {
            models_stand(self.inputs@);
        }
        while i < self.inputs.len()
            invariant
                i <= self.inputs@.len(),
                inputs@.len() == i,
                models_of(self.inputs@).len() == self.inputs@.len(),
                forall|k: int|
                    0 <= k < self.inputs@.len() ==> #[trigger] models_of(self.inputs@)[k] == model_of(self.inputs@[k]),
                forall|k: int| 0 <= k < i ==> model_of(#[trigger] inputs@[k]) == models_of(self.inputs@)[k],
            decreases self.inputs@.len() - i,
        {
            let p = self.inputs[i].copy();
            proof {
                assert(models_of(self.inputs@)[i as int] == p@);
            }
            inputs.push(p);
            i = i + 1;
        }
        proof {
            models_stand(inputs@);
            assert(models_of(inputs@) =~= models_of(self.inputs@));
        }
        LogicalPlan { operator: self.operator, display: self.display.clone(), table: self.table.clone(), inputs }
    }
}

/// One operator of a flattened plan, and where the operator above it stands.
#[derive(Debug)]
pub struct PlanEntry<'a> {
    pub plan: &'a LogicalPlan,
    pub parent: Option<usize>,
}

/// An entry as the specifications see it.
#[verifier::ext_equal]
pub struct EntryModel {
    pub plan: PlanModel,
    pub parent: Option<int>,
}

/// The entries of a flattened plan.
pub open spec fn entries_of(s: Seq<PlanEntry<'_>>) -> Seq<EntryModel> {
    s.map_values(|e: PlanEntry<'_>| entry_of(e))
}

/// The entry `e`.
pub open spec fn entry_of(e: PlanEntry<'_>) -> EntryModel {
    EntryModel {
        plan: e.plan@,
        parent: match e.parent {
            Some(p) => Some(p as int),
            None => None,
        },
    }
}

/// A plan and all that lies below it, each operator before its inputs, where
/// the first entry has the number `at`.
pub open spec fn flat(p: PlanModel, parent: Option<int>, at: int) -> Seq<EntryModel>
    decreases p,
{
    seq![EntryModel { plan: p, parent }] + flat_list(p.inputs, at, at + 1)
}

/// The plans of a list, flattened one after the other under the operator
/// `parent`.
pub open spec fn flat_list(list: Seq<PlanModel>, parent: int, at: int) -> Seq<EntryModel>
    decreases list, list.len(),
{
    if list.len() == 0 {
        Seq::<EntryModel>::empty()
    } else {
        let before = flat_list(list.drop_last(), parent, at);
        before + flat(list.last(), Some(parent), at + before.len())
    }
}

fn flatten_into<'a>(plan: &'a LogicalPlan, parent: Option<usize>, entries: &mut Vec<PlanEntry<'a>>)
    ensures
        entries_of(final(entries)@) == entries_of(old(entries)@) + flat(
            plan@,
            match parent {
                Some(p) => Some(p as int),
                None => None,
            },
            old(entries)@.len() as int,
        ),
    decreases plan,
{
    let ghost before = entries_of(entries@);
    let idx: usize = entries.len();
    let e = PlanEntry { plan, parent };
    let ghost first = entry_of(e);
    entries.push(e);
    let ghost list = models_of(plan.inputs@);
    let mut i: usize = 0;
    proof {
        assert(entries_of(entries@) =~= before.push(first));
        assert(list.take(0) =~= Seq::<PlanModel>::empty());
        assert(flat_list(list.take(0), idx as int, idx + 1) =~= Seq::<EntryModel>::empty());
        assert(before.push(first) =~= before + seq![first] + flat_list(list.take(0), idx as int, idx + 1));
        models_stand(plan.inputs@);
    }
    while i < plan.inputs.len()
        invariant
            i <= plan.inputs@.len(),
            list == models_of(plan.inputs@),
            list.len() == plan.inputs@.len(),
            before.len() == idx,
            forall|k: int| 0 <= k < plan.inputs@.len() ==> #[trigger] list[k] == model_of(plan.inputs@[k]),
            entries_of(entries@) == before + seq![first] + flat_list(list.take(i as int), idx as int, idx + 1),
        decreases plan.inputs@.len() - i,
    {
        let ghost had = entries_of(entries@);
        proof {
            let t = list.take(i + 1);
            assert(t.drop_last() =~= list.take(i as int));
            assert(t.last() == list[i as int]);
            assert(entries@.len() == had.len());
        }
        flatten_into(&plan.inputs[i], Some(idx), entries);
        proof {
            assert(entries_of(entries@) =~= before + seq![first] + flat_list(list.take(i + 1), idx as int, idx + 1));
        }
        i = i + 1;
    }
    proof {
        assert(list.take(list.len() as int) =~= list);
        assert(entries_of(entries@) =~= before + (seq![first] + flat_list(list, idx as int, idx + 1)));
    }
}

/// A plan with all that lies below it, each operator before its inputs and
/// with a link to the operator above it.
pub fn flatten_plan(plan: &LogicalPlan) -> (r: Vec<PlanEntry<'_>>)
    ensures
        entries_of(r@) == flat(plan@, None, 0),
        r@.len() > 0,
{
    let mut entries: Vec<PlanEntry<'_>> = Vec::new();
    flatten_into(plan, None, &mut entries);
    proof {
        assert(entries_of(Seq::<PlanEntry<'_>>::empty()) =~= Seq::<EntryModel>::empty());
        assert(entries_of(entries@) =~= flat(plan@, None, 0));
    }
    entries
}

/// Every parent link of `entries` points backward, to an operator that has the
/// entry's plan among its inputs.
pub open spec fn linked(entries: Seq<EntryModel>) -> bool {
    forall|i: int|
        0 <= i < entries.len() ==> ((#[trigger] entries[i]).parent matches Some(p) ==> 0 <= p < i
            && entries[p].plan.inputs.contains(entries[i].plan))
}

/// The links of a flattened plan go to operators that have the plan among
/// their inputs, and every operator but the first has one.
pub proof fn flattened_is_linked(p: PlanModel)
    ensures
        linked(flat(p, None, 0)),
        flat(p, None, 0).len() > 0,
        forall|i: int| 0 < i < flat(p, None, 0).len() ==> (#[trigger] flat(p, None, 0)[i]).parent is Some,
{
    links_of(p, None, 0);
    let all = flat(p, None, 0);
    assert forall|i: int| 0 < i < all.len() implies (#[trigger] all[i]).parent is Some && 0 <= all[i].parent->0 < i
        && all[all[i].parent->0].plan.inputs.contains(all[i].plan) by {
        assert(inner_link(all, i, 0));
    }
}

/// The link of an entry of `part`, whose first entry has the number `at`, stays
/// inside the part and goes to an operator with the plan among its inputs.
spec fn inner_link(part: Seq<EntryModel>, i: int, at: int) -> bool {
    part[i].parent matches Some(q) && at <= q < at + i && part[q - at].plan.inputs.contains(part[i].plan)
}

proof fn links_of(p: PlanModel, parent: Option<int>, at: int)
    ensures
        flat(p, parent, at).len() > 0,
        flat(p, parent, at)[0] == (EntryModel { plan: p, parent }),
        forall|i: int| 0 < i < flat(p, parent, at).len() ==> #[trigger] inner_link(flat(p, parent, at), i, at),
    decreases p,
{
    let all = flat(p, parent, at);
    let rest = flat_list(p.inputs, at, at + 1);
    links_of_list(p.inputs, at, at + 1);
    assert forall|i: int| 0 < i < all.len() implies #[trigger] inner_link(all, i, at) by {
        assert(all[i] == rest[i - 1]);
        assert(list_link(rest, p.inputs, i - 1, at, at + 1));
        let q = rest[i - 1].parent->0;
        if q != at {
            assert(all[q - at] == rest[q - (at + 1)]);
        }
    }
}

spec fn list_link(part: Seq<EntryModel>, list: Seq<PlanModel>, i: int, parent: int, at: int) -> bool {
    part[i].parent matches Some(q) && if q == parent {
        list.contains(part[i].plan)
    } else {
        at <= q < at + i && part[q - at].plan.inputs.contains(part[i].plan)
    }
}

proof fn links_of_list(list: Seq<PlanModel>, parent: int, at: int)
    requires
        parent < at,
    ensures
        forall|i: int|
            0 <= i < flat_list(list, parent, at).len() ==> #[trigger] list_link(
                flat_list(list, parent, at),
                list,
                i,
                parent,
                at,
            ),
    decreases list, list.len(),
{
    if list.len() > 0 {
        let all = flat_list(list, parent, at);
        let before = flat_list(list.drop_last(), parent, at);
        let last = flat(list.last(), Some(parent), at + before.len());
        links_of_list(list.drop_last(), parent, at);
        links_of(list.last(), Some(parent), at + before.len());
        assert forall|i: int| 0 <= i < all.len() implies #[trigger] list_link(all, list, i, parent, at) by {
            if i < before.len() {
                assert(list_link(before, list.drop_last(), i, parent, at));
                assert(all[i] == before[i]);
                let q = all[i].parent->0;
                if q == parent {
                    let k = choose|k: int| 0 <= k < list.drop_last().len() && list.drop_last()[k] == all[i].plan;
                    assert(list[k] == all[i].plan);
                } else {
                    assert(all[q - at] == before[q - at]);
                }
            } else {
                let k = i - before.len();
                assert(all[i] == last[k]);
                if k == 0 {
                    assert(list[list.len() - 1] == all[i].plan);
                } else {
                    assert(inner_link(last, k, at + before.len()));
                    let q = all[i].parent->0;
                    assert(all[q - at] == last[q - at - before.len()]);
                }
            }
        }
    }
}

/// A scan of the node `name`, which was factored out.
pub open spec fn scan_of(name: Text) -> PlanModel {
    PlanModel { operator: 0, display: name, table: Some(name), inputs: Seq::<PlanModel>::empty() }
}

/// `p` with a scan of `name` in place of every subtree that is `target`.
pub open spec fn replaced(p: PlanModel, target: PlanModel, name: Text) -> PlanModel
    decreases p,
{
    if p == target {
        scan_of(name)
    } else {
        PlanModel { inputs: replaced_list(p.inputs, target, name), ..p }
    }
}

/// The plans of a list, each with the subtree replaced.
pub open spec fn replaced_list(list: Seq<PlanModel>, target: PlanModel, name: Text) -> Seq<PlanModel>
    decreases list, list.len(),
{
    if list.len() == 0 {
        Seq::<PlanModel>::empty()
    } else {
        replaced_list(list.drop_last(), target, name).push(replaced(list.last(), target, name))
    }
}

proof fn replaced_stand(list: Seq<PlanModel>, target: PlanModel, name: Text)
    ensures
        replaced_list(list, target, name).len() == list.len(),
        forall|i: int|
            0 <= i < list.len() ==> #[trigger] replaced_list(list, target, name)[i] == replaced(list[i], target, name),
    decreases list.len(),
{
    if list.len() > 0 {
        replaced_stand(list.drop_last(), target, name);
        assert forall|i: int| 0 <= i < list.len() implies #[trigger] replaced_list(list, target, name)[i] == replaced(
            list[i],
            target,
            name,
        ) by {
            if i < list.len() - 1 {
                assert(list.drop_last()[i] == list[i]);
            }
        }
    }
}

/// A scan of a node that was factored out.
pub fn factored_scan(name: &str) -> (r: LogicalPlan)
    ensures
        r@ == scan_of(name@),
{
    let inputs: Vec<LogicalPlan> = Vec::new();
    proof {
        assert(models_of(inputs@) =~= Seq::<PlanModel>::empty());
    }
    LogicalPlan { operator: 0, display: name.to_owned(), table: Some(name.to_owned()), inputs }
}

/// `plan` with a scan of `name` in place of every subtree that is `target`.
pub fn replace_subplan(plan: &LogicalPlan, target: &LogicalPlan, name: &str) -> (r: LogicalPlan)
    ensures
        r@ == replaced(plan@, target@, name@),
    decreases plan,
{
    if same_plan(plan, target) {
        return factored_scan(name);
    }
    let ghost list = models_of(plan.inputs@);
    let ghost want = replaced_list(list, target@, name@);
    let mut inputs: Vec<LogicalPlan> = Vec::new();
    let mut i: usize = 0;
    proof {
        models_stand(plan.inputs@);
        replaced_stand(list, target@, name@);
    }
    while i < plan.inputs.len()
        invariant
            i <= plan.inputs@.len(),
            inputs@.len() == i,
            list == models_of(plan.inputs@),
            list.len() == plan.inputs@.len(),
            want.len() == list.len(),
            forall|k: int| 0 <= k < list.len() ==> #[trigger] list[k] == model_of(plan.inputs@[k]),
            forall|k: int| 0 <= k < list.len() ==> #[trigger] want[k] == replaced(list[k], target@, name@),
            forall|k: int| 0 <= k < i ==> model_of(#[trigger] inputs@[k]) == want[k],
        decreases plan.inputs@.len() - i,
    {
        let p = replace_subplan(&plan.inputs[i], target, name);
        proof {
            assert(list[i as int] == plan.inputs@[i as int]@);
            assert(want[i as int] == p@);
        }
        inputs.push(p);
        i = i + 1;
    }
    proof {
        models_stand(inputs@);
        assert(models_of(inputs@) =~= want);
    }
    LogicalPlan { operator: plan.operator, display: plan.display.clone(), table: plan.table.clone(), inputs }
}

/// `s` is `p` or lies below it.
pub open spec fn occurs(p: PlanModel, s: PlanModel) -> bool
    decreases p,
{
    p == s || occurs_in(p.inputs, s)
}

/// `s` is, or lies below, one of the plans of a list.
pub open spec fn occurs_in(list: Seq<PlanModel>, s: PlanModel) -> bool
    decreases list, list.len(),
{
    list.len() > 0 && (occurs_in(list.drop_last(), s) || occurs(list.last(), s))
}

/// Nothing changes where the subtree does not occur.
pub proof fn replacing_nothing(p: PlanModel, target: PlanModel, name: Text)
    requires
        !occurs(p, target),
    ensures
        replaced(p, target, name) == p,
    decreases p,
{
    replacing_nothing_in(p.inputs, target, name);
    assert(replaced(p, target, name) =~= p);
}

proof fn replacing_nothing_in(list: Seq<PlanModel>, target: PlanModel, name: Text)
    requires
        !occurs_in(list, target),
    ensures
        replaced_list(list, target, name) == list,
    decreases list, list.len(),
{
    if list.len() > 0 {
        replacing_nothing_in(list.drop_last(), target, name);
        replacing_nothing(list.last(), target, name);
        assert(list.drop_last().push(list.last()) =~= list);
    } else {
        assert(replaced_list(list, target, name) =~= list);
    }
}

/// Where the subtree occurs, the scan occurs after the replacement.
pub proof fn replacing_leaves_a_scan(p: PlanModel, target: PlanModel, name: Text)
    requires
        occurs(p, target),
    ensures
        occurs(replaced(p, target, name), scan_of(name)),
    decreases p,
{
    if p != target {
        replacing_leaves_a_scan_in(p.inputs, target, name);
    }
}

proof fn replacing_leaves_a_scan_in(list: Seq<PlanModel>, target: PlanModel, name: Text)
    requires
        occurs_in(list, target),
    ensures
        occurs_in(replaced_list(list, target, name), scan_of(name)),
    decreases list, list.len(),
{
    let head = replaced_list(list.drop_last(), target, name);
    let all = replaced_list(list, target, name);
    assert(all.drop_last() =~= head);
    assert(all.last() == replaced(list.last(), target, name));
    if occurs_in(list.drop_last(), target) {
        replacing_leaves_a_scan_in(list.drop_last(), target, name);
    } else {
        replacing_leaves_a_scan(list.last(), target, name);
    }
}

/// After the replacement the subtree occurs nowhere, unless it holds the very
/// scan that replaces it.
pub proof fn replacing_leaves_no_subtree(p: PlanModel, target: PlanModel, name: Text)
    requires
        !occurs(target, scan_of(name)),
    ensures
        !occurs(replaced(p, target, name), target),
    decreases p,
{
    let after = replaced(p, target, name);
    if p == target {
        assert(scan_of(name) != target);
        assert(!occurs_in(scan_of(name).inputs, target));
    } else {
        replacing_leaves_no_subtree_in(p.inputs, target, name);
        if after == target {
            if occurs(p, target) {
                replacing_leaves_a_scan(p, target, name);
            } else {
                replacing_nothing(p, target, name);
            }
        }
    }
}

proof fn replacing_leaves_no_subtree_in(list: Seq<PlanModel>, target: PlanModel, name: Text)
    requires
        !occurs(target, scan_of(name)),
    ensures
        !occurs_in(replaced_list(list, target, name), target),
    decreases list, list.len(),
{
    if list.len() > 0 {
        let head = replaced_list(list.drop_last(), target, name);
        let all = replaced_list(list, target, name);
        assert(all.drop_last() =~= head);
        assert(all.last() == replaced(list.last(), target, name));
        replacing_leaves_no_subtree_in(list.drop_last(), target, name);
        replacing_leaves_no_subtree(list.last(), target, name);
    }
}

/// The nodes that a plan scans.
pub open spec fn scanned(p: PlanModel) -> Set<Text>
    decreases p,
{
    match p.table {
        Some(t) => scanned_in(p.inputs).insert(t),
        None => scanned_in(p.inputs),
    }
}

/// The nodes that the plans of a list scan.
pub open spec fn scanned_in(list: Seq<PlanModel>) -> Set<Text>
    decreases list, list.len(),
{
    if list.len() == 0 {
        Set::<Text>::empty()
    } else {
        scanned_in(list.drop_last()).union(scanned(list.last()))
    }
}

/// The nodes of the graph that a plan scans.
pub open spec fn reads(p: PlanModel, g: GraphModel) -> Set<Text> {
    scanned(p).intersect(g.dom())
}

/// A plan that holds a scan scans that node.
pub proof fn a_scan_is_scanned(p: PlanModel, name: Text)
    requires
        occurs(p, scan_of(name)),
    ensures
        scanned(p).contains(name),
    decreases p,
{
    if p != scan_of(name) {
        a_scan_is_scanned_in(p.inputs, name);
    }
}

proof fn a_scan_is_scanned_in(list: Seq<PlanModel>, name: Text)
    requires
        occurs_in(list, scan_of(name)),
    ensures
        scanned_in(list).contains(name),
    decreases list, list.len(),
{
    if occurs_in(list.drop_last(), scan_of(name)) {
        a_scan_is_scanned_in(list.drop_last(), name);
    } else {
        a_scan_is_scanned(list.last(), name);
    }
}

/// Adds the nodes of the graph that a plan scans to `deps`.
pub fn collect_dep_ids(plan: &LogicalPlan, minor: &Graph, deps: &mut Vec<String>)
    requires
        minor.wf(),
    ensures
        texts(final(deps)@).to_set() == texts(old(deps)@).to_set().union(reads(plan@, minor@)),
    decreases plan,
{
    let ghost g = minor@;
    let ghost before = texts(deps@).to_set();
    let ghost own: Set<Text> = match table_text(plan.table) {
        Some(t) => Set::<Text>::empty().insert(t),
        None => Set::<Text>::empty(),
    };
    if let Some(t) = &plan.table {
        if minor.position(t.as_str()).is_some() {
            let ghost had = texts(deps@);
            deps.push(t.clone());
            proof {
                assert(texts(deps@) =~= had.push(t@));
                crate::dag::pushed_to_set(had, t@);
                assert(texts(deps@).to_set() =~= before.union(own.intersect(g.dom())));
            }
        } else {
            proof {
                assert(texts(deps@).to_set() =~= before.union(own.intersect(g.dom())));
            }
        }
    } else {
        proof {
            assert(texts(deps@).to_set() =~= before.union(own.intersect(g.dom())));
        }
    }
    let ghost list = models_of(plan.inputs@);
    let mut i: usize = 0;
    proof {
        models_stand(plan.inputs@);
        assert(list.take(0) =~= Seq::<PlanModel>::empty());
        assert(texts(deps@).to_set() =~= before.union(own.union(scanned_in(list.take(0))).intersect(g.dom())));
    }
    while i < plan.inputs.len()
        invariant
            i <= plan.inputs@.len(),
            minor.wf(),
            g == minor@,
            list == models_of(plan.inputs@),
            list.len() == plan.inputs@.len(),
            forall|k: int| 0 <= k < list.len() ==> #[trigger] list[k] == model_of(plan.inputs@[k]),
            texts(deps@).to_set() == before.union(own.union(scanned_in(list.take(i as int))).intersect(g.dom())),
        decreases plan.inputs@.len() - i,
    {
        proof {
            let t = list.take(i + 1);
            assert(t.drop_last() =~= list.take(i as int));
            assert(t.last() == list[i as int]);
        }
        collect_dep_ids(&plan.inputs[i], minor, deps);
        proof {
            assert(texts(deps@).to_set() =~= before.union(
                own.union(scanned_in(list.take(i + 1))).intersect(g.dom()),
            ));
        }
        i = i + 1;
    }
    proof {
        assert(list.take(list.len() as int) =~= list);
        assert(own.union(scanned_in(list)) =~= scanned(plan@));
    }
}

/// What lies in a plan is the plan itself or lies in one of its inputs.
pub proof fn a_subtree_lies_in_an_input(p: PlanModel, s: PlanModel)
    ensures
        occurs(p, s) <==> p == s || exists|i: int| 0 <= i < p.inputs.len() && occurs(#[trigger] p.inputs[i], s),
{
    occurs_at_one_place(p.inputs, s);
}

/// What lies in a list of plans lies in one of them.
proof fn occurs_at_one_place(list: Seq<PlanModel>, s: PlanModel)
    ensures
        occurs_in(list, s) <==> exists|i: int| 0 <= i < list.len() && occurs(#[trigger] list[i], s),
    decreases list.len(),
{
    if list.len() > 0 {
        let short = list.drop_last();
        occurs_at_one_place(short, s);
        if occurs_in(short, s) {
            let i = choose|i: int| 0 <= i < short.len() && occurs(#[trigger] short[i], s);
            assert(occurs(list[i], s));
        }
        if occurs(list.last(), s) {
            assert(occurs(list[list.len() - 1], s));
        }
        if exists|i: int| 0 <= i < list.len() && occurs(#[trigger] list[i], s) {
            let i = choose|i: int| 0 <= i < list.len() && occurs(#[trigger] list[i], s);
            if i < list.len() - 1 {
                assert(occurs(short[i], s));
            }
        }
    }
}

/// A plan scans its own table, where it has one, and what its inputs scan.
pub proof fn a_plan_scans_what_its_inputs_scan(p: PlanModel, t: Text)
    ensures
        scanned(p).contains(t) <==> p.table == Some(t) || exists|i: int|
            0 <= i < p.inputs.len() && scanned(#[trigger] p.inputs[i]).contains(t),
{
    scanned_at_one_place(p.inputs, t);
}

/// What a list of plans scans, one of them scans.
proof fn scanned_at_one_place(list: Seq<PlanModel>, t: Text)
    ensures
        scanned_in(list).contains(t) <==> exists|i: int|
            0 <= i < list.len() && scanned(#[trigger] list[i]).contains(t),
    decreases list.len(),
{
    if list.len() > 0 {
        let short = list.drop_last();
        scanned_at_one_place(short, t);
        if scanned_in(short).contains(t) {
            let i = choose|i: int| 0 <= i < short.len() && scanned(#[trigger] short[i]).contains(t);
            assert(scanned(list[i]).contains(t));
        }
        if scanned(list.last()).contains(t) {
            assert(scanned(list[list.len() - 1]).contains(t));
        }
        if exists|i: int| 0 <= i < list.len() && scanned(#[trigger] list[i]).contains(t) {
            let i = choose|i: int| 0 <= i < list.len() && scanned(#[trigger] list[i]).contains(t);
            if i < list.len() - 1 {
                assert(scanned(short[i]).contains(t));
            }
        }
    }
}

/// Replacing a subtree leaves an operator above it what it is, with as many
/// inputs, and replaces in each of them.
pub proof fn replacing_keeps_what_is_above(p: PlanModel, target: PlanModel, name: Text)
    requires
        p != target,
    ensures
        replaced(p, target, name).operator == p.operator,
        replaced(p, target, name).display == p.display,
        replaced(p, target, name).table == p.table,
        replaced(p, target, name).inputs.len() == p.inputs.len(),
        forall|i: int|
            0 <= i < p.inputs.len() ==> #[trigger] replaced(p, target, name).inputs[i] == replaced(
                p.inputs[i],
                target,
                name,
            ),
{
    replacing_each(p.inputs, target, name);
}

/// Each plan of a list is replaced in, at its place.
proof fn replacing_each(list: Seq<PlanModel>, target: PlanModel, name: Text)
    ensures
        replaced_list(list, target, name).len() == list.len(),
        forall|i: int|
            0 <= i < list.len() ==> #[trigger] replaced_list(list, target, name)[i] == replaced(list[i], target, name),
    decreases list.len(),
{
    if list.len() > 0 {
        replacing_each(list.drop_last(), target, name);
        assert forall|i: int| 0 <= i < list.len() implies #[trigger] replaced_list(list, target, name)[i] == replaced(
            list[i],
            target,
            name,
        ) by {
            if i < list.len() - 1 {
                assert(replaced_list(list.drop_last(), target, name)[i] == replaced(list.drop_last()[i], target, name));
            }
        }
    }
}

/// The operators of a plan, counted.
pub open spec fn operators_in(p: PlanModel) -> nat
    decreases p,
{
    1 + operators_of(p.inputs)
}

/// The operators of a list of plans, counted.
pub open spec fn operators_of(list: Seq<PlanModel>) -> nat
    decreases list, list.len(),
{
    if list.len() == 0 {
        0
    } else {
        operators_of(list.drop_last()) + operators_in(list.last())
    }
}

/// A flattened plan has one entry for each operator, the plan itself first.
pub proof fn every_operator_has_one_entry(p: PlanModel, parent: Option<int>, at: int)
    ensures
        flat(p, parent, at).len() == operators_in(p),
        flat(p, parent, at)[0].plan == p,
        flat(p, parent, at)[0].parent == parent,
    decreases p,
{
    every_operator_of_a_list_has_one_entry(p.inputs, at, at + 1);
}

/// So has a flattened list of plans.
proof fn every_operator_of_a_list_has_one_entry(list: Seq<PlanModel>, parent: int, at: int)
    ensures
        flat_list(list, parent, at).len() == operators_of(list),
    decreases list, list.len(),
{
    if list.len() > 0 {
        let before = flat_list(list.drop_last(), parent, at);
        every_operator_of_a_list_has_one_entry(list.drop_last(), parent, at);
        every_operator_has_one_entry(list.last(), Some(parent), at + before.len());
    }
}

} // verus!
