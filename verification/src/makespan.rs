//! How long the graph would take, as opposed to how much work it would do.
//!
//! Makespan is a longest path, not a sum: the graph finishes when its slowest
//! chain does, and everything off that chain is free. Times are whole numbers
//! of microseconds.

use vstd::prelude::*;

use crate::combo::Scored;
use crate::dag::{Dag, Graph, GraphModel};
use crate::dup::{ConsumerCost, DuplicateCost, MemberBuild};
use crate::plan::{add_capped, cap64};
use crate::search::clamped;
use crate::text::{contains_text, text_eq, texts, Text};
use crate::topo::stable_topo_builds_dependencies_first;
use crate::walk::reads;

verus! {

/// What one node costs.
#[derive(Debug)]
pub struct NodeCost {
    pub node: String,
    pub cost: u64,
}

/// The cost that `costs`, from `from` on, gives `node`.
pub open spec fn cost_from(costs: Seq<NodeCost>, node: Text, from: nat) -> Option<u64>
    decreases costs.len() - from,
{
    if from >= costs.len() {
        None
    } else if costs[from as int].node@ == node {
        Some(costs[from as int].cost)
    } else {
        cost_from(costs, node, from + 1)
    }
}

/// The cost that `costs` gives `node`.
pub open spec fn cost_in(costs: Seq<NodeCost>, node: Text) -> Option<u64> {
    cost_from(costs, node, 0)
}

/// What each node costs: what `costs` says, and nothing where it is silent.
pub open spec fn charged(costs: Seq<NodeCost>) -> spec_fn(Text) -> nat {
    |node: Text|
        match cost_in(costs, node) {
            Some(c) => c as nat,
            None => 0,
        }
}

/// The cost that `costs` gives `node`.
pub fn lookup_cost(costs: &Vec<NodeCost>, node: &str) -> (r: Option<u64>)
    ensures
        r == cost_in(costs@, node@),
{
    let mut i: usize = 0;
    while i < costs.len()
        invariant
            i <= costs@.len(),
            cost_in(costs@, node@) == cost_from(costs@, node@, i as nat),
        decreases costs@.len() - i,
    {
        if text_eq(costs[i].node.as_str(), node) {
            return Some(costs[i].cost);
        }
        i = i + 1;
    }
    None
}

/// `p` is a chain of nodes of `within`, each of which reads the one before it.
pub open spec fn chain(g: GraphModel, within: Set<Text>, p: Seq<Text>) -> bool
    decreases p.len(),
{
    &&& p.len() > 0
    &&& within.contains(p.last())
    &&& p.len() > 1 ==> chain(g, within, p.drop_last()) && reads(g, p.last(), p.drop_last().last())
}

/// What the nodes of a chain cost together.
pub open spec fn weight(cost: spec_fn(Text) -> nat, p: Seq<Text>) -> nat
    decreases p.len(),
{
    if p.len() == 0 {
        0
    } else {
        weight(cost, p.drop_last()) + cost(p.last())
    }
}

/// No chain to the node that `p` ends in costs more than `p`.
pub open spec fn longest_to(g: GraphModel, within: Set<Text>, cost: spec_fn(Text) -> nat, p: Seq<Text>) -> bool {
    &&& chain(g, within, p)
    &&& forall|q: Seq<Text>| #[trigger] chain(g, within, q) && q.last() == p.last() ==> weight(cost, q) <= weight(cost, p)
}

/// Each node of `p` waits for the one before it: every beginning of `p` is a
/// most costly chain to where it ends, and nothing that costs anything leads
/// to the first node.
pub open spec fn waits(g: GraphModel, within: Set<Text>, cost: spec_fn(Text) -> nat, p: Seq<Text>) -> bool
    decreases p.len(),
{
    &&& longest_to(g, within, cost, p)
    &&& if p.len() > 1 {
        waits(g, within, cost, p.drop_last()) && weight(cost, p.drop_last()) > 0
    } else {
        weight(cost, p) == cost(p.last())
    }
}

/// `total` and `path` are the most costly chain of `within`: nothing, where
/// there is no node.
pub open spec fn critical(
    g: GraphModel,
    within: Set<Text>,
    cost: spec_fn(Text) -> nat,
    total: nat,
    path: Seq<Text>,
) -> bool {
    if path.len() == 0 {
        total == 0 && forall|q: Seq<Text>| !(#[trigger] chain(g, within, q))
    } else {
        &&& waits(g, within, cost, path)
        &&& weight(cost, path) == total
        &&& forall|q: Seq<Text>| #[trigger] chain(g, within, q) ==> weight(cost, q) <= total
    }
}

/// The nodes that can be built: those of the graph's building order.
pub open spec fn buildable(g: GraphModel) -> Set<Text> {
    Set::new(|d: Text| g.contains_key(d) && crate::topo::grounded(g, d))
}

/// The way back from place `k` along `from`.
spec fn trace(order: Seq<Text>, from: Seq<Option<usize>>, k: int) -> Seq<Text>
    decreases k,
{
    match from[k] {
        Some(j) => if 0 <= j < k {
            trace(order, from, j as int).push(order[k])
        } else {
            seq![order[k]]
        },
        None => seq![order[k]],
    }
}

proof fn trace_last(order: Seq<Text>, from: Seq<Option<usize>>, k: int)
    ensures
        trace(order, from, k).len() > 0,
        trace(order, from, k).last() == order[k],
{
}

proof fn trace_prefix(order: Seq<Text>, a: Seq<Option<usize>>, b: Seq<Option<usize>>, k: int)
    requires
        0 <= k < a.len() <= b.len(),
        forall|i: int| 0 <= i < a.len() ==> a[i] == b[i],
    ensures
        trace(order, a, k) == trace(order, b, k),
    decreases k,
{
    if let Some(j) = a[k] {
        if 0 <= j < k {
            trace_prefix(order, a, b, j as int);
        }
    }
}

/// The longest weighted path through the graph, and the nodes on it, first to
/// last. Nodes on a cycle or behind one are left out.
pub fn longest_path(g: &Graph, costs: &Vec<NodeCost>) -> (r: (u128, Vec<String>))
    requires
        g.wf(),
    ensures
        critical(g@, buildable(g@), charged(costs@), r.0 as nat, texts(r.1@)),
{
    let order = g.topological_sort();
    let ghost topo = texts(order@);
    let ghost within = buildable(g@);
    let ghost cost = charged(costs@);
    proof {
        stable_topo_builds_dependencies_first(g@, g@.dom(), topo);
        assert forall|t: Text| within.contains(t) == topo.contains(t) by {
            if g@.contains_key(t) {
                crate::topo::stable_topo_is_grounded(g@, topo, t);
            }
            if topo.contains(t) {
                let k = choose|k: int| 0 <= k < topo.len() && topo[k] == t;
                assert(g@.contains_key(topo[k]));
            }
        }
    }
    let mut finish: Vec<u128> = Vec::new();
    let mut from: Vec<Option<usize>> = Vec::new();
    let mut i: usize = 0;
    while i < order.len()
        invariant
            i <= order@.len(),
            g.wf(),
            topo == texts(order@),
            within == buildable(g@),
            cost == charged(costs@),
            topo.no_duplicates(),
            forall|t: Text| within.contains(t) == topo.contains(t),
            forall|k: int, a: Text|
                0 <= k < topo.len() && #[trigger] reads(g@, topo[k], a) && g@.dom().contains(a) ==> topo.take(k).contains(a),
            forall|k: int| 0 <= k < topo.len() ==> g@.contains_key(#[trigger] topo[k]),
            finish@.len() == i,
            from@.len() == i,
            forall|k: int|
                0 <= k < i ==> {
                    &&& #[trigger] finish@[k] == weight(cost, trace(topo, from@, k))
                    &&& finish@[k] <= u64::MAX * (k + 1)
                    &&& waits(g@, within, cost, trace(topo, from@, k))
                },
        decreases order@.len() - i,
    {
        let id = order[i].as_str();
        proof {
            assert(topo[i as int] == id@);
        }
        let mut start: u128 = 0;
        let mut blocker: Option<usize> = None;
        let mut k: usize = 0;
        if let Some(node) = g.get(id) {
            while k < i
                invariant
                    i < order@.len(),
                    k <= i,
                    topo == texts(order@),
                    topo[i as int] == id@,
                    g@.contains_key(id@),
                    node@ == g@[id@],
                    finish@.len() == i,
                    match blocker {
                        None => start == 0 && forall|j: int|
                            0 <= j < k && #[trigger] reads(g@, id@, topo[j]) ==> finish@[j] == 0,
                        Some(b) => b < k && start > 0 && start == finish@[b as int] && reads(g@, id@, topo[b as int])
                            && forall|j: int| 0 <= j < k && #[trigger] reads(g@, id@, topo[j]) ==> finish@[j] <= start,
                    },
                decreases i - k,
            {
                proof {
                    assert(topo[k as int] == order@[k as int]@);
                }
                if contains_text(&node.depends_on, order[k].as_str()) && finish[k] > start {
                    start = finish[k];
                    blocker = Some(k);
                }
                k = k + 1;
            }
        }
        let own: u64 = match lookup_cost(costs, id) {
            Some(c) => c,
            None => 0,
        };
        let ghost old_from = from@;
        proof {
            match blocker {
                None => {},
                Some(b) => {
                    assert(finish@[b as int] <= u64::MAX * (b + 1));
                    assert(u64::MAX * (b + 1) <= u64::MAX * i) by (nonlinear_arith)
                        requires
                            b + 1 <= i,
                    ;
                },
            }
            assert(start + own <= u64::MAX * (i + 1)) by (nonlinear_arith)
                requires
                    start <= u64::MAX * i,
                    own <= u64::MAX,
            ;
            assert(u64::MAX * (i + 1) <= u128::MAX) by (nonlinear_arith)
                requires
                    i + 1 <= 0xffff_ffff_ffff_ffff,
            ;
        }
        finish.push(start + own as u128);
        from.push(blocker);
        proof {
            let at = i as int;
            assert forall|k: int| 0 <= k < at implies {
                &&& #[trigger] finish@[k] == weight(cost, trace(topo, from@, k))
                &&& finish@[k] <= u64::MAX * (k + 1)
                &&& waits(g@, within, cost, trace(topo, from@, k))
            } by {
                trace_prefix(topo, old_from, from@, k);
            }
            let p = trace(topo, from@, at);
            trace_last(topo, from@, at);
            assert(within.contains(topo[at]));
            match blocker {
                None => {
                    assert(p =~= seq![id@]);
                    assert(p.drop_last() =~= Seq::<Text>::empty());
                    assert(weight(cost, Seq::<Text>::empty()) == 0);
                },
                Some(b) => {
                    trace_last(topo, from@, b as int);
                    assert(p.drop_last() =~= trace(topo, from@, b as int));
                    assert(finish@[b as int] == weight(cost, trace(topo, from@, b as int)));
                },
            }
            assert(cost(p.last()) == own);
            assert(weight(cost, p) == start + own);
            assert(chain(g@, within, p));
            assert forall|q: Seq<Text>| #[trigger] chain(g@, within, q) && q.last() == p.last() implies weight(cost, q)
                <= weight(cost, p) by {
                if q.len() > 1 {
                    let head = q.drop_last();
                    let a = head.last();
                    assert(chain(g@, within, head));
                    assert(reads(g@, id@, a));
                    assert(within.contains(a));
                    assert(topo.take(at).contains(a));
                    let j = choose|j: int| 0 <= j < topo.take(at).len() && topo.take(at)[j] == a;
                    assert(topo[j] == a);
                    assert(reads(g@, id@, topo[j]));
                    trace_last(topo, from@, j);
                    assert(finish@[j] == weight(cost, trace(topo, from@, j)));
                    assert(waits(g@, within, cost, trace(topo, from@, j)));
                    assert(weight(cost, head) <= finish@[j]);
                    assert(finish@[j] <= start);
                    assert(weight(cost, q) == weight(cost, head) + own);
                } else {
                    assert(q.drop_last() =~= Seq::<Text>::empty());
                    assert(weight(cost, Seq::<Text>::empty()) == 0);
                    assert(weight(cost, q) == own);
                }
            }
            assert(longest_to(g@, within, cost, p));
            match blocker {
                None => {
                    assert(p.len() == 1);
                },
                Some(b) => {
                    assert(finish@[b as int] == start);
                    assert(waits(g@, within, cost, p.drop_last()));
                },
            }
            assert(waits(g@, within, cost, p));
            assert(finish@[at] == weight(cost, p));
            assert(finish@[at] <= u64::MAX * (at + 1));
            assert forall|k: int| 0 <= k < at + 1 implies {
                &&& #[trigger] finish@[k] == weight(cost, trace(topo, from@, k))
                &&& finish@[k] <= u64::MAX * (k + 1)
                &&& waits(g@, within, cost, trace(topo, from@, k))
            } by {
                if k < at {
                    assert(finish@[k] == weight(cost, trace(topo, from@, k)));
                }
            }
        }
        i = i + 1;
    }
    if order.len() == 0 {
        proof {
            assert forall|q: Seq<Text>| !(#[trigger] chain(g@, within, q)) by {
                if chain(g@, within, q) {
                    assert(topo.contains(q.last()));
                }
            }
        }
        return (0, Vec::new());
    }
    let mut last: usize = 0;
    let mut k: usize = 1;
    while k < order.len()
        invariant
            1 <= k <= order@.len() == finish@.len(),
            last < k,
            forall|j: int| 0 <= j < k ==> #[trigger] finish@[j] <= finish@[last as int],
        decreases order@.len() - k,
    {
        if finish[k] > finish[last] {
            last = k;
        }
        k = k + 1;
    }
    let total: u128 = finish[last];
    let mut back: Vec<usize> = Vec::new();
    let mut at: usize = last;
    let mut more = true;
    while more
        invariant
            at < order@.len() == from@.len(),
            last < order@.len(),
            topo == texts(order@),
            forall|j: int| 0 <= j < back@.len() ==> (#[trigger] back@[j]) < order@.len(),
            more ==> trace(topo, from@, last as int) == trace(topo, from@, at as int) + reversed(topo, back@),
            !more ==> trace(topo, from@, last as int) == reversed(topo, back@),
        decreases at + if more { 1int } else { 0 },
    {
        let ghost old_back = back@;
        back.push(at);
        proof {
            assert(reversed(topo, back@) =~= seq![topo[at as int]] + reversed(topo, old_back));
        }
        match from[at] {
            Some(j) => {
                if j < at {
                    proof {
                        assert(trace(topo, from@, at as int) + reversed(topo, old_back) =~= trace(topo, from@, j as int)
                            + reversed(topo, back@));
                    }
                    at = j;
                } else {
                    more = false;
                }
            },
            None => {
                more = false;
            },
        }
    }
    let mut path: Vec<String> = Vec::new();
    let mut b: usize = back.len();
    proof {
        assert(texts(path@) =~= reversed(topo, back@).take(0));
    }
    while b > 0
        invariant
            b <= back@.len(),
            topo == texts(order@),
            forall|j: int| 0 <= j < back@.len() ==> (#[trigger] back@[j]) < order@.len(),
            texts(path@) == reversed(topo, back@).take(back@.len() - b),
        decreases b,
    {
        b = b - 1;
        let ghost had = texts(path@);
        path.push(order[back[b]].clone());
        proof {
            let all = reversed(topo, back@);
            let n = back@.len() - b;
            assert(all[n - 1] == topo[back@[b as int] as int]);
            assert(texts(path@) =~= had.push(all[n - 1]));
            assert(all.take(n) =~= all.take(n - 1).push(all[n - 1]));
        }
    }
    proof {
        let all = reversed(topo, back@);
        assert(all.take(back@.len() as int) =~= all);
        let p = trace(topo, from@, last as int);
        trace_last(topo, from@, last as int);
        assert(waits(g@, within, cost, p)) by {
            assert(finish@[last as int] == weight(cost, p));
        }
        assert forall|q: Seq<Text>| #[trigger] chain(g@, within, q) implies weight(cost, q) <= total by {
            assert(topo.contains(q.last()));
            let j = choose|j: int| 0 <= j < topo.len() && topo[j] == q.last();
            trace_last(topo, from@, j);
            assert(finish@[j] == weight(cost, trace(topo, from@, j)));
            assert(longest_to(g@, within, cost, trace(topo, from@, j)));
        }
    }
    (total, path)
}

/// The members of `order` at the places `at`, from the last place to the first.
spec fn reversed(order: Seq<Text>, at: Seq<usize>) -> Seq<Text> {
    Seq::new(at.len(), |i: int| order[at[at.len() - 1 - i] as int])
}

/// The longest weighted path through `dag`, and the nodes on it. A node that
/// `costs` does not name costs nothing.
pub fn critical_path(dag: &Dag, costs: &Vec<NodeCost>) -> (r: (u128, Vec<String>))
    requires
        dag.wf(),
    ensures
        critical(dag.nodes@, buildable(dag.nodes@), charged(costs@), r.0 as nat, texts(r.1@)),
{
    longest_path(&dag.nodes, costs)
}

/// The most costly chain is what it is: its cost does not depend on how it was
/// found.
pub proof fn critical_unique(
    g: GraphModel,
    within: Set<Text>,
    cost: spec_fn(Text) -> nat,
    t1: nat,
    p1: Seq<Text>,
    t2: nat,
    p2: Seq<Text>,
)
    requires
        critical(g, within, cost, t1, p1),
        critical(g, within, cost, t2, p2),
    ensures
        t1 == t2,
{
    if p1.len() > 0 && p2.len() > 0 {
        assert(chain(g, within, p1));
        assert(chain(g, within, p2));
    } else if p1.len() > 0 {
        assert(chain(g, within, p1));
    } else if p2.len() > 0 {
        assert(chain(g, within, p2));
    }
}

proof fn weight_monotone(a: spec_fn(Text) -> nat, b: spec_fn(Text) -> nat, p: Seq<Text>)
    requires
        forall|i: int| 0 <= i < p.len() ==> #[trigger] a(p[i]) <= b(p[i]),
    ensures
        weight(a, p) <= weight(b, p),
    decreases p.len(),
{
    if p.len() > 0 {
        let head = p.drop_last();
        assert forall|i: int| 0 <= i < head.len() implies #[trigger] a(head[i]) <= b(head[i]) by {
            assert(a(p[i]) <= b(p[i]));
        }
        weight_monotone(a, b, head);
        assert(a(p[p.len() - 1]) <= b(p[p.len() - 1]));
    }
}

/// A branch that nothing touches sets a floor: where no node of a chain costs
/// less than it used to, the graph takes at least what that chain used to
/// take.
pub proof fn untouched_chain_is_a_floor(
    g: GraphModel,
    within: Set<Text>,
    before: spec_fn(Text) -> nat,
    after: spec_fn(Text) -> nat,
    total: nat,
    path: Seq<Text>,
    q: Seq<Text>,
)
    requires
        critical(g, within, after, total, path),
        chain(g, within, q),
        forall|i: int| 0 <= i < q.len() ==> #[trigger] before(q[i]) <= after(q[i]),
    ensures
        weight(before, q) <= total,
{
    weight_monotone(before, after, q);
}

/// What the graph took, from the run it already had: the longest path over
/// measured times alone.
pub fn measured_baseline(dag: &Dag, measured: &Vec<NodeCost>) -> (r: u128)
    requires
        dag.wf(),
    ensures
        exists|path: Seq<Text>|
            #[trigger] critical(dag.nodes@, buildable(dag.nodes@), charged(measured@), r as nat, path),
{
    let (total, path) = longest_path(&dag.nodes, measured);
    total
}

/// One for each member of the set, and nothing for any other node.
pub open spec fn membership(set: Set<Text>) -> spec_fn(Text) -> nat {
    |node: Text|
        if set.contains(node) {
            1nat
        } else {
            0
        }
}

/// `r` is the largest number of members of `set` that lie on one chain of the
/// graph.
pub open spec fn stage_count(g: GraphModel, set: Set<Text>, r: nat) -> bool {
    &&& r == 0 || exists|p: Seq<Text>| #[trigger] chain(g, buildable(g), p) && weight(membership(set), p) == r
    &&& forall|p: Seq<Text>| #[trigger] chain(g, buildable(g), p) ==> weight(membership(set), p) <= r
}

/// A costing by ones and zeros weighs what the membership does.
proof fn weight_same(a: spec_fn(Text) -> nat, b: spec_fn(Text) -> nat, p: Seq<Text>)
    requires
        forall|t: Text| #[trigger] a(t) == b(t),
    ensures
        weight(a, p) == weight(b, p),
    decreases p.len(),
{
    if p.len() > 0 {
        weight_same(a, b, p.drop_last());
    }
}

/// A chain weighs at most one per node.
proof fn weight_at_most_length(set: Set<Text>, p: Seq<Text>)
    ensures
        weight(membership(set), p) <= p.len(),
    decreases p.len(),
{
    if p.len() > 0 {
        weight_at_most_length(set, p.drop_last());
    }
}

/// The longest chain of `set` members in `dag`: members on one chain build in
/// sequence, members on independent branches at the same time.
pub fn stages(dag: &Dag, set: &Vec<String>) -> (r: usize)
    requires
        dag.wf(),
    ensures
        stage_count(dag.nodes@, texts(set@).to_set(), r as nat),
{
    let mut costs: Vec<NodeCost> = Vec::new();
    let mut i: usize = 0;
    while i < set.len()
        invariant
            i <= set@.len(),
            costs@.len() == i,
            forall|k: int| 0 <= k < i ==> (#[trigger] costs@[k]).node@ == set@[k]@ && costs@[k].cost == 1,
        decreases set@.len() - i,
    {
        costs.push(NodeCost { node: set[i].clone(), cost: 1 });
        i = i + 1;
    }
    let ghost members = texts(set@).to_set();
    let (total, path) = longest_path(&dag.nodes, &costs);
    let ghost g = dag.nodes@;
    let ghost within = buildable(g);
    proof {
        let a = charged(costs@);
        let b = membership(members);
        assert forall|t: Text| #[trigger] a(t) == b(t) by {
            ones_found(costs@, t, 0);
            if members.contains(t) {
                let k = choose|k: int| 0 <= k < texts(set@).len() && texts(set@)[k] == t;
                assert(costs@[k].node@ == t);
            } else if cost_in(costs@, t) is Some {
                let k = choose|k: int| 0 <= k < costs@.len() && (#[trigger] costs@[k]).node@ == t;
                assert(texts(set@)[k] == t);
            }
        }
        assert forall|p: Seq<Text>| #[trigger] chain(g, within, p) implies weight(b, p) <= total by {
            weight_same(a, b, p);
        }
        if path@.len() > 0 {
            let p = texts(path@);
            weight_same(a, b, p);
            assert(chain(g, within, p));
            weight_at_most_length(members, p);
            assert(p.len() == path.len());
        }
    }
    total as usize
}

proof fn ones_found(costs: Seq<NodeCost>, t: Text, from: nat)
    requires
        forall|k: int| 0 <= k < costs.len() ==> (#[trigger] costs[k]).cost == 1,
    ensures
        match cost_from(costs, t, from) {
            Some(c) => c == 1 && exists|k: int| from <= k < costs.len() && (#[trigger] costs[k]).node@ == t,
            None => forall|k: int| from <= k < costs.len() ==> (#[trigger] costs[k]).node@ != t,
        },
    decreases costs.len() - from,
{
    if from < costs.len() {
        assert(costs[from as int].cost == 1);
        if costs[from as int].node@ != t {
            ones_found(costs, t, from + 1);
        }
    }
}

/// More members never make for fewer stages.
pub proof fn stages_monotone(g: GraphModel, small: Set<Text>, large: Set<Text>, a: nat, b: nat)
    requires
        small.subset_of(large),
        stage_count(g, small, a),
        stage_count(g, large, b),
    ensures
        a <= b,
{
    if a > 0 {
        let p = choose|p: Seq<Text>| #[trigger] chain(g, buildable(g), p) && weight(membership(small), p) == a;
        weight_monotone(membership(small), membership(large), p);
    }
}

/// `total` is what the most costly chain through the graph costs.
pub open spec fn critical_time(g: GraphModel, cost: spec_fn(Text) -> nat, total: nat) -> bool {
    exists|path: Seq<Text>| #[trigger] critical(g, buildable(g), cost, total, path)
}

/// Where no node costs less, the most costly chain does not.
pub proof fn critical_monotone(
    g: GraphModel,
    low: spec_fn(Text) -> nat,
    high: spec_fn(Text) -> nat,
    a: nat,
    b: nat,
)
    requires
        forall|t: Text| #[trigger] low(t) <= high(t),
        critical_time(g, low, a),
        critical_time(g, high, b),
    ensures
        a <= b,
{
    let p = choose|p: Seq<Text>| #[trigger] critical(g, buildable(g), low, a, p);
    let q = choose|q: Seq<Text>| #[trigger] critical(g, buildable(g), high, b, q);
    if p.len() > 0 {
        weight_monotone(low, high, p);
        assert(waits(g, buildable(g), low, p));
        assert(chain(g, buildable(g), p));
        if q.len() == 0 {
            assert(!chain(g, buildable(g), p));
        }
    }
}

/// A predicted makespan and the shape behind it.
#[derive(Debug)]
pub struct MakespanEstimate {
    /// How long the graph would take.
    pub makespan: u128,
    /// How long the untouched graph takes, by measured times alone.
    pub baseline: u128,
    /// How many builds of members have to follow one another.
    pub stages: usize,
    /// The nodes on the predicted critical path, source-most first.
    pub critical_path: Vec<String>,
}

/// What the last entry for `consumer` from `from` on says.
pub open spec fn spent_by(costs: Seq<ConsumerCost>, consumer: Text, from: nat) -> Option<u64>
    decreases costs.len() - from,
{
    if from >= costs.len() {
        None
    } else {
        match spent_by(costs, consumer, from + 1) {
            Some(c) => Some(c),
            None => if costs[from as int].consumer@ == consumer {
                Some(costs[from as int].cost)
            } else {
                None
            },
        }
    }
}

/// A consumer has both a measured and an estimated time.
pub open spec fn calibrates(c: ConsumerCost, measured: Seq<NodeCost>) -> bool {
    c.cost > 0 && cost_in(measured, c.consumer@) is Some
}

/// What the consumers that calibrate measured, over the first `n`.
pub open spec fn measured_sum(total: Seq<ConsumerCost>, measured: Seq<NodeCost>, n: nat) -> nat
    decreases n,
{
    if n == 0 {
        0
    } else {
        let rest = measured_sum(total, measured, (n - 1) as nat);
        if calibrates(total[n - 1], measured) {
            rest + cost_in(measured, total[n - 1].consumer@)->0 as nat
        } else {
            rest
        }
    }
}

/// What those consumers were estimated at, over the first `n`.
pub open spec fn estimated_sum(total: Seq<ConsumerCost>, measured: Seq<NodeCost>, n: nat) -> nat
    decreases n,
{
    if n == 0 {
        0
    } else {
        let rest = estimated_sum(total, measured, (n - 1) as nat);
        if calibrates(total[n - 1], measured) {
            rest + total[n - 1].cost as nat
        } else {
            rest
        }
    }
}

/// An estimated cost in measured time, where `measured` time was estimated at
/// `estimated`.
pub open spec fn calibrated(cost: nat, measured: nat, estimated: nat) -> nat {
    cost * measured / estimated
}

/// What is left of the measured time `m` of a consumer estimated at `whole`
/// when `removed` of that is a table it merely scans.
pub open spec fn kept_time(m: nat, whole: nat, removed: nat) -> nat {
    if removed >= whole {
        0
    } else {
        m * ((whole - removed) as nat) / whole
    }
}

/// The time of `node` as a consumer, by the last entry from `from` on.
pub open spec fn consumer_time(
    total: Seq<ConsumerCost>,
    regions: Seq<ConsumerCost>,
    measured: Seq<NodeCost>,
    node: Text,
    from: nat,
) -> Option<u64>
    decreases total.len() - from,
{
    if from >= total.len() {
        None
    } else {
        match consumer_time(total, regions, measured, node, from + 1) {
            Some(c) => Some(c),
            None => if total[from as int].consumer@ == node && calibrates(total[from as int], measured) {
                Some(
                    kept_time(
                        cost_in(measured, node)->0 as nat,
                        total[from as int].cost as nat,
                        match spent_by(regions, node, 0) {
                            Some(c) => c as nat,
                            None => 0,
                        },
                    ) as u64,
                )
            } else {
                None
            },
        }
    }
}

/// The time of `node` as a member, by the last entry from `from` on.
pub open spec fn member_time(
    builds: Seq<MemberBuild>,
    measured: nat,
    estimated: nat,
    node: Text,
    from: nat,
) -> Option<u64>
    decreases builds.len() - from,
{
    if from >= builds.len() {
        None
    } else {
        match member_time(builds, measured, estimated, node, from + 1) {
            Some(c) => Some(c),
            None => if builds[from as int].view@ == node {
                let b = builds[from as int];
                Some(
                    cap64(
                        calibrated(
                            cap64((b.compute + b.write->0) as nat) as nat,
                            measured,
                            estimated,
                        ),
                    ),
                )
            } else {
                None
            },
        }
    }
}

/// What each node would take with the members materialized: a consumer what is
/// left of it, a member its build, any other node what it took.
pub open spec fn predicted(d: DuplicateCost, measured: Seq<NodeCost>) -> spec_fn(Text) -> nat {
    let ms = cap64(measured_sum(d.consumer_total@, measured, d.consumer_total@.len())) as nat;
    let es = cap64(estimated_sum(d.consumer_total@, measured, d.consumer_total@.len())) as nat;
    |node: Text|
        match consumer_time(d.consumer_total@, d.per_consumer@, measured, node, 0) {
            Some(c) => c as nat,
            None => match member_time(d.build_per_member@, ms, es, node, 0) {
                Some(c) => c as nat,
                None => charged(measured)(node),
            },
        }
}

/// A cost model that reads uniformly fast or slow predicts the same: the bias
/// divides out.
pub proof fn bias_cancels(bias: nat, cost: nat, measured: nat, estimated: nat, m: nat, whole: nat, removed: nat)
    requires
        bias > 0,
        estimated > 0,
        whole > 0,
    ensures
        calibrated(bias * cost, measured, bias * estimated) == calibrated(cost, measured, estimated),
        kept_time(m, bias * whole, bias * removed) == kept_time(m, whole, removed),
{
    vstd::arithmetic::div_mod::lemma_div_multiples_vanish_quotient(
        bias as int,
        (cost * measured) as int,
        estimated as int,
    );
    assert(bias * cost * measured == bias * (cost * measured)) by (nonlinear_arith);
    assert((removed >= whole) == (bias * removed >= bias * whole)) by (nonlinear_arith)
        requires
            bias > 0,
    ;
    if removed < whole {
        let left = (whole - removed) as nat;
        assert(bias * whole - bias * removed == bias * left) by (nonlinear_arith)
            requires
                left == whole - removed,
        ;
        assert(m * (bias * left) == bias * (m * left)) by (nonlinear_arith);
        vstd::arithmetic::div_mod::lemma_div_multiples_vanish_quotient(bias as int, (m * left) as int, whole as int);
    }
}

/// A consumer never takes longer for having its members materialized.
pub proof fn consumers_only_shrink(m: nat, whole: nat, removed: nat)
    requires
        whole > 0,
    ensures
        kept_time(m, whole, removed) <= m,
{
    if removed < whole {
        let left = (whole - removed) as nat;
        assert(m * left <= m * whole) by (nonlinear_arith)
            requires
                left <= whole,
        ;
        vstd::arithmetic::div_mod::lemma_div_is_ordered((m * left) as int, (m * whole) as int, whole as int);
        vstd::arithmetic::div_mod::lemma_div_by_multiple(m as int, whole as int);
        assert(m * whole == whole * m) by (nonlinear_arith);
    }
}

/// An entry put last counts where no entry before it does.
pub proof fn pushed_cost(costs: Seq<NodeCost>, entry: NodeCost, node: Text, from: nat)
    requires
        from <= costs.len(),
    ensures
        cost_from(costs.push(entry), node, from) == match cost_from(costs, node, from) {
            Some(c) => Some(c),
            None => if entry.node@ == node {
                Some(entry.cost)
            } else {
                None
            },
        },
    decreases costs.len() - from,
{
    let more = costs.push(entry);
    if from < costs.len() {
        pushed_cost(costs, entry, node, from + 1);
        assert(more[from as int] == costs[from as int]);
    } else {
        assert(more[from as int] == entry);
        assert(cost_from(more, node, from + 1) is None);
    }
}

/// What the last entry for `consumer` says.
fn lookup_spent(costs: &Vec<ConsumerCost>, consumer: &str) -> (r: Option<u64>)
    ensures
        r == spent_by(costs@, consumer@, 0),
{
    let mut i: usize = costs.len();
    while i > 0
        invariant
            i <= costs@.len(),
            spent_by(costs@, consumer@, i as nat) is None,
        decreases i,
    {
        i = i - 1;
        if text_eq(costs[i].consumer.as_str(), consumer) {
            proof {
                spent_stands(costs@, consumer@, i as nat);
            }
            return Some(costs[i].cost);
        }
    }
    None
}

proof fn spent_stands(costs: Seq<ConsumerCost>, consumer: Text, from: nat)
    requires
        spent_by(costs, consumer, from) is Some,
    ensures
        spent_by(costs, consumer, 0) == spent_by(costs, consumer, from),
    decreases from,
{
    if from > 0 {
        assert(spent_by(costs, consumer, (from - 1) as nat) == spent_by(costs, consumer, from));
        spent_stands(costs, consumer, (from - 1) as nat);
    }
}

/// The consumers' measured and estimated times.
fn calibration(total: &Vec<ConsumerCost>, measured: &Vec<NodeCost>) -> (r: (u64, u64))
    ensures
        r.0 == cap64(measured_sum(total@, measured@, total@.len())),
        r.1 == cap64(estimated_sum(total@, measured@, total@.len())),
{
    let mut ms: u64 = 0;
    let mut es: u64 = 0;
    let mut i: usize = 0;
    while i < total.len()
        invariant
            i <= total@.len(),
            ms == cap64(measured_sum(total@, measured@, i as nat)),
            es == cap64(estimated_sum(total@, measured@, i as nat)),
        decreases total@.len() - i,
    {
        if total[i].cost > 0 {
            if let Some(m) = lookup_cost(measured, total[i].consumer.as_str()) {
                ms = add_capped(ms, m);
                es = add_capped(es, total[i].cost);
            }
        }
        i = i + 1;
    }
    (ms, es)
}

/// What is left of a consumer's measured time.
fn keep_time(m: u64, whole: u64, removed: u64) -> (r: u64)
    requires
        whole > 0,
    ensures
        r == kept_time(m as nat, whole as nat, removed as nat),
        kept_time(m as nat, whole as nat, removed as nat) <= u64::MAX,
{
    proof {
        consumers_only_shrink(m as nat, whole as nat, removed as nat);
    }
    if removed >= whole {
        0
    } else {
        let left: u64 = whole - removed;
        proof {
            assert(m * left <= u64::MAX * u64::MAX) by (nonlinear_arith)
                requires
                    m <= u64::MAX,
                    left <= u64::MAX,
            ;
            assert(u64::MAX * u64::MAX <= u128::MAX) by (nonlinear_arith);
        }
        ((m as u128 * left as u128) / whole as u128) as u64
    }
}

/// An estimated cost in measured time.
fn calibrate(cost: u64, measured: u64, estimated: u64) -> (r: u64)
    requires
        estimated > 0,
    ensures
        r == cap64(calibrated(cost as nat, measured as nat, estimated as nat)),
{
    proof {
        assert(cost * measured <= u64::MAX * u64::MAX) by (nonlinear_arith)
            requires
                cost <= u64::MAX,
                measured <= u64::MAX,
        ;
        assert(u64::MAX * u64::MAX <= u128::MAX) by (nonlinear_arith);
    }
    let q: u128 = (cost as u128 * measured as u128) / estimated as u128;
    if q <= u64::MAX as u128 {
        q as u64
    } else {
        u64::MAX
    }
}

/// The predicted time of each node, in a list.
fn predict(d: &DuplicateCost, measured: &Vec<NodeCost>, ms: u64, es: u64) -> (r: Vec<NodeCost>)
    requires
        ms == cap64(measured_sum(d.consumer_total@, measured@, d.consumer_total@.len())),
        es == cap64(estimated_sum(d.consumer_total@, measured@, d.consumer_total@.len())),
        es > 0,
        forall|i: int| 0 <= i < d.build_per_member@.len() ==> (#[trigger] d.build_per_member@[i]).write is Some,
    ensures
        charged(r@) == predicted(*d, measured@),
{
    let total = &d.consumer_total;
    let builds = &d.build_per_member;
    let ghost regions = d.per_consumer@;
    let mut out: Vec<NodeCost> = Vec::new();
    let mut i: usize = total.len();
    while i > 0
        invariant
            i <= total@.len(),
            regions == d.per_consumer@,
            forall|node: Text|
                #[trigger] cost_in(out@, node) == consumer_time(total@, regions, measured@, node, i as nat),
        decreases i,
    {
        i = i - 1;
        let ghost had = out@;
        if total[i].cost > 0 {
            if let Some(m) = lookup_cost(measured, total[i].consumer.as_str()) {
                let removed = match lookup_spent(&d.per_consumer, total[i].consumer.as_str()) {
                    Some(c) => c,
                    None => 0,
                };
                let cost = keep_time(m, total[i].cost, removed);
                let entry = NodeCost { node: total[i].consumer.clone(), cost };
                let ghost e = entry;
                out.push(entry);
                proof {
                    assert forall|node: Text| #[trigger] cost_in(out@, node) == consumer_time(
                        total@,
                        regions,
                        measured@,
                        node,
                        i as nat,
                    ) by {
                        pushed_cost(had, e, node, 0);
                        assert(cost_in(had, node) == consumer_time(total@, regions, measured@, node, (i + 1) as nat));
                    }
                }
            }
        }
        proof {
            if out@ == had {
                assert forall|node: Text| #[trigger] cost_in(out@, node) == consumer_time(
                    total@,
                    regions,
                    measured@,
                    node,
                    i as nat,
                ) by {
                    assert(cost_in(had, node) == consumer_time(total@, regions, measured@, node, (i + 1) as nat));
                }
            }
        }
    }
    let ghost first = out@;
    let mut j: usize = builds.len();
    while j > 0
        invariant
            j <= builds@.len(),
            es > 0,
            forall|k: int| 0 <= k < builds@.len() ==> (#[trigger] builds@[k]).write is Some,
            forall|node: Text| #[trigger]
                cost_in(out@, node) == match cost_in(first, node) {
                    Some(c) => Some(c),
                    None => member_time(builds@, ms as nat, es as nat, node, j as nat),
                },
        decreases j,
    {
        j = j - 1;
        let ghost had = out@;
        proof {
            assert(builds@[j as int].write is Some);
        }
        let write = match builds[j].write {
            Some(w) => w,
            None => 0,
        };
        let cost = calibrate(add_capped(builds[j].compute, write), ms, es);
        let entry = NodeCost { node: builds[j].view.clone(), cost };
        let ghost e = entry;
        out.push(entry);
        proof {
            assert forall|node: Text| #[trigger] cost_in(out@, node) == match cost_in(first, node) {
                Some(c) => Some(c),
                None => member_time(builds@, ms as nat, es as nat, node, j as nat),
            } by {
                pushed_cost(had, e, node, 0);
                assert(cost_in(had, node) == match cost_in(first, node) {
                    Some(c) => Some(c),
                    None => member_time(builds@, ms as nat, es as nat, node, (j + 1) as nat),
                });
            }
        }
    }
    let ghost second = out@;
    let mut k: usize = 0;
    while k < measured.len()
        invariant
            k <= measured@.len(),
            forall|node: Text| #[trigger]
                cost_in(out@, node) == match cost_in(second, node) {
                    Some(c) => Some(c),
                    None => cost_in(measured@.take(k as int), node),
                },
        decreases measured@.len() - k,
    {
        let ghost had = out@;
        let entry = NodeCost { node: measured[k].node.clone(), cost: measured[k].cost };
        let ghost e = entry;
        out.push(entry);
        proof {
            assert forall|node: Text| #[trigger] cost_in(out@, node) == match cost_in(second, node) {
                Some(c) => Some(c),
                None => cost_in(measured@.take(k + 1), node),
            } by {
                pushed_cost(had, e, node, 0);
                pushed_cost(measured@.take(k as int), measured@[k as int], node, 0);
                assert(measured@.take(k + 1) =~= measured@.take(k as int).push(measured@[k as int]));
                assert(cost_in(had, node) == match cost_in(second, node) {
                    Some(c) => Some(c),
                    None => cost_in(measured@.take(k as int), node),
                });
            }
        }
        k = k + 1;
    }
    proof {
        assert(measured@.take(measured@.len() as int) =~= measured@);
        assert forall|node: Text| #[trigger] charged(out@)(node) == predicted(*d, measured@)(node) by {
            assert(cost_in(out@, node) == match cost_in(second, node) {
                Some(c) => Some(c),
                None => cost_in(measured@, node),
            });
            assert(cost_in(second, node) == match cost_in(first, node) {
                Some(c) => Some(c),
                None => member_time(builds@, ms as nat, es as nat, node, 0),
            });
        }
        assert(charged(out@) =~= predicted(*d, measured@));
    }
    out
}

/// How long the graph would take with every member of a set materialized.
/// None where no consumer calibrates the cost model against measured times,
/// or a member's write could not be priced.
pub fn estimate(dag: &Dag, dup: &DuplicateCost, measured: &Vec<NodeCost>) -> (r: Option<MakespanEstimate>)
    requires
        dag.wf(),
    ensures
        r is None <==> estimated_sum(dup.consumer_total@, measured@, dup.consumer_total@.len()) == 0 || exists|i: int|
            0 <= i < dup.build_per_member@.len() && (#[trigger] dup.build_per_member@[i]).write is None,
        r matches Some(e) ==> {
            &&& critical(
                dag.nodes@,
                buildable(dag.nodes@),
                predicted(*dup, measured@),
                e.makespan as nat,
                texts(e.critical_path@),
            )
            &&& critical_time(dag.nodes@, charged(measured@), e.baseline as nat)
            &&& stage_count(dag.nodes@, texts(dup.views@).to_set(), e.stages as nat)
        },
{
    let (ms, es) = calibration(&dup.consumer_total, measured);
    if es == 0 {
        return None;
    }
    let mut i: usize = 0;
    while i < dup.build_per_member.len()
        invariant
            i <= dup.build_per_member@.len(),
            forall|k: int| 0 <= k < i ==> (#[trigger] dup.build_per_member@[k]).write is Some,
        decreases dup.build_per_member@.len() - i,
    {
        if dup.build_per_member[i].write.is_none() {
            proof {
                assert(dup.build_per_member@[i as int].write is None);
            }
            return None;
        }
        i = i + 1;
    }
    let costs = predict(dup, measured, ms, es);
    let (makespan, path) = critical_path(dag, &costs);
    let (baseline, untouched) = critical_path(dag, measured);
    let stages = stages(dag, &dup.views);
    proof {
        assert(critical_time(dag.nodes@, charged(measured@), baseline as nat)) by {
            assert(critical(dag.nodes@, buildable(dag.nodes@), charged(measured@), baseline as nat, texts(untouched@)));
        }
    }
    Some(MakespanEstimate { makespan, baseline, stages, critical_path: path })
}

/// How long the graph would take with a set materialized cannot be predicted.
pub open spec fn unpredictable(d: DuplicateCost, measured: Option<Seq<NodeCost>>) -> bool {
    match measured {
        Some(list) => estimated_sum(d.consumer_total@, list, d.consumer_total@.len()) == 0 || exists|i: int|
            0 <= i < d.build_per_member@.len() && (#[trigger] d.build_per_member@[i]).write is None,
        None => true,
    }
}

/// `t` is the largest machine number that is no more than the predicted
/// makespan.
pub open spec fn predicts(g: GraphModel, d: DuplicateCost, measured: Seq<NodeCost>, t: i64) -> bool {
    exists|time: nat| #[trigger] critical_time(g, predicted(d, measured), time) && t == clamped(time as int)
}

/// What materializing a set is worth, by what it duplicates: the work it
/// removes net of its writes and, where the graph has been measured, how long
/// the graph would take.
pub fn score_set(dag: &Dag, dup: &DuplicateCost, measured: Option<&Vec<NodeCost>>) -> (r: Scored)
    requires
        dag.wf(),
    ensures
        r.cost == clamped(
            dup.duplicate - match dup.write_total {
                Some(w) => w as int,
                None => 0,
            },
        ),
        match r.makespan {
            Some(t) => measured is Some && !unpredictable(*dup, Some(measured->0@)) && predicts(
                dag.nodes@,
                *dup,
                measured->0@,
                t,
            ) && stage_count(dag.nodes@, texts(dup.views@).to_set(), r.stages as nat),
            None => r.stages == 0 && unpredictable(
                *dup,
                match measured {
                    Some(m) => Some(m@),
                    None => None,
                },
            ),
        },
{
    let cost = dup.net();
    if let Some(list) = measured {
        if let Some(e) = estimate(dag, dup, list) {
            proof {
                assert(critical(
                    dag.nodes@,
                    buildable(dag.nodes@),
                    predicted(*dup, list@),
                    e.makespan as nat,
                    texts(e.critical_path@),
                ));
                assert(critical_time(dag.nodes@, predicted(*dup, list@), e.makespan as nat));
            }
            let t: i64 = if e.makespan > i64::MAX as u128 {
                i64::MAX
            } else {
                e.makespan as i64
            };
            return Scored { cost, makespan: Some(t), stages: e.stages };
        }
    }
    Scored { cost, makespan: None, stages: 0 }
}

/// Every node of a chain counts: two chains one after the other weigh what each
/// weighs, and one node weighs what it costs.
pub proof fn every_node_of_a_chain_counts(cost: spec_fn(Text) -> nat, p: Seq<Text>, q: Seq<Text>, x: Text)
    ensures
        weight(cost, p + q) == weight(cost, p) + weight(cost, q),
        weight(cost, seq![x]) == cost(x),
        weight(cost, Seq::<Text>::empty()) == 0,
    decreases q.len(),
{
    assert(seq![x].drop_last() =~= Seq::<Text>::empty());
    assert(weight(cost, Seq::<Text>::empty()) == 0);
    if q.len() == 0 {
        assert(p + q =~= p);
    } else {
        every_node_of_a_chain_counts(cost, p, q.drop_last(), x);
        assert((p + q).drop_last() =~= p + q.drop_last());
        assert((p + q).last() == q.last());
    }
}

/// A chain is a list of nodes, each of which reads the one before it.
pub proof fn a_chain_is_linked(g: GraphModel, within: Set<Text>, p: Seq<Text>)
    ensures
        chain(g, within, p) <==> p.len() > 0 && (forall|i: int| 0 <= i < p.len() ==> within.contains(#[trigger] p[i])) && (
        forall|i: int| 0 < i < p.len() ==> reads(g, #[trigger] p[i], p[i - 1])),
    decreases p.len(),
{
    if p.len() == 1 {
        assert(p.last() == p[0]);
    } else if p.len() > 1 {
        let head = p.drop_last();
        a_chain_is_linked(g, within, head);
        if chain(g, within, p) {
            assert forall|i: int| 0 <= i < p.len() implies within.contains(#[trigger] p[i]) by {
                if i < head.len() {
                    assert(within.contains(head[i]));
                }
            }
            assert forall|i: int| 0 < i < p.len() implies reads(g, #[trigger] p[i], p[i - 1]) by {
                if i < head.len() {
                    assert(reads(g, head[i], head[i - 1]));
                }
            }
        }
        if (forall|i: int| 0 <= i < p.len() ==> within.contains(#[trigger] p[i])) && (forall|i: int|
            0 < i < p.len() ==> reads(g, #[trigger] p[i], p[i - 1])) {
            assert forall|i: int| 0 <= i < head.len() implies within.contains(#[trigger] head[i]) by {
                assert(within.contains(p[i]));
            }
            assert forall|i: int| 0 < i < head.len() implies reads(g, #[trigger] head[i], head[i - 1]) by {
                assert(reads(g, p[i], p[i - 1]));
            }
            assert(within.contains(p[p.len() - 1]));
            assert(reads(g, p[p.len() - 1], p[p.len() - 2]));
        }
    }
}

/// The graph takes as long as its longest chain: as long as any one node, as a
/// node and what it reads together, and no longer than some chain.
pub proof fn the_graph_takes_its_longest_chain(
    g: GraphModel,
    cost: spec_fn(Text) -> nat,
    total: nat,
    a: Text,
    b: Text,
    q: Seq<Text>,
)
    requires
        critical_time(g, cost, total),
        buildable(g).contains(a),
        buildable(g).contains(b),
        reads(g, b, a),
        q.len() > 0,
        forall|i: int| 0 <= i < q.len() ==> buildable(g).contains(#[trigger] q[i]),
        forall|i: int| 0 < i < q.len() ==> reads(g, #[trigger] q[i], q[i - 1]),
    ensures
        total >= cost(a),
        total >= cost(a) + cost(b),
        total >= weight(cost, q),
        total > 0 ==> exists|p: Seq<Text>| #[trigger] chain(g, buildable(g), p) && weight(cost, p) == total,
{
    let path = choose|path: Seq<Text>| #[trigger] critical(g, buildable(g), cost, total, path);
    let one = seq![a];
    let two = seq![a, b];
    a_chain_is_linked(g, buildable(g), one);
    a_chain_is_linked(g, buildable(g), two);
    a_chain_is_linked(g, buildable(g), q);
    assert(chain(g, buildable(g), one));
    assert(chain(g, buildable(g), two));
    assert(chain(g, buildable(g), q));
    every_node_of_a_chain_counts(cost, one, seq![b], a);
    every_node_of_a_chain_counts(cost, one, seq![b], b);
    assert(one + seq![b] =~= two);
    if path.len() > 0 {
        assert(waits(g, buildable(g), cost, path));
        assert(chain(g, buildable(g), path));
    }
}

/// Members that wait for each other are stages of their own, and one member is
/// one stage.
pub proof fn members_in_a_row_are_stages(g: GraphModel, set: Set<Text>, r: nat, a: Text, b: Text)
    requires
        stage_count(g, set, r),
        buildable(g).contains(a),
        buildable(g).contains(b),
        set.contains(a),
        set.contains(b),
        reads(g, b, a),
    ensures
        r >= 2,
{
    let two = seq![a, b];
    a_chain_is_linked(g, buildable(g), two);
    assert(chain(g, buildable(g), two));
    let cost = membership(set);
    every_node_of_a_chain_counts(cost, seq![a], seq![b], a);
    every_node_of_a_chain_counts(cost, seq![a], seq![b], b);
    assert(seq![a] + seq![b] =~= two);
}

/// Stages are counted in members alone.
pub proof fn a_stage_is_a_member(g: GraphModel, set: Set<Text>, r: nat)
    requires
        stage_count(g, set, r),
    ensures
        set == Set::<Text>::empty() ==> r == 0,
        r > 0 ==> exists|p: Seq<Text>| #[trigger] chain(g, buildable(g), p) && weight(membership(set), p) == r,
{
    if set == Set::<Text>::empty() && r > 0 {
        let p = choose|p: Seq<Text>| #[trigger] chain(g, buildable(g), p) && weight(membership(set), p) == r;
        weightless(set, p);
    }
}

proof fn weightless(set: Set<Text>, p: Seq<Text>)
    requires
        set == Set::<Text>::empty(),
    ensures
        weight(membership(set), p) == 0,
    decreases p.len(),
{
    if p.len() > 0 {
        weightless(set, p.drop_last());
    }
}

/// A cost in measured time is to the cost as the measured time is to its
/// estimate; and what is left of a consumer is to its time as what its estimate
/// keeps is to the estimate. Both are rounded down.
pub proof fn times_are_in_proportion(cost: nat, measured: nat, estimated: nat, m: nat, whole: nat, removed: nat)
    requires
        estimated > 0,
        whole > 0,
    ensures
        calibrated(cost, measured, estimated) * estimated <= cost * measured < (calibrated(cost, measured, estimated) + 1)
            * estimated,
        removed >= whole ==> kept_time(m, whole, removed) == 0,
        removed < whole ==> kept_time(m, whole, removed) * whole <= m * (whole - removed) < (kept_time(m, whole, removed) + 1)
            * whole,
        kept_time(m, whole, 0) == m,
{
    let x = (cost * measured) as int;
    let e = estimated as int;
    assert(x / e * e <= x < (x / e + 1) * e) by (nonlinear_arith)
        requires
            e > 0,
    ;
    if removed < whole {
        let y = (m * ((whole - removed) as nat)) as int;
        let w = whole as int;
        assert(y / w * w <= y < (y / w + 1) * w) by (nonlinear_arith)
            requires
                w > 0,
        ;
    }
    assert(m * whole / whole == m) by (nonlinear_arith)
        requires
            whole > 0,
    ;
}

proof fn sums_taken(a: Seq<ConsumerCost>, b: Seq<ConsumerCost>, measured: Seq<NodeCost>, n: nat)
    requires
        n <= a.len(),
        n <= b.len(),
        forall|i: int| 0 <= i < n ==> a[i] == b[i],
    ensures
        measured_sum(a, measured, n) == measured_sum(b, measured, n),
        estimated_sum(a, measured, n) == estimated_sum(b, measured, n),
    decreases n,
{
    if n > 0 {
        sums_taken(a, b, measured, (n - 1) as nat);
    }
}

/// Every consumer that was both measured and estimated calibrates: one more adds
/// its measured and its estimated time; one without either adds nothing.
pub proof fn every_consumer_calibrates(total: Seq<ConsumerCost>, c: ConsumerCost, measured: Seq<NodeCost>)
    ensures
        c.cost > 0 && cost_in(measured, c.consumer@) is Some ==> measured_sum(total.push(c), measured, total.len() + 1)
            == measured_sum(total, measured, total.len()) + cost_in(measured, c.consumer@)->0 && estimated_sum(
            total.push(c),
            measured,
            total.len() + 1,
        ) == estimated_sum(total, measured, total.len()) + c.cost,
        c.cost == 0 || cost_in(measured, c.consumer@) is None ==> measured_sum(total.push(c), measured, total.len() + 1)
            == measured_sum(total, measured, total.len()) && estimated_sum(total.push(c), measured, total.len() + 1)
            == estimated_sum(total, measured, total.len()),
        measured_sum(total, measured, 0) == 0 && estimated_sum(total, measured, 0) == 0,
{
    let more = total.push(c);
    sums_taken(total, more, measured, total.len());
    assert(more[total.len() as int] == c);
}

proof fn not_a_consumer(
    total: Seq<ConsumerCost>,
    regions: Seq<ConsumerCost>,
    measured: Seq<NodeCost>,
    node: Text,
    from: nat,
)
    requires
        forall|i: int| from <= i < total.len() ==> (#[trigger] total[i]).consumer@ != node || !calibrates(total[i], measured),
    ensures
        consumer_time(total, regions, measured, node, from) is None,
    decreases total.len() - from,
{
    if from < total.len() {
        not_a_consumer(total, regions, measured, node, from + 1);
        assert(total[from as int].consumer@ != node || !calibrates(total[from as int], measured));
    }
}

proof fn last_build(builds: Seq<MemberBuild>, measured: nat, estimated: nat, node: Text, from: nat, i: int)
    requires
        from <= i < builds.len(),
        builds[i].view@ == node,
        forall|j: int| i < j < builds.len() ==> (#[trigger] builds[j]).view@ != node,
    ensures
        member_time(builds, measured, estimated, node, from) == Some(
            cap64(calibrated(cap64((builds[i].compute + builds[i].write->0) as nat) as nat, measured, estimated)),
        ),
    decreases builds.len() - from,
{
    if from < i {
        last_build(builds, measured, estimated, node, from + 1, i);
    } else {
        not_a_member(builds, measured, estimated, node, from + 1);
    }
}

proof fn not_a_member(builds: Seq<MemberBuild>, measured: nat, estimated: nat, node: Text, from: nat)
    requires
        forall|j: int| from <= j < builds.len() ==> (#[trigger] builds[j]).view@ != node,
    ensures
        member_time(builds, measured, estimated, node, from) is None,
    decreases builds.len() - from,
{
    if from < builds.len() {
        not_a_member(builds, measured, estimated, node, from + 1);
        assert(builds[from as int].view@ != node);
    }
}

/// A member that is built takes, in measured time, what computing it and writing
/// it cost together: that is to its time as the consumers' estimates are to
/// their measured times.
pub proof fn a_member_takes_its_build_and_its_write(d: DuplicateCost, measured: Seq<NodeCost>, node: Text, i: int, ms: nat, es: nat)
    requires
        forall|k: int| 0 <= k < d.consumer_total@.len() ==> (#[trigger] d.consumer_total@[k]).consumer@ != node,
        0 <= i < d.build_per_member@.len(),
        d.build_per_member@[i].view@ == node,
        forall|j: int| i < j < d.build_per_member@.len() ==> (#[trigger] d.build_per_member@[j]).view@ != node,
        d.build_per_member@[i].write is Some,
        d.build_per_member@[i].compute + d.build_per_member@[i].write->0 <= u64::MAX,
        ms == measured_sum(d.consumer_total@, measured, d.consumer_total@.len()) <= u64::MAX,
        0 < es == estimated_sum(d.consumer_total@, measured, d.consumer_total@.len()) <= u64::MAX,
        predicted(d, measured)(node) < u64::MAX,
    ensures
        predicted(d, measured)(node) * es <= (d.build_per_member@[i].compute + d.build_per_member@[i].write->0) * ms < (
        predicted(d, measured)(node) + 1) * es,
{
    not_a_consumer(d.consumer_total@, d.per_consumer@, measured, node, 0);
    last_build(d.build_per_member@, ms, es, node, 0, i);
    let work = (d.build_per_member@[i].compute + d.build_per_member@[i].write->0) as nat;
    times_are_in_proportion(work, ms, es, 0, 1, 0);
}

/// A costlier write takes longer: where the extra cost comes to a measured unit
/// or more, the member's predicted time is strictly larger.
pub proof fn a_costlier_write_takes_longer(
    cheap: DuplicateCost,
    dear: DuplicateCost,
    measured: Seq<NodeCost>,
    node: Text,
    i: int,
    ms: nat,
    es: nat,
)
    requires
        cheap.consumer_total@ == dear.consumer_total@,
        cheap.build_per_member@.len() == dear.build_per_member@.len(),
        forall|k: int| 0 <= k < cheap.consumer_total@.len() ==> (#[trigger] cheap.consumer_total@[k]).consumer@ != node,
        0 <= i < cheap.build_per_member@.len(),
        cheap.build_per_member@[i].view@ == node,
        dear.build_per_member@[i].view@ == node,
        forall|j: int| i < j < cheap.build_per_member@.len() ==> (#[trigger] cheap.build_per_member@[j]).view@ != node,
        forall|j: int| i < j < dear.build_per_member@.len() ==> (#[trigger] dear.build_per_member@[j]).view@ != node,
        cheap.build_per_member@[i].write is Some,
        dear.build_per_member@[i].write is Some,
        dear.build_per_member@[i].compute == cheap.build_per_member@[i].compute,
        dear.build_per_member@[i].compute + dear.build_per_member@[i].write->0 <= u64::MAX,
        ms == measured_sum(cheap.consumer_total@, measured, cheap.consumer_total@.len()) <= u64::MAX,
        0 < es == estimated_sum(cheap.consumer_total@, measured, cheap.consumer_total@.len()) <= u64::MAX,
        (dear.build_per_member@[i].write->0 - cheap.build_per_member@[i].write->0) * ms >= es,
        predicted(cheap, measured)(node) < u64::MAX,
        predicted(dear, measured)(node) < u64::MAX,
    ensures
        predicted(cheap, measured)(node) < predicted(dear, measured)(node),
{
    let (x, y) = (cheap.build_per_member@[i], dear.build_per_member@[i]);
    let (p, q) = (predicted(cheap, measured)(node), predicted(dear, measured)(node));
    let low = x.write->0;
    let high = y.write->0;
    if high < low {
        assert((high - low) * ms <= 0) by (nonlinear_arith)
            requires
                high < low,
                ms >= 0,
        ;
    }
    a_member_takes_its_build_and_its_write(cheap, measured, node, i, ms, es);
    a_member_takes_its_build_and_its_write(dear, measured, node, i, ms, es);
    assert(p < q) by (nonlinear_arith)
        requires
            p * es <= (x.compute + low) * ms,
            (x.compute + high) * ms < (q + 1) * es,
            (high - low) * ms >= es,
            es > 0,
    ;
}

proof fn last_spent(costs: Seq<ConsumerCost>, consumer: Text, from: nat, i: int)
    requires
        from <= i < costs.len(),
        costs[i].consumer@ == consumer,
        forall|j: int| i < j < costs.len() ==> (#[trigger] costs[j]).consumer@ != consumer,
    ensures
        spent_by(costs, consumer, from) == Some(costs[i].cost),
    decreases costs.len() - from,
{
    if from < i {
        last_spent(costs, consumer, from + 1, i);
    } else {
        none_spent(costs, consumer, from + 1);
    }
}

proof fn none_spent(costs: Seq<ConsumerCost>, consumer: Text, from: nat)
    requires
        forall|j: int| from <= j < costs.len() ==> (#[trigger] costs[j]).consumer@ != consumer,
    ensures
        spent_by(costs, consumer, from) is None,
    decreases costs.len() - from,
{
    if from < costs.len() {
        none_spent(costs, consumer, from + 1);
        assert(costs[from as int].consumer@ != consumer);
    }
}

proof fn last_consumer(
    total: Seq<ConsumerCost>,
    regions: Seq<ConsumerCost>,
    measured: Seq<NodeCost>,
    node: Text,
    from: nat,
    i: int,
)
    requires
        from <= i < total.len(),
        total[i].consumer@ == node,
        calibrates(total[i], measured),
        forall|j: int| i < j < total.len() ==> (#[trigger] total[j]).consumer@ != node,
    ensures
        consumer_time(total, regions, measured, node, from) == Some(
            kept_time(
                cost_in(measured, node)->0 as nat,
                total[i].cost as nat,
                match spent_by(regions, node, 0) {
                    Some(c) => c as nat,
                    None => 0,
                },
            ) as u64,
        ),
    decreases total.len() - from,
{
    if from < i {
        last_consumer(total, regions, measured, node, from + 1, i);
    } else {
        not_a_consumer(total, regions, measured, node, from + 1);
    }
}

/// A consumer keeps of its measured time what its estimate keeps once the
/// members are taken out of it: nothing where they are all of it.
pub proof fn a_consumer_keeps_its_own_work(d: DuplicateCost, measured: Seq<NodeCost>, node: Text, i: int, k: int, m: u64)
    requires
        0 <= i < d.consumer_total@.len(),
        d.consumer_total@[i].consumer@ == node,
        d.consumer_total@[i].cost > 0,
        forall|j: int| i < j < d.consumer_total@.len() ==> (#[trigger] d.consumer_total@[j]).consumer@ != node,
        cost_in(measured, node) == Some(m),
        0 <= k < d.per_consumer@.len(),
        d.per_consumer@[k].consumer@ == node,
        forall|j: int| k < j < d.per_consumer@.len() ==> (#[trigger] d.per_consumer@[j]).consumer@ != node,
    ensures
        d.per_consumer@[k].cost >= d.consumer_total@[i].cost ==> predicted(d, measured)(node) == 0,
        d.per_consumer@[k].cost < d.consumer_total@[i].cost ==> predicted(d, measured)(node) * d.consumer_total@[i].cost <= m * (
        d.consumer_total@[i].cost - d.per_consumer@[k].cost) < (predicted(d, measured)(node) + 1) * d.consumer_total@[i].cost,
{
    let whole = d.consumer_total@[i].cost;
    let removed = d.per_consumer@[k].cost;
    last_spent(d.per_consumer@, node, 0, k);
    last_consumer(d.consumer_total@, d.per_consumer@, measured, node, 0, i);
    times_are_in_proportion(0, 0, 1, m as nat, whole as nat, removed as nat);
    consumers_only_shrink(m as nat, whole as nat, removed as nat);
}

/// A node that is neither a consumer nor a member takes what it took.
pub proof fn an_untouched_node_takes_what_it_took(d: DuplicateCost, measured: Seq<NodeCost>, node: Text)
    requires
        forall|k: int| 0 <= k < d.consumer_total@.len() ==> (#[trigger] d.consumer_total@[k]).consumer@ != node,
        forall|j: int| 0 <= j < d.build_per_member@.len() ==> (#[trigger] d.build_per_member@[j]).view@ != node,
    ensures
        predicted(d, measured)(node) == (match cost_in(measured, node) {
            Some(c) => c as nat,
            None => 0,
        }),
{
    let ms = cap64(measured_sum(d.consumer_total@, measured, d.consumer_total@.len())) as nat;
    let es = cap64(estimated_sum(d.consumer_total@, measured, d.consumer_total@.len())) as nat;
    not_a_consumer(d.consumer_total@, d.per_consumer@, measured, node, 0);
    not_a_member(d.build_per_member@, ms, es, node, 0);
}

/// A node costs what its first entry says.
pub proof fn the_first_entry_counts(costs: Seq<NodeCost>, node: Text, i: int)
    requires
        0 <= i < costs.len(),
        costs[i].node@ == node,
        forall|j: int| 0 <= j < i ==> (#[trigger] costs[j]).node@ != node,
    ensures
        cost_in(costs, node) == Some(costs[i].cost),
        charged(costs)(node) == costs[i].cost,
{
    first_entry(costs, node, 0, i);
}

proof fn first_entry(costs: Seq<NodeCost>, node: Text, from: nat, i: int)
    requires
        from <= i < costs.len(),
        costs[i].node@ == node,
        forall|j: int| from <= j < i ==> (#[trigger] costs[j]).node@ != node,
    ensures
        cost_from(costs, node, from) == Some(costs[i].cost),
    decreases costs.len() - from,
{
    if from < i {
        assert(costs[from as int].node@ != node);
        first_entry(costs, node, from + 1, i);
    }
}

} // verus!
