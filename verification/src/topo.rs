//! The order in which the nodes of a graph can be built.

use vstd::prelude::*;

use crate::dag::{by_id_at, by_id_position, models, Graph, GraphModel};
use crate::text::{
    at_most, contains_text, text_le, text_le_antisymmetric, text_le_total, text_le_transitive, texts, Text,
};
use crate::walk::reads;

verus! {

/// `id` can be built once `done` is: it is a node of `closure`, it is not
/// built yet, and whatever it reads inside `closure` is.
pub open spec fn ready(g: GraphModel, closure: Set<Text>, done: Seq<Text>, id: Text) -> bool {
    &&& closure.contains(id)
    &&& g.contains_key(id)
    &&& !done.contains(id)
    &&& forall|a: Text| g[id].depends_on.contains(a) && closure.contains(a) ==> #[trigger] done.contains(a)
}

/// At every step `order` takes the first, in lexicographic order, of the nodes
/// that can be built, and it stops when none can.
pub open spec fn stable_topo(g: GraphModel, closure: Set<Text>, order: Seq<Text>) -> bool {
    &&& forall|k: int| 0 <= k < order.len() ==> ready(g, closure, order.take(k), #[trigger] order[k])
    &&& forall|k: int, t: Text|
        0 <= k < order.len() && #[trigger] ready(g, closure, order.take(k), t) ==> text_le(order[k], t)
    &&& forall|t: Text| !(#[trigger] ready(g, closure, order, t))
}

/// The order holds no node twice, only nodes of `closure` that the graph
/// holds, and each node after whatever it reads inside `closure`.
pub proof fn stable_topo_builds_dependencies_first(g: GraphModel, closure: Set<Text>, order: Seq<Text>)
    requires
        stable_topo(g, closure, order),
    ensures
        order.no_duplicates(),
        forall|k: int| 0 <= k < order.len() ==> closure.contains(#[trigger] order[k]) && g.contains_key(order[k]),
        forall|k: int, a: Text|
            0 <= k < order.len() && #[trigger] reads(g, order[k], a) && closure.contains(a) ==> order.take(k).contains(a),
        forall|t: Text|
            closure.contains(t) && g.contains_key(t) && !(#[trigger] order.contains(t)) ==> exists|a: Text|
                #[trigger] reads(g, t, a) && closure.contains(a) && !order.contains(a),
{
    assert forall|i: int, j: int| 0 <= i < order.len() && 0 <= j < order.len() && i != j implies order[i] != order[j] by {
        let (a, b) = if i < j {
            (i, j)
        } else {
            (j, i)
        };
        assert(ready(g, closure, order.take(b), order[b]));
        assert(order.take(b)[a] == order[a]);
    }
    assert forall|k: int, a: Text|
        0 <= k < order.len() && #[trigger] reads(g, order[k], a) && closure.contains(a) implies order.take(k).contains(a) by {
        assert(ready(g, closure, order.take(k), order[k]));
    }
    assert forall|t: Text| closure.contains(t) && g.contains_key(t) && !(#[trigger] order.contains(t)) implies exists|
        a: Text,
    |
        #[trigger] reads(g, t, a) && closure.contains(a) && !order.contains(a) by {
        assert(!ready(g, closure, order, t));
        let a = choose|a: Text| g[t].depends_on.contains(a) && closure.contains(a) && !order.contains(a);
        assert(reads(g, t, a));
    }
}

/// The order depends on the graph and on `closure` alone.
pub proof fn stable_topo_unique(g: GraphModel, closure: Set<Text>, p: Seq<Text>, q: Seq<Text>)
    requires
        stable_topo(g, closure, p),
        stable_topo(g, closure, q),
    ensures
        p == q,
{
    let n = if p.len() <= q.len() {
        p.len() as int
    } else {
        q.len() as int
    };
    stable_topo_same_prefix(g, closure, p, q, n);
    if p.len() < q.len() {
        assert(q.take(n) =~= p);
        assert(ready(g, closure, q.take(n), q[n]));
    }
    if q.len() < p.len() {
        assert(p.take(n) =~= q);
        assert(ready(g, closure, p.take(n), p[n]));
    }
    assert(p.take(n) =~= p);
    assert(q.take(n) =~= q);
}

proof fn stable_topo_same_prefix(g: GraphModel, closure: Set<Text>, p: Seq<Text>, q: Seq<Text>, k: int)
    requires
        stable_topo(g, closure, p),
        stable_topo(g, closure, q),
        0 <= k <= p.len(),
        k <= q.len(),
    ensures
        p.take(k) == q.take(k),
    decreases k,
{
    if k > 0 {
        stable_topo_same_prefix(g, closure, p, q, k - 1);
        assert(ready(g, closure, p.take(k - 1), p[k - 1]));
        assert(ready(g, closure, q.take(k - 1), q[k - 1]));
        text_le_antisymmetric(p[k - 1], q[k - 1]);
        assert(p.take(k) =~= p.take(k - 1).push(p[k - 1]));
        assert(q.take(k) =~= q.take(k - 1).push(q[k - 1]));
    } else {
        assert(p.take(0) =~= q.take(0));
    }
}

/// `s` holds every node all of whose reads inside the graph it holds.
pub open spec fn closed_ground(g: GraphModel, s: Set<Text>) -> bool {
    forall|x: Text|
        g.contains_key(x) && (forall|a: Text| reads(g, x, a) && g.contains_key(a) ==> #[trigger] s.contains(a))
            ==> #[trigger] s.contains(x)
}

/// The node `d` stands on no cycle and behind none: it is in every set that
/// holds each node all of whose reads it holds.
pub open spec fn grounded(g: GraphModel, d: Text) -> bool {
    forall|s: Set<Text>| #[trigger] closed_ground(g, s) ==> s.contains(d)
}

/// `rank` rises from each node to the nodes that read it.
pub open spec fn descends(g: GraphModel, rank: spec_fn(Text) -> nat) -> bool {
    forall|a: Text, b: Text| #[trigger] reads(g, b, a) ==> rank(a) < rank(b)
}

/// The graph has no cycle.
pub open spec fn acyclic(g: GraphModel) -> bool {
    exists|rank: spec_fn(Text) -> nat| #[trigger] descends(g, rank)
}

/// In a graph without cycles every node is grounded.
pub proof fn acyclic_grounded(g: GraphModel, d: Text)
    requires
        acyclic(g),
        g.contains_key(d),
    ensures
        grounded(g, d),
{
    let rank = choose|rank: spec_fn(Text) -> nat| #[trigger] descends(g, rank);
    assert forall|s: Set<Text>| #[trigger] closed_ground(g, s) implies s.contains(d) by {
        descent_grounded(g, rank, s, d);
    }
}

proof fn descent_grounded(g: GraphModel, rank: spec_fn(Text) -> nat, s: Set<Text>, d: Text)
    requires
        descends(g, rank),
        closed_ground(g, s),
        g.contains_key(d),
    ensures
        s.contains(d),
    decreases rank(d),
{
    assert forall|a: Text| reads(g, d, a) && g.contains_key(a) implies #[trigger] s.contains(a) by {
        descent_grounded(g, rank, s, a);
    }
}

/// The building order of the whole graph holds the grounded nodes, and no
/// others.
pub proof fn stable_topo_is_grounded(g: GraphModel, order: Seq<Text>, d: Text)
    requires
        stable_topo(g, g.dom(), order),
        g.contains_key(d),
    ensures
        order.contains(d) == grounded(g, d),
{
    stable_topo_builds_dependencies_first(g, g.dom(), order);
    if grounded(g, d) {
        let s = order.to_set();
        assert(closed_ground(g, s)) by {
            assert forall|x: Text|
                g.contains_key(x) && (forall|a: Text| reads(g, x, a) && g.contains_key(a) ==> #[trigger] s.contains(a)) implies #[trigger] s.contains(
                x,
            ) by {
                if !order.contains(x) {
                    let a = choose|a: Text| #[trigger] reads(g, x, a) && g.dom().contains(a) && !order.contains(a);
                    assert(s.contains(a));
                }
            }
        }
        assert(s.contains(d));
    }
    if order.contains(d) {
        let k = choose|k: int| 0 <= k < order.len() && order[k] == d;
        assert forall|s: Set<Text>| #[trigger] closed_ground(g, s) implies s.contains(d) by {
            built_grounded(g, order, s, k);
        }
    }
}

proof fn built_grounded(g: GraphModel, order: Seq<Text>, s: Set<Text>, k: int)
    requires
        stable_topo(g, g.dom(), order),
        closed_ground(g, s),
        0 <= k < order.len(),
    ensures
        s.contains(order[k]),
    decreases k,
{
    stable_topo_builds_dependencies_first(g, g.dom(), order);
    assert forall|a: Text| reads(g, order[k], a) && g.contains_key(a) implies #[trigger] s.contains(a) by {
        assert(order.take(k).contains(a));
        let j = choose|j: int| 0 <= j < order.take(k).len() && order.take(k)[j] == a;
        built_grounded(g, order, s, j);
    }
}

/// Whether `id` can be built once `done` is.
fn is_ready(g: &Graph, closure: &Vec<String>, done: &Vec<String>, id: &str) -> (r: bool)
    requires
        g.wf(),
        texts(closure@).contains(id@),
    ensures
        r == ready(g@, texts(closure@).to_set(), texts(done@), id@),
{
    if contains_text(done, id) {
        return false;
    }
    match g.get(id) {
        None => false,
        Some(node) => {
            let mut i: usize = 0;
            while i < node.depends_on.len()
                invariant
                    i <= node.depends_on@.len(),
                    node@ == g@[id@],
                    forall|k: int|
                        0 <= k < i && texts(closure@).contains((#[trigger] node.depends_on@[k])@) ==> texts(done@).contains(
                            node.depends_on@[k]@,
                        ),
                decreases node.depends_on@.len() - i,
            {
                let dep = node.depends_on[i].as_str();
                if contains_text(closure, dep) && !contains_text(done, dep) {
                    proof {
                        assert(texts(node.depends_on@)[i as int] == dep@);
                        assert(g@[id@].depends_on.contains(dep@));
                        assert(texts(closure@).to_set().contains(dep@));
                        assert(!ready(g@, texts(closure@).to_set(), texts(done@), id@));
                    }
                    return false;
                }
                i = i + 1;
            }
            proof {
                assert forall|a: Text|
                    g@[id@].depends_on.contains(a) && texts(closure@).to_set().contains(a) implies #[trigger] texts(
                    done@,
                ).contains(a) by {
                    let deps = texts(node.depends_on@);
                    let k = choose|k: int| 0 <= k < deps.len() && deps[k] == a;
                    assert(deps[k] == node.depends_on@[k]@);
                }
            }
            true
        },
    }
}

/// The nodes of `closure` in an order in which they can be built: at each step
/// the lexicographically first of those that can. A node behind a cycle is
/// left out.
pub fn stable_topological_order(g: &Graph, closure: &Vec<String>) -> (r: Vec<String>)
    requires
        g.wf(),
    ensures
        stable_topo(g@, texts(closure@).to_set(), texts(r@)),
{
    let ghost set = texts(closure@).to_set();
    let mut order: Vec<String> = Vec::new();
    let mut going = true;
    proof {
        assert(texts(order@) =~= Seq::<Text>::empty());
    }
    while going
        invariant
            g.wf(),
            set == texts(closure@).to_set(),
            texts(order@).no_duplicates(),
            texts(order@).to_set().subset_of(set),
            order@.len() <= closure@.len(),
            forall|k: int|
                0 <= k < order@.len() ==> ready(g@, set, texts(order@).take(k), #[trigger] texts(order@)[k]),
            forall|k: int, t: Text|
                0 <= k < order@.len() && #[trigger] ready(g@, set, texts(order@).take(k), t) ==> text_le(
                    texts(order@)[k],
                    t,
                ),
            !going ==> forall|t: Text| !(#[trigger] ready(g@, set, texts(order@), t)),
        decreases closure@.len() - order@.len() + if going { 1int } else { 0 },
    {
        let ghost before = texts(order@);
        let mut best: Option<usize> = None;
        let mut i: usize = 0;
        while i < closure.len()
            invariant
                g.wf(),
                i <= closure@.len(),
                set == texts(closure@).to_set(),
                before == texts(order@),
                match best {
                    None => forall|k: int| 0 <= k < i ==> !ready(g@, set, before, (#[trigger] closure@[k])@),
                    Some(b) => b < i && ready(g@, set, before, closure@[b as int]@) && forall|k: int|
                        0 <= k < i && ready(g@, set, before, (#[trigger] closure@[k])@) ==> text_le(
                            closure@[b as int]@,
                            closure@[k]@,
                        ),
                },
            decreases closure@.len() - i,
        {
            proof {
                assert(texts(closure@)[i as int] == closure@[i as int]@);
            }
            if is_ready(g, closure, &order, closure[i].as_str()) {
                let take = match best {
                    None => true,
                    Some(b) => !at_most(closure[b].as_str(), closure[i].as_str()),
                };
                if take {
                    proof {
                        if let Some(b) = best {
                            text_le_total(closure@[b as int]@, closure@[i as int]@);
                            assert forall|k: int|
                                0 <= k < i && ready(g@, set, before, (#[trigger] closure@[k])@) implies text_le(
                                closure@[i as int]@,
                                closure@[k]@,
                            ) by {
                                text_le_transitive(closure@[i as int]@, closure@[b as int]@, closure@[k]@);
                            }
                        }
                        text_le_total(closure@[i as int]@, closure@[i as int]@);
                    }
                    best = Some(i);
                }
            }
            i = i + 1;
        }
        match best {
            None => {
                going = false;
                proof {
                    assert forall|t: Text| !(#[trigger] ready(g@, set, before, t)) by {
                        if ready(g@, set, before, t) {
                            let k = choose|k: int| 0 <= k < texts(closure@).len() && texts(closure@)[k] == t;
                            assert(closure@[k]@ == t);
                        }
                    }
                }
            },
            Some(b) => {
                let ghost id = closure@[b as int]@;
                order.push(closure[b].clone());
                proof {
                    let after = texts(order@);
                    assert(after =~= before.push(id));
                    assert forall|k: int| 0 <= k < after.len() implies ready(g@, set, after.take(k), #[trigger] after[k]) by {
                        if k < before.len() {
                            assert(after.take(k) =~= before.take(k));
                            assert(after[k] == before[k]);
                        } else {
                            assert(after.take(k) =~= before);
                        }
                    }
                    assert forall|k: int, t: Text|
                        0 <= k < after.len() && #[trigger] ready(g@, set, after.take(k), t) implies text_le(after[k], t) by {
                        if k < before.len() {
                            assert(after.take(k) =~= before.take(k));
                            assert(after[k] == before[k]);
                        } else {
                            assert(after.take(k) =~= before);
                            let q = choose|q: int| 0 <= q < texts(closure@).len() && texts(closure@)[q] == t;
                            assert(closure@[q]@ == t);
                        }
                    }
                    crate::dag::pushed_to_set(before, id);
                    // Distinct members of the closure's list are at most as
                    // many as the list is long.
                    after.unique_seq_to_set();
                    texts(closure@).lemma_cardinality_of_set();
                    vstd::set_lib::lemma_len_subset(after.to_set(), set);
                }
            },
        }
    }
    proof {
        assert forall|k: int, t: Text|
            0 <= k < texts(order@).len() && #[trigger] ready(g@, set, texts(order@).take(k), t) implies text_le(
            texts(order@)[k],
            t,
        ) by {
            assert(0 <= k < order@.len());
        }
    }
    order
}

impl Graph {
    /// The ids of all nodes.
    pub fn ids(&self) -> (r: Vec<String>)
        requires
            self.wf(),
        ensures
            texts(r@).to_set() == self@.dom(),
            r@.len() == self.listed().len(),
            forall|i: int| 0 <= i < r@.len() ==> (#[trigger] r@[i])@ == self.listed()[i].id,
    {
        let nodes = self.nodes();
        let ghost listed = self.listed();
        let mut out: Vec<String> = Vec::new();
        let mut i: usize = 0;
        while i < nodes.len()
            invariant
                i <= nodes@.len() == listed.len(),
                models(nodes@) == listed,
                out@.len() == i,
                forall|k: int| 0 <= k < i ==> (#[trigger] out@[k])@ == listed[k].id,
            decreases nodes@.len() - i,
        {
            proof {
                assert(listed[i as int] == nodes@[i as int]@);
            }
            out.push(nodes[i].id.clone());
            i = i + 1;
        }
        proof {
            self.listed_is_view();
            assert forall|t: Text| texts(out@).to_set().contains(t) == self@.dom().contains(t) by {
                if self@.contains_key(t) {
                    let k = by_id_position(listed, t);
                    assert(texts(out@)[k] == t);
                }
                if texts(out@).contains(t) {
                    let k = choose|k: int| 0 <= k < texts(out@).len() && texts(out@)[k] == t;
                    assert(out@[k]@ == listed[k].id);
                    by_id_at(listed, k);
                }
            }
            assert(texts(out@).to_set() =~= self@.dom());
        }
        out
    }

    /// The nodes in an order in which they can be built, without those that
    /// stand on a cycle or behind one.
    pub fn topological_sort(&self) -> (r: Vec<String>)
        requires
            self.wf(),
        ensures
            stable_topo(self@, self@.dom(), texts(r@)),
    {
        let ids = self.ids();
        stable_topological_order(self, &ids)
    }
}

} // verus!
