//! Walks over the graph: what a node reads, what reads it, how far it stands
//! from the last consumer, and an order in which the nodes can be built.

use vstd::prelude::*;

use crate::dag::{by_id_at, by_id_position, distinct_ids, Graph, GraphModel, MaterializeMode, NodeModel};
use crate::text::{contains_text, texts, Text};

verus! {

/// Node `b` of the graph reads `a`.
pub open spec fn reads(g: GraphModel, b: Text, a: Text) -> bool {
    g.contains_key(b) && g[b].depends_on.contains(a)
}

/// The node at `j` of the listing reads the node at `i`.
pub open spec fn reads_at(nodes: Seq<NodeModel>, j: int, i: int) -> bool {
    0 <= i < nodes.len() && 0 <= j < nodes.len() && nodes[j].depends_on.contains(nodes[i].id)
}

/// `id` is a View of the graph.
pub open spec fn is_view(g: GraphModel, id: Text) -> bool {
    g.contains_key(id) && g[id].materialize == MaterializeMode::View
}

/// Every place that a marked place leads to is marked.
pub open spec fn marks_closed(m: Seq<bool>, edges: Seq<(usize, usize)>) -> bool {
    forall|e: int| 0 <= e < edges.len() && m[(#[trigger] edges[e]).0 as int] ==> m[edges[e].1 as int]
}

/// Everything marked in `a` is marked in `b`.
pub open spec fn marks_within(a: Seq<bool>, b: Seq<bool>) -> bool {
    a.len() == b.len() && forall|i: int| 0 <= i < a.len() && #[trigger] a[i] ==> b[i]
}

/// How many places are not marked.
spec fn unmarked(m: Seq<bool>) -> nat
    decreases m.len(),
{
    if m.len() == 0 {
        0
    } else {
        unmarked(m.drop_last()) + if m.last() {
            0nat
        } else {
            1
        }
    }
}

proof fn marking_lowers(m: Seq<bool>, i: int)
    requires
        0 <= i < m.len(),
        !m[i],
    ensures
        unmarked(m.update(i, true)) + 1 == unmarked(m),
    decreases m.len(),
{
    let after = m.update(i, true);
    if i == m.len() - 1 {
        assert(after.drop_last() =~= m.drop_last());
    } else {
        marking_lowers(m.drop_last(), i);
        assert(after.drop_last() =~= m.drop_last().update(i, true));
    }
}

/// The least marking that holds `init` and that the edges do not lead out of.
fn saturate(init: Vec<bool>, edges: &Vec<(usize, usize)>) -> (r: Vec<bool>)
    requires
        forall|e: int|
            0 <= e < edges@.len() ==> (#[trigger] edges@[e]).0 < init@.len() && edges@[e].1 < init@.len(),
    ensures
        marks_within(init@, r@),
        marks_closed(r@, edges@),
        forall|s: Seq<bool>|
            marks_within(init@, s) && #[trigger] marks_closed(s, edges@) ==> marks_within(r@, s),
{
    let ghost start = init@;
    let mut r = init;
    let mut changed = true;
    while changed
        invariant
            marks_within(start, r@),
            forall|e: int|
                0 <= e < edges@.len() ==> (#[trigger] edges@[e]).0 < start.len() && edges@[e].1 < start.len(),
            !changed ==> marks_closed(r@, edges@),
            forall|s: Seq<bool>|
                marks_within(start, s) && #[trigger] marks_closed(s, edges@) ==> marks_within(r@, s),
        decreases unmarked(r@) + if changed { 1nat } else { 0 },
    {
        let ghost before = r@;
        changed = false;
        let mut e: usize = 0;
        while e < edges.len()
            invariant
                e <= edges@.len(),
                marks_within(start, r@),
                forall|e: int|
                    0 <= e < edges@.len() ==> (#[trigger] edges@[e]).0 < start.len() && edges@[e].1 < start.len(),
                forall|s: Seq<bool>|
                    marks_within(start, s) && #[trigger] marks_closed(s, edges@) ==> marks_within(r@, s),
                changed ==> unmarked(r@) < unmarked(before),
                !changed ==> r@ == before,
                !changed ==> forall|k: int| 0 <= k < e && r@[(#[trigger] edges@[k]).0 as int] ==> r@[edges@[k].1 as int],
            decreases edges@.len() - e,
        {
            let a: usize = edges[e].0;
            let b: usize = edges[e].1;
            if r[a] && !r[b] {
                let ghost last = r@;
                proof {
                    marking_lowers(r@, b as int);
                    assert forall|s: Seq<bool>|
                        marks_within(start, s) && #[trigger] marks_closed(s, edges@) implies marks_within(
                        r@.update(b as int, true),
                        s,
                    ) by {
                        assert(marks_within(r@, s));
                        assert(s[edges@[e as int].0 as int]);
                    }
                }
                r.set(b, true);
                changed = true;
            }
            e = e + 1;
        }
    }
    r
}

/// `s` holds what reads `v`, and what reads any View in it.
pub open spec fn closed_downstream(g: GraphModel, v: Text, s: Set<Text>) -> bool {
    forall|m: Text, u: Text|
        #[trigger] reads(g, m, u) && (u == v || (s.contains(u) && is_view(g, u))) ==> s.contains(m)
}

/// What reads `v` directly or through Views alone: the least set that holds
/// what reads `v` and what reads any View in it.
pub open spec fn downstream(g: GraphModel, v: Text) -> Set<Text> {
    Set::new(|m: Text| forall|s: Set<Text>| #[trigger] closed_downstream(g, v, s) ==> s.contains(m))
}

/// The nearest Table and TempTable nodes downstream of `v`.
pub open spec fn frontier(g: GraphModel, v: Text) -> Set<Text> {
    Set::new(|m: Text| downstream(g, v).contains(m) && g.contains_key(m) && !is_view(g, m))
}

/// `s` holds `start`, and every node of the graph that a member reads.
pub open spec fn closed_upstream(g: GraphModel, start: Set<Text>, s: Set<Text>) -> bool {
    &&& start.subset_of(s)
    &&& forall|b: Text, a: Text| #[trigger] reads(g, b, a) && s.contains(b) && g.contains_key(a) ==> s.contains(a)
}

/// `start` and every node of the graph that it reads, directly or not.
pub open spec fn upstream(g: GraphModel, start: Set<Text>) -> Set<Text> {
    Set::new(|m: Text| forall|s: Set<Text>| #[trigger] closed_upstream(g, start, s) ==> s.contains(m))
}

/// `dep` is among what `id` reads, directly or through other nodes.
pub open spec fn transitive_dep(g: GraphModel, id: Text, dep: Text) -> bool {
    exists|b: Text| upstream(g, set![id]).contains(b) && #[trigger] reads(g, b, dep)
}

/// `downstream` is itself closed.
pub proof fn downstream_closed(g: GraphModel, v: Text)
    ensures
        closed_downstream(g, v, downstream(g, v)),
{
    assert forall|m: Text, u: Text|
        #[trigger] reads(g, m, u) && (u == v || (downstream(g, v).contains(u) && is_view(g, u))) implies downstream(
        g,
        v,
    ).contains(m) by {
        assert forall|s: Set<Text>| #[trigger] closed_downstream(g, v, s) implies s.contains(m) by {}
    }
}

/// `upstream` is itself closed.
pub proof fn upstream_closed(g: GraphModel, start: Set<Text>)
    ensures
        closed_upstream(g, start, upstream(g, start)),
{
    let up = upstream(g, start);
    assert forall|b: Text, a: Text|
        #[trigger] reads(g, b, a) && up.contains(b) && g.contains_key(a) implies up.contains(a) by {
        assert forall|s: Set<Text>| #[trigger] closed_upstream(g, start, s) implies s.contains(a) by {}
    }
    assert forall|a: Text| start.contains(a) implies up.contains(a) by {
        assert forall|s: Set<Text>| #[trigger] closed_upstream(g, start, s) implies s.contains(a) by {}
    }
}

/// Only nodes of the graph are downstream of anything.
pub proof fn downstream_in_graph(g: GraphModel, v: Text)
    ensures
        downstream(g, v).subset_of(g.dom()),
{
    assert(closed_downstream(g, v, g.dom()));
}

impl Graph {
    /// Every pair of places `(i, j)` such that the node at `j` reads the node
    /// at `i`.
    pub fn edges(&self) -> (r: Vec<(usize, usize)>)
        requires
            self.wf(),
        ensures
            forall|e: int|
                0 <= e < r@.len() ==> reads_at(self.listed(), (#[trigger] r@[e]).1 as int, r@[e].0 as int),
            forall|i: usize, j: usize| #[trigger] reads_at(self.listed(), j as int, i as int) ==> r@.contains((i, j)),
    {
        let nodes = self.nodes();
        let ghost listed = self.listed();
        let n: usize = nodes.len();
        let mut out: Vec<(usize, usize)> = Vec::new();
        let mut j: usize = 0;
        while j < n
            invariant
                j <= n == nodes@.len() == listed.len(),
                crate::dag::models(nodes@) == listed,
                forall|e: int| 0 <= e < out@.len() ==> reads_at(listed, (#[trigger] out@[e]).1 as int, out@[e].0 as int),
                forall|a: usize, b: usize| b < j && #[trigger] reads_at(listed, b as int, a as int) ==> out@.contains((a, b)),
            decreases n - j,
        {
            let mut i: usize = 0;
            while i < n
                invariant
                    i <= n,
                    j < n == nodes@.len() == listed.len(),
                    crate::dag::models(nodes@) == listed,
                    forall|e: int|
                        0 <= e < out@.len() ==> reads_at(listed, (#[trigger] out@[e]).1 as int, out@[e].0 as int),
                    forall|a: usize, b: usize|
                        (b < j || (b == j && a < i)) && #[trigger] reads_at(listed, b as int, a as int) ==> out@.contains(
                            (a, b),
                        ),
                decreases n - i,
            {
                let ghost before = out@;
                proof {
                    assert(listed[i as int] == nodes@[i as int]@);
                    assert(listed[j as int] == nodes@[j as int]@);
                }
                if contains_text(&nodes[j].depends_on, nodes[i].id.as_str()) {
                    out.push((i, j));
                    proof {
                        assert(out@[before.len() as int] == (i, j));
                    }
                }
                proof {
                    assert forall|a: usize, b: usize|
                        (b < j || (b == j && a < i + 1)) && #[trigger] reads_at(listed, b as int, a as int) implies out@.contains(
                        (a, b),
                    ) by {
                        if b < j || a < i {
                            assert(before.contains((a, b)));
                            let k = choose|k: int| 0 <= k < before.len() && before[k] == (a, b);
                            assert(out@[k] == (a, b));
                        }
                    }
                }
                i = i + 1;
            }
            j = j + 1;
        }
        out
    }

    /// For each node of the listing, whether it is downstream of `v`.
    pub fn downstream_marks(&self, v: &str) -> (r: Vec<bool>)
        requires
            self.wf(),
        ensures
            r@.len() == self.listed().len(),
            forall|i: int|
                0 <= i < r@.len() ==> (#[trigger] r@[i]) == downstream(self@, v@).contains(self.listed()[i].id),
    {
        proof {
            self.listed_is_view();
        }
        let nodes = self.nodes();
        let ghost listed = self.listed();
        let ghost g = self@;
        let all = self.edges();
        let mut edges: Vec<(usize, usize)> = Vec::new();
        let mut e: usize = 0;
        while e < all.len()
            invariant
                e <= all@.len(),
                nodes@.len() == listed.len(),
                crate::dag::models(nodes@) == listed,
                forall|k: int| 0 <= k < all@.len() ==> reads_at(listed, (#[trigger] all@[k]).1 as int, all@[k].0 as int),
                forall|k: int|
                    0 <= k < edges@.len() ==> reads_at(listed, (#[trigger] edges@[k]).1 as int, edges@[k].0 as int)
                        && listed[edges@[k].0 as int].materialize == MaterializeMode::View,
                forall|k: int|
                    0 <= k < e && listed[(#[trigger] all@[k]).0 as int].materialize == MaterializeMode::View
                        ==> edges@.contains(all@[k]),
            decreases all@.len() - e,
        {
            let ghost before = edges@;
            let from: usize = all[e].0;
            proof {
                assert(reads_at(listed, all@[e as int].1 as int, all@[e as int].0 as int));
                assert(listed[from as int] == nodes@[from as int]@);
            }
            if nodes[from].materialize == MaterializeMode::View {
                edges.push(all[e]);
                proof {
                    assert(edges@[before.len() as int] == all@[e as int]);
                }
            }
            proof {
                assert forall|k: int|
                    0 <= k < e + 1 && listed[(#[trigger] all@[k]).0 as int].materialize == MaterializeMode::View implies edges@.contains(
                    all@[k],
                ) by {
                    if k < e {
                        assert(before.contains(all@[k]));
                        let q = choose|q: int| 0 <= q < before.len() && before[q] == all@[k];
                        assert(edges@[q] == all@[k]);
                    }
                }
            }
            e = e + 1;
        }
        let mut init: Vec<bool> = Vec::new();
        let mut i: usize = 0;
        while i < nodes.len()
            invariant
                i <= nodes@.len() == listed.len(),
                crate::dag::models(nodes@) == listed,
                init@.len() == i,
                forall|k: int| 0 <= k < i ==> (#[trigger] init@[k]) == listed[k].depends_on.contains(v@),
            decreases nodes@.len() - i,
        {
            proof {
                assert(listed[i as int] == nodes@[i as int]@);
            }
            init.push(contains_text(&nodes[i].depends_on, v));
            i = i + 1;
        }
        let ghost start = init@;
        let r = saturate(init, &edges);
        proof {
            assert forall|k: int| 0 <= k < r@.len() implies (#[trigger] r@[k]) == downstream(g, v@).contains(listed[k].id) by {
                by_id_at(listed, k);
                if r@[k] {
                    assert forall|s: Set<Text>| #[trigger] closed_downstream(g, v@, s) implies s.contains(listed[k].id) by {
                        let m = Seq::new(listed.len(), |q: int| s.contains(listed[q].id));
                        assert(marks_within(start, m)) by {
                            assert forall|q: int| 0 <= q < start.len() && #[trigger] start[q] implies m[q] by {
                                by_id_at(listed, q);
                                assert(reads(g, listed[q].id, v@));
                            }
                        }
                        assert(marks_closed(m, edges@)) by {
                            assert forall|q: int| 0 <= q < edges@.len() && m[(#[trigger] edges@[q]).0 as int] implies m[edges@[q].1 as int] by {
                                let a = edges@[q].0 as int;
                                let b = edges@[q].1 as int;
                                by_id_at(listed, a);
                                by_id_at(listed, b);
                                assert(reads(g, listed[b].id, listed[a].id));
                            }
                        }
                        assert(marks_within(r@, m));
                        assert(m[k]);
                    }
                } else {
                    let t = Set::new(|id: Text| exists|q: int| 0 <= q < r@.len() && #[trigger] r@[q] && listed[q].id == id);
                    assert(closed_downstream(g, v@, t)) by {
                        assert forall|m: Text, u: Text|
                            #[trigger] reads(g, m, u) && (u == v@ || (t.contains(u) && is_view(g, u))) implies t.contains(m) by {
                            let b = by_id_position(listed, m);
                            if u == v@ {
                                assert(start[b]);
                                assert(r@[b]);
                            } else {
                                let a = choose|q: int| 0 <= q < r@.len() && #[trigger] r@[q] && listed[q].id == u;
                                by_id_at(listed, a);
                                assert(reads_at(listed, b, a));
                                assert(all@.contains((a as usize, b as usize)));
                                let x = choose|x: int| 0 <= x < all@.len() && all@[x] == (a as usize, b as usize);
                                assert(edges@.contains(all@[x]));
                                let y = choose|y: int| 0 <= y < edges@.len() && edges@[y] == all@[x];
                                assert(r@[edges@[y].0 as int]);
                                assert(r@[b]);
                            }
                        }
                    }
                    assert(!t.contains(listed[k].id)) by {
                        if t.contains(listed[k].id) {
                            let q = choose|q: int| 0 <= q < r@.len() && #[trigger] r@[q] && listed[q].id == listed[k].id;
                            by_id_at(listed, q);
                            if q < k {
                                assert(listed[q].id != listed[k].id);
                            } else if k < q {
                                assert(listed[k].id != listed[q].id);
                            }
                        }
                    }
                }
            }
        }
        r
    }

    /// The nearest Table and TempTable nodes downstream of `v`, each once.
    pub fn frontier_materializes(&self, v: &str) -> (r: Vec<String>)
        requires
            self.wf(),
        ensures
            texts(r@).to_set() == frontier(self@, v@),
            texts(r@).no_duplicates(),
    {
        let marks = self.downstream_marks(v);
        let nodes = self.nodes();
        let ghost listed = self.listed();
        proof {
            self.listed_is_view();
            downstream_in_graph(self@, v@);
        }
        let mut out: Vec<String> = Vec::new();
        let mut i: usize = 0;
        while i < nodes.len()
            invariant
                i <= nodes@.len() == listed.len() == marks@.len(),
                crate::dag::models(nodes@) == listed,
                listed == self.listed(),
                distinct_ids(listed),
                forall|k: int|
                    0 <= k < marks@.len() ==> (#[trigger] marks@[k]) == downstream(self@, v@).contains(listed[k].id),
                forall|t: Text|
                    texts(out@).contains(t) <==> exists|k: int|
                        0 <= k < i && #[trigger] marks@[k] && listed[k].materialize != MaterializeMode::View && listed[k].id == t,
                texts(out@).no_duplicates(),
            decreases nodes@.len() - i,
        {
            let ghost before = texts(out@);
            proof {
                assert(listed[i as int] == nodes@[i as int]@);
            }
            if marks[i] && nodes[i].materialize != MaterializeMode::View {
                out.push(nodes[i].id.clone());
                proof {
                    assert(texts(out@) =~= before.push(listed[i as int].id));
                    if before.contains(listed[i as int].id) {
                        let k = choose|k: int|
                            0 <= k < i && #[trigger] marks@[k] && listed[k].materialize != MaterializeMode::View
                                && listed[k].id == listed[i as int].id;
                        assert(listed[k].id != listed[i as int].id);
                    }
                }
            }
            proof {
                assert forall|t: Text|
                    texts(out@).contains(t) <==> exists|k: int|
                        0 <= k < i + 1 && #[trigger] marks@[k] && listed[k].materialize != MaterializeMode::View
                            && listed[k].id == t by {
                    let hit = marks@[i as int] && listed[i as int].materialize != MaterializeMode::View;
                    if hit {
                        assert(texts(out@).contains(t) == (before.contains(t) || t == listed[i as int].id)) by {
                            crate::dag::pushed_to_set(before, listed[i as int].id);
                            assert(texts(out@).to_set().contains(t) == before.to_set().insert(listed[i as int].id).contains(t));
                        }
                    }
                    if before.contains(t) {
                        let k = choose|k: int|
                            0 <= k < i && #[trigger] marks@[k] && listed[k].materialize != MaterializeMode::View
                                && listed[k].id == t;
                        assert(0 <= k < i + 1 && marks@[k]);
                    }
                }
            }
            i = i + 1;
        }
        proof {
            assert forall|t: Text| texts(out@).to_set().contains(t) == frontier(self@, v@).contains(t) by {
                if frontier(self@, v@).contains(t) {
                    let k = by_id_position(listed, t);
                    assert(marks@[k]);
                }
                if texts(out@).contains(t) {
                    let k = choose|k: int|
                        0 <= k < i && #[trigger] marks@[k] && listed[k].materialize != MaterializeMode::View
                            && listed[k].id == t;
                    by_id_at(listed, k);
                }
            }
            assert(texts(out@).to_set() =~= frontier(self@, v@));
        }
        out
    }

    /// For each node of the listing, whether it is among `start` or read by it,
    /// directly or not.
    pub fn upstream_marks(&self, start: &Vec<String>) -> (r: Vec<bool>)
        requires
            self.wf(),
        ensures
            r@.len() == self.listed().len(),
            forall|i: int|
                0 <= i < r@.len() ==> (#[trigger] r@[i]) == upstream(self@, texts(start@).to_set()).contains(
                    self.listed()[i].id,
                ),
    {
        proof {
            self.listed_is_view();
        }
        let nodes = self.nodes();
        let ghost listed = self.listed();
        let ghost g = self@;
        let ghost from = texts(start@).to_set();
        let all = self.edges();
        let mut edges: Vec<(usize, usize)> = Vec::new();
        let mut e: usize = 0;
        while e < all.len()
            invariant
                e <= all@.len(),
                edges@.len() == e,
                forall|k: int| 0 <= k < e ==> (#[trigger] edges@[k]) == (all@[k].1, all@[k].0),
            decreases all@.len() - e,
        {
            edges.push((all[e].1, all[e].0));
            e = e + 1;
        }
        let mut init: Vec<bool> = Vec::new();
        let mut i: usize = 0;
        while i < nodes.len()
            invariant
                i <= nodes@.len() == listed.len(),
                crate::dag::models(nodes@) == listed,
                init@.len() == i,
                from == texts(start@).to_set(),
                forall|k: int| 0 <= k < i ==> (#[trigger] init@[k]) == from.contains(listed[k].id),
            decreases nodes@.len() - i,
        {
            proof {
                assert(listed[i as int] == nodes@[i as int]@);
            }
            init.push(contains_text(start, nodes[i].id.as_str()));
            i = i + 1;
        }
        let ghost first = init@;
        proof {
            assert forall|k: int| 0 <= k < edges@.len() implies (#[trigger] edges@[k]).0 < init@.len() && edges@[k].1
                < init@.len() by {
                assert(reads_at(listed, all@[k].1 as int, all@[k].0 as int));
            }
        }
        let r = saturate(init, &edges);
        proof {
            assert forall|k: int| 0 <= k < r@.len() implies (#[trigger] r@[k]) == upstream(g, from).contains(listed[k].id) by {
                by_id_at(listed, k);
                if r@[k] {
                    assert forall|s: Set<Text>| #[trigger] closed_upstream(g, from, s) implies s.contains(listed[k].id) by {
                        let m = Seq::new(listed.len(), |q: int| s.contains(listed[q].id));
                        assert(marks_within(first, m));
                        assert(marks_closed(m, edges@)) by {
                            assert forall|q: int| 0 <= q < edges@.len() && m[(#[trigger] edges@[q]).0 as int] implies m[edges@[q].1 as int] by {
                                let a = edges@[q].0 as int;
                                let b = edges@[q].1 as int;
                                assert(reads_at(listed, all@[q].1 as int, all@[q].0 as int));
                                by_id_at(listed, a);
                                by_id_at(listed, b);
                                assert(reads(g, listed[a].id, listed[b].id));
                            }
                        }
                        assert(marks_within(r@, m));
                        assert(m[k]);
                    }
                } else {
                    let t = Set::new(
                        |id: Text|
                            from.contains(id) || exists|q: int| 0 <= q < r@.len() && #[trigger] r@[q] && listed[q].id == id,
                    );
                    assert(closed_upstream(g, from, t)) by {
                        assert forall|b: Text, a: Text|
                            #[trigger] reads(g, b, a) && t.contains(b) && g.contains_key(a) implies t.contains(a) by {
                            let pb = by_id_position(listed, b);
                            let pa = by_id_position(listed, a);
                            assert(r@[pb]) by {
                                if from.contains(b) {
                                    assert(first[pb]);
                                } else {
                                    let q = choose|q: int| 0 <= q < r@.len() && #[trigger] r@[q] && listed[q].id == b;
                                    if q < pb {
                                        assert(listed[q].id != listed[pb].id);
                                    } else if pb < q {
                                        assert(listed[pb].id != listed[q].id);
                                    }
                                }
                            }
                            assert(reads_at(listed, pb, pa));
                            assert(all@.contains((pa as usize, pb as usize)));
                            let x = choose|x: int| 0 <= x < all@.len() && all@[x] == (pa as usize, pb as usize);
                            assert(edges@[x] == (pb as usize, pa as usize));
                            assert(r@[edges@[x].0 as int]);
                            assert(r@[pa]);
                        }
                    }
                    assert(!t.contains(listed[k].id)) by {
                        if from.contains(listed[k].id) {
                            assert(first[k]);
                        }
                        if t.contains(listed[k].id) {
                            let q = choose|q: int| 0 <= q < r@.len() && #[trigger] r@[q] && listed[q].id == listed[k].id;
                            if q < k {
                                assert(listed[q].id != listed[k].id);
                            } else if k < q {
                                assert(listed[k].id != listed[q].id);
                            }
                        }
                    }
                }
            }
        }
        r
    }
}

/// Whatever reads `v`, or reads a View downstream of it, is downstream of `v`.
/// Nothing else is.
pub proof fn downstream_leads_through_views(g: GraphModel, v: Text, m: Text)
    ensures
        downstream(g, v).contains(m) <==> reads(g, m, v) || exists|u: Text|
            downstream(g, v).contains(u) && is_view(g, u) && #[trigger] reads(g, m, u),
{
    let all = downstream(g, v);
    downstream_closed(g, v);
    if all.contains(m) {
        let kept = Set::new(
            |x: Text|
                all.contains(x) && (reads(g, x, v) || exists|u: Text|
                    all.contains(u) && is_view(g, u) && #[trigger] reads(g, x, u)),
        );
        assert(closed_downstream(g, v, kept)) by {
            assert forall|x: Text, u: Text|
                #[trigger] reads(g, x, u) && (u == v || (kept.contains(u) && is_view(g, u))) implies kept.contains(x) by {
                assert(all.contains(x));
            }
        }
        assert(kept.contains(m));
    }
}

/// The frontier of a View is made of the Tables and TempTables that read it, or
/// read a View downstream of it.
pub proof fn the_frontier_is_materialized(g: GraphModel, v: Text, m: Text)
    ensures
        frontier(g, v).contains(m) <==> g.contains_key(m) && g[m].materialize != MaterializeMode::View && (reads(g, m, v)
            || exists|u: Text| downstream(g, v).contains(u) && is_view(g, u) && #[trigger] reads(g, m, u)),
{
    downstream_leads_through_views(g, v, m);
}

/// Upstream of some nodes are they themselves and each node of the graph that
/// one upstream reads. Nothing else is.
pub proof fn upstream_is_what_is_read(g: GraphModel, start: Set<Text>, a: Text)
    ensures
        upstream(g, start).contains(a) <==> start.contains(a) || (g.contains_key(a) && exists|b: Text|
            upstream(g, start).contains(b) && #[trigger] reads(g, b, a)),
{
    let all = upstream(g, start);
    upstream_closed(g, start);
    if all.contains(a) {
        let kept = Set::new(
            |x: Text|
                all.contains(x) && (start.contains(x) || (g.contains_key(x) && exists|b: Text|
                    all.contains(b) && #[trigger] reads(g, b, x))),
        );
        assert(closed_upstream(g, start, kept)) by {
            assert forall|b: Text, x: Text| #[trigger] reads(g, b, x) && kept.contains(b) && g.contains_key(x) implies kept.contains(
                x,
            ) by {
                assert(all.contains(x));
            }
            assert forall|x: Text| start.contains(x) implies kept.contains(x) by {
                assert(all.contains(x));
            }
        }
        assert(kept.contains(a));
    }
}

/// A node depends on what it reads, and on what any node that it depends on
/// reads. It depends on nothing else.
pub proof fn dependence_is_reading_on(g: GraphModel, id: Text, dep: Text)
    ensures
        transitive_dep(g, id, dep) <==> reads(g, id, dep) || exists|b: Text|
            g.contains_key(b) && transitive_dep(g, id, b) && #[trigger] reads(g, b, dep),
{
    upstream_is_what_is_read(g, set![id], id);
    assert(set![id].contains(id));
    if transitive_dep(g, id, dep) {
        let b = choose|b: Text| upstream(g, set![id]).contains(b) && #[trigger] reads(g, b, dep);
        upstream_is_what_is_read(g, set![id], b);
        if b != id {
            assert(transitive_dep(g, id, b));
        }
    }
    if exists|b: Text| g.contains_key(b) && transitive_dep(g, id, b) && #[trigger] reads(g, b, dep) {
        let b = choose|b: Text| g.contains_key(b) && transitive_dep(g, id, b) && #[trigger] reads(g, b, dep);
        upstream_is_what_is_read(g, set![id], b);
    }
}

} // verus!
