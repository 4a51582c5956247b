//! Attributing a region of a consumer's plan to the View that was inlined into
//! it.
//!
//! An inlined View leaves no name in the plan. What it leaves is an operator
//! that scans only relations the View reads: above that operator the plan
//! mixes in relations of the consumer. Views that read the same relations are
//! told apart by the graph: what a View reads lies strictly inside its region,
//! so regions are assigned consumer-most first.
//!
//! Times are used as shares of one plan's time, never across plans.

use vstd::prelude::*;

use crate::dag::{dedup, firsts_hold, pushed_to_set, union_texts};
use crate::plan::{add_capped, cap64, PlanNode};
use crate::table::TextMap;
use crate::text::{contains_text, texts, Text};

verus! {

/// How much of what a View reads an operator must scan to be its region, in
/// hundredths.
pub const LEAF_COVERAGE_MIN: usize = 50;

/// One operator of a flattened plan.
#[derive(Debug)]
pub struct Annotated {
    pub operator: String,
    pub parent: Option<usize>,
    pub children: Vec<usize>,
    /// Every base relation scanned by the operator or below it, once each.
    pub leaves: Vec<String>,
    /// The operator's own time and that of all below it, in nanoseconds.
    pub subtree_time: u64,
    pub cardinality: Option<u64>,
    /// Whether the operator makes fewer rows of many.
    pub is_aggregate: bool,
    /// Whether one below it does.
    pub aggregate_below: bool,
}

/// A plan flattened into a list, each operator before those below it.
#[derive(Debug)]
pub struct PlanArena {
    pub nodes: Vec<Annotated>,
}

/// How many operators a plan has.
pub open spec fn size_in(roots: Seq<PlanNode>) -> nat
    decreases roots, roots.len(),
{
    if roots.len() == 0 {
        0
    } else {
        size_in(roots.drop_last()) + size_at(roots.last())
    }
}

/// How many operators there are from `n` down.
pub open spec fn size_at(n: PlanNode) -> nat
    decreases n,
{
    1 + size_in(n.children@)
}

/// The relations that a plan scans.
pub open spec fn leaves_in(roots: Seq<PlanNode>) -> Set<Text>
    decreases roots, roots.len(),
{
    if roots.len() == 0 {
        Set::<Text>::empty()
    } else {
        leaves_in(roots.drop_last()).union(leaves_at(roots.last()))
    }
}

/// The relation that an operator scans.
pub open spec fn own_leaf(n: PlanNode) -> Set<Text> {
    match n.relation {
        Some(t) => Set::<Text>::empty().insert(t@),
        None => Set::<Text>::empty(),
    }
}

/// The relations scanned from `n` down.
pub open spec fn leaves_at(n: PlanNode) -> Set<Text>
    decreases n,
{
    own_leaf(n).union(leaves_in(n.children@))
}

/// The time of a plan's operators.
pub open spec fn time_in(roots: Seq<PlanNode>) -> nat
    decreases roots, roots.len(),
{
    if roots.len() == 0 {
        0
    } else {
        time_in(roots.drop_last()) + time_at(roots.last())
    }
}

/// An operator's own time, where it is known.
pub open spec fn own_time(n: PlanNode) -> u64 {
    match n.exclusive_time {
        Some(t) => t,
        None => 0,
    }
}

/// The time of the operators from `n` down.
pub open spec fn time_at(n: PlanNode) -> nat
    decreases n,
{
    own_time(n) as nat + time_in(n.children@)
}

/// Some operator of a plan makes fewer rows of many.
pub open spec fn aggregates_in(roots: Seq<PlanNode>) -> bool
    decreases roots, roots.len(),
{
    roots.len() > 0 && (aggregates_in(roots.drop_last()) || aggregates_at(roots.last()))
}

/// Some operator from `n` down makes fewer rows of many.
pub open spec fn aggregates_at(n: PlanNode) -> bool
    decreases n,
{
    n.aggregates || aggregates_in(n.children@)
}

/// What is noted of an operator.
pub open spec fn annotates(a: Annotated, n: PlanNode) -> bool {
    &&& a.operator@ == n.operator@
    &&& texts(a.leaves@).to_set() == leaves_at(n)
    &&& a.subtree_time == cap64(time_at(n))
    &&& a.cardinality == n.cardinality
    &&& a.is_aggregate == n.aggregates
    &&& a.aggregate_below == aggregates_in(n.children@)
}

/// The places of operators that are laid out one after another from `at` on,
/// each with all that is below it.
pub open spec fn places_in(at: nat, roots: Seq<PlanNode>) -> Seq<usize>
    decreases roots.len(),
{
    if roots.len() == 0 {
        Seq::<usize>::empty()
    } else {
        places_in(at, roots.drop_last()).push((at + size_in(roots.drop_last())) as usize)
    }
}

/// From place `at` on stand the operators of `roots`, below `parent`.
pub open spec fn laid_in(nodes: Seq<Annotated>, at: nat, roots: Seq<PlanNode>, parent: Option<usize>) -> bool
    decreases roots, roots.len(),
{
    roots.len() == 0 || (laid_in(nodes, at, roots.drop_last(), parent) && laid_at(
        nodes,
        at + size_in(roots.drop_last()),
        roots.last(),
        parent,
    ))
}

/// At place `at` stands `n`, below `parent`, and after it what is below `n`.
pub open spec fn laid_at(nodes: Seq<Annotated>, at: nat, n: PlanNode, parent: Option<usize>) -> bool
    decreases n,
{
    &&& at < nodes.len()
    &&& annotates(nodes[at as int], n)
    &&& nodes[at as int].parent == parent
    &&& nodes[at as int].children@ == places_in(at + 1, n.children@)
    &&& laid_in(nodes, at + 1, n.children@, Some(at as usize))
}

proof fn laid_in_stays(a: Seq<Annotated>, b: Seq<Annotated>, at: nat, roots: Seq<PlanNode>, parent: Option<usize>)
    requires
        at + size_in(roots) <= a.len(),
        at + size_in(roots) <= b.len(),
        forall|k: int| at <= k < at + size_in(roots) ==> a[k] == b[k],
        laid_in(a, at, roots, parent),
    ensures
        laid_in(b, at, roots, parent),
    decreases roots, roots.len(),
{
    if roots.len() > 0 {
        laid_in_stays(a, b, at, roots.drop_last(), parent);
        laid_at_stays(a, b, at + size_in(roots.drop_last()), roots.last(), parent);
    }
}

proof fn laid_at_stays(a: Seq<Annotated>, b: Seq<Annotated>, at: nat, n: PlanNode, parent: Option<usize>)
    requires
        at + size_at(n) <= a.len(),
        at + size_at(n) <= b.len(),
        forall|k: int| at <= k < at + size_at(n) ==> a[k] == b[k],
        laid_at(a, at, n, parent),
    ensures
        laid_at(b, at, n, parent),
    decreases n,
{
    assert(a[at as int] == b[at as int]);
    laid_in_stays(a, b, at + 1, n.children@, Some(at as usize));
}

/// The time at the roots among the first `n` operators.
pub open spec fn root_time(nodes: Seq<Annotated>, n: nat) -> nat
    decreases n,
{
    if n == 0 {
        0
    } else if nodes[n - 1].parent is None {
        root_time(nodes, (n - 1) as nat) + nodes[n - 1].subtree_time as nat
    } else {
        root_time(nodes, (n - 1) as nat)
    }
}

proof fn root_time_same(a: Seq<Annotated>, b: Seq<Annotated>, n: nat)
    requires
        n <= a.len(),
        n <= b.len(),
        forall|k: int| 0 <= k < n ==> a[k] == b[k],
    ensures
        root_time(a, n) == root_time(b, n),
    decreases n,
{
    if n > 0 {
        root_time_same(a, b, (n - 1) as nat);
    }
}

proof fn root_time_below(nodes: Seq<Annotated>, from: nat, n: nat)
    requires
        from <= n <= nodes.len(),
        forall|k: int| from <= k < n ==> (#[trigger] nodes[k]).parent is Some,
    ensures
        root_time(nodes, n) == root_time(nodes, from),
    decreases n,
{
    if n > from {
        assert(nodes[n - 1].parent is Some);
        root_time_below(nodes, from, (n - 1) as nat);
    }
}

/// Place `k` is strictly below place `i`.
pub open spec fn below(nodes: Seq<Annotated>, i: int, k: int) -> bool
    decreases k,
{
    match nodes[k].parent {
        Some(p) => 0 <= p < k && (p == i || below(nodes, i, p as int)),
        None => false,
    }
}

/// The places strictly below place `i`.
pub open spec fn inside(nodes: Seq<Annotated>, i: int) -> Set<usize> {
    Set::new(|k: usize| k < nodes.len() && below(nodes, i, k as int))
}

/// An operator is strictly after what it is below, and so never inside itself.
pub proof fn interior_is_strict(nodes: Seq<Annotated>, i: int, k: int)
    requires
        below(nodes, i, k),
    ensures
        i < k,
        !below(nodes, k, i),
    decreases k,
{
    let p = nodes[k].parent->0;
    if p != i {
        interior_is_strict(nodes, i, p as int);
    }
    if below(nodes, k, i) {
        interior_is_strict_order(nodes, k, i);
    }
}

proof fn interior_is_strict_order(nodes: Seq<Annotated>, i: int, k: int)
    requires
        below(nodes, i, k),
    ensures
        i < k,
    decreases k,
{
    let p = nodes[k].parent->0;
    if p != i {
        interior_is_strict_order(nodes, i, p as int);
    }
}

/// What is inside something inside a region is inside the region.
pub proof fn interiors_nest(nodes: Seq<Annotated>, i: int, j: int, k: int)
    requires
        below(nodes, i, j),
        below(nodes, j, k),
    ensures
        below(nodes, i, k),
    decreases k,
{
    let p = nodes[k].parent->0;
    if p != j {
        interiors_nest(nodes, i, j, p as int);
    }
}

/// A place is within the confines of a search.
pub open spec fn allowed(confine: Option<Set<usize>>, i: int) -> bool {
    match confine {
        Some(c) => c.contains(i as usize),
        None => true,
    }
}

/// An operator scans nothing but what the View reads, and enough of it.
pub open spec fn fits(a: Annotated, want: Set<Text>) -> bool {
    &&& a.leaves@.len() > 0
    &&& texts(a.leaves@).to_set().subset_of(want)
    &&& 100 * a.leaves@.len() >= LEAF_COVERAGE_MIN * want.len()
}

/// A place could be the View's region.
pub open spec fn candidate(nodes: Seq<Annotated>, want: Set<Text>, confine: Option<Set<usize>>, i: int) -> bool {
    allowed(confine, i) && fits(nodes[i], want)
}

/// The operator has the shape that the View's query asks for: an aggregate, or
/// else one with no aggregate at it or below it.
pub open spec fn preferred(a: Annotated, aggregate: bool) -> bool {
    if aggregate {
        a.is_aggregate
    } else {
        !a.is_aggregate && !a.aggregate_below
    }
}

/// Some candidate among the first `n` has the preferred shape.
pub open spec fn any_preferred(
    nodes: Seq<Annotated>,
    want: Set<Text>,
    confine: Option<Set<usize>>,
    aggregate: bool,
    n: int,
) -> bool {
    exists|i: int| 0 <= i < n && candidate(nodes, want, confine, i) && preferred(#[trigger] nodes[i], aggregate)
}

/// A place is considered: a candidate of the preferred shape, or any candidate
/// where none has it.
pub open spec fn in_pool(
    nodes: Seq<Annotated>,
    want: Set<Text>,
    confine: Option<Set<usize>>,
    aggregate: bool,
    i: int,
) -> bool {
    &&& candidate(nodes, want, confine, i)
    &&& any_preferred(nodes, want, confine, aggregate, nodes.len() as int) ==> preferred(nodes[i], aggregate)
}

/// The considered place of the most time among the first `n`, the last of
/// several.
pub open spec fn region_among(
    nodes: Seq<Annotated>,
    want: Set<Text>,
    confine: Option<Set<usize>>,
    aggregate: bool,
    n: nat,
) -> Option<usize>
    decreases n,
{
    if n == 0 {
        None
    } else {
        let rest = region_among(nodes, want, confine, aggregate, (n - 1) as nat);
        if in_pool(nodes, want, confine, aggregate, n - 1) && (rest matches Some(b) ==> nodes[b as int].subtree_time
            <= nodes[n - 1].subtree_time) {
            Some((n - 1) as usize)
        } else {
            rest
        }
    }
}

/// The region of a View that reads `want`.
pub open spec fn region(
    nodes: Seq<Annotated>,
    want: Set<Text>,
    confine: Option<Set<usize>>,
    aggregate: bool,
) -> Option<usize> {
    region_among(nodes, want, confine, aggregate, nodes.len())
}

proof fn region_among_is_widest(
    nodes: Seq<Annotated>,
    want: Set<Text>,
    confine: Option<Set<usize>>,
    aggregate: bool,
    n: nat,
)
    requires
        n <= nodes.len(),
        nodes.len() <= usize::MAX,
    ensures
        match region_among(nodes, want, confine, aggregate, n) {
            Some(b) => b < n && in_pool(nodes, want, confine, aggregate, b as int) && forall|j: int|
                0 <= j < n && in_pool(nodes, want, confine, aggregate, j) ==> (#[trigger] nodes[j]).subtree_time
                    < nodes[b as int].subtree_time || (nodes[j].subtree_time == nodes[b as int].subtree_time && j <= b),
            None => forall|j: int| 0 <= j < n ==> !in_pool(nodes, want, confine, aggregate, j),
        },
    decreases n,
{
    if n > 0 {
        region_among_is_widest(nodes, want, confine, aggregate, (n - 1) as nat);
    }
}

/// The region of a View is a candidate of the preferred shape, or any
/// candidate where none has it, and none of those takes more time. There is no
/// region only where there is no candidate.
pub proof fn region_is_widest(nodes: Seq<Annotated>, want: Set<Text>, confine: Option<Set<usize>>, aggregate: bool)
    requires
        nodes.len() <= usize::MAX,
    ensures
        match region(nodes, want, confine, aggregate) {
            Some(b) => b < nodes.len() && in_pool(nodes, want, confine, aggregate, b as int) && forall|j: int|
                0 <= j < nodes.len() && in_pool(nodes, want, confine, aggregate, j) ==> (#[trigger] nodes[j]).subtree_time
                    < nodes[b as int].subtree_time || (nodes[j].subtree_time == nodes[b as int].subtree_time && j <= b),
            None => forall|j: int| 0 <= j < nodes.len() ==> !#[trigger] candidate(nodes, want, confine, j),
        },
{
    region_among_is_widest(nodes, want, confine, aggregate, nodes.len());
    if region(nodes, want, confine, aggregate) is None {
        assert forall|j: int| 0 <= j < nodes.len() implies !#[trigger] candidate(nodes, want, confine, j) by {
            if candidate(nodes, want, confine, j) {
                assert(!in_pool(nodes, want, confine, aggregate, j));
                let p = choose|p: int|
                    0 <= p < nodes.len() && candidate(nodes, want, confine, p) && preferred(#[trigger] nodes[p], aggregate);
                assert(in_pool(nodes, want, confine, aggregate, p));
            }
        }
    }
}

/// Whether `k` is in `list`.
fn contains_place(list: &Vec<usize>, k: usize) -> (r: bool)
    ensures
        r == list@.contains(k),
{
    let mut i: usize = 0;
    while i < list.len()
        invariant
            i <= list@.len(),
            forall|j: int| 0 <= j < i ==> list@[j] != k,
        decreases list@.len() - i,
    {
        if list[i] == k {
            return true;
        }
        i = i + 1;
    }
    false
}

/// Whether every text of `list` is in `other`.
fn all_in(list: &Vec<String>, other: &Vec<String>) -> (r: bool)
    ensures
        r == texts(list@).to_set().subset_of(texts(other@).to_set()),
{
    let ghost a = texts(list@);
    let ghost b = texts(other@);
    let mut i: usize = 0;
    while i < list.len()
        invariant
            i <= list@.len(),
            a == texts(list@),
            b == texts(other@),
            forall|j: int| 0 <= j < i ==> b.contains(#[trigger] a[j]),
        decreases list@.len() - i,
    {
        if !contains_text(other, list[i].as_str()) {
            proof {
                assert(a[i as int] == list@[i as int]@);
                assert(a.to_set().contains(a[i as int]));
            }
            return false;
        }
        proof {
            assert(a[i as int] == list@[i as int]@);
        }
        i = i + 1;
    }
    proof {
        assert forall|t: Text| a.to_set().contains(t) implies b.to_set().contains(t) by {
            let j = choose|j: int| 0 <= j < a.len() && a[j] == t;
            assert(b.contains(a[j]));
        }
    }
    true
}

impl PlanArena {
    /// Parents stand before their children, and no operator notes a relation
    /// twice.
    pub open spec fn wf(&self) -> bool {
        &&& forall|k: int|
            0 <= k < self.nodes@.len() ==> ((#[trigger] self.nodes@[k]).parent matches Some(p) ==> p < k)
        &&& forall|k: int| 0 <= k < self.nodes@.len() ==> texts((#[trigger] self.nodes@[k]).leaves@).no_duplicates()
    }

    /// The operators of a plan, flattened.
    pub fn build(roots: &Vec<PlanNode>) -> (r: PlanArena)
        ensures
            r.wf(),
            r.nodes@.len() == size_in(roots@),
            laid_in(r.nodes@, 0, roots@, None),
            cap64(root_time(r.nodes@, r.nodes@.len())) == cap64(time_in(roots@)),
    {
        let mut arena = PlanArena { nodes: Vec::new() };
        let mut i: usize = 0;
        while i < roots.len()
            invariant
                i <= roots@.len(),
                arena.wf(),
                arena.nodes@.len() == size_in(roots@.take(i as int)),
                laid_in(arena.nodes@, 0, roots@.take(i as int), None),
                cap64(root_time(arena.nodes@, arena.nodes@.len())) == cap64(time_in(roots@.take(i as int))),
            decreases roots@.len() - i,
        {
            let ghost had = arena.nodes@;
            proof {
                let t = roots@.take(i + 1);
                assert(t.drop_last() =~= roots@.take(i as int));
                assert(t.last() == roots@[i as int]);
            }
            arena.push(&roots[i], None);
            proof {
                laid_in_stays(had, arena.nodes@, 0, roots@.take(i as int), None);
                root_time_same(had, arena.nodes@, had.len());
                root_time_below(arena.nodes@, had.len() + 1, arena.nodes@.len());
            }
            i = i + 1;
        }
        proof {
            assert(roots@.take(roots@.len() as int) =~= roots@);
        }
        arena
    }

    /// Lays out an operator and all that is below it.
    fn push(&mut self, node: &PlanNode, parent: Option<usize>) -> (idx: usize)
        requires
            old(self).wf(),
            parent matches Some(p) ==> p < old(self).nodes@.len(),
        ensures
            final(self).wf(),
            idx == old(self).nodes@.len(),
            final(self).nodes@.len() == old(self).nodes@.len() + size_at(*node),
            forall|k: int| 0 <= k < idx ==> final(self).nodes@[k] == old(self).nodes@[k],
            laid_at(final(self).nodes@, idx as nat, *node, parent),
            forall|k: int| idx < k < final(self).nodes@.len() ==> (#[trigger] final(self).nodes@[k]).parent is Some,
        decreases node,
    {
        let idx = self.nodes.len();
        let ghost start = self.nodes@;
        let no_leaves: Vec<String> = Vec::new();
        proof {
            assert(texts(no_leaves@).no_duplicates());
        }
        self.nodes.push(
            Annotated {
                operator: node.operator.clone(),
                parent,
                children: Vec::new(),
                leaves: no_leaves,
                subtree_time: 0,
                cardinality: node.cardinality,
                is_aggregate: node.aggregates,
                aggregate_below: false,
            },
        );
        let mut leaves: Vec<String> = Vec::new();
        if let Some(relation) = &node.relation {
            leaves.push(relation.clone());
        }
        let mut time: u64 = match node.exclusive_time {
            Some(t) => t,
            None => 0,
        };
        let mut aggregate_below = false;
        let mut children: Vec<usize> = Vec::new();
        let mut i: usize = 0;
        proof {
            assert(node.children@.take(0) =~= Seq::<PlanNode>::empty());
            assert(texts(leaves@).to_set() =~= own_leaf(*node)) by {
                if let Some(relation) = node.relation {
                    assert(texts(leaves@)[0] == relation@);
                }
            }
            assert(texts(leaves@).to_set() =~= own_leaf(*node).union(leaves_in(node.children@.take(0))));
        }
        while i < node.children.len()
            invariant
                i <= node.children@.len(),
                self.wf(),
                idx == start.len(),
                self.nodes@.len() == idx + 1 + size_in(node.children@.take(i as int)),
                forall|k: int| 0 <= k < idx ==> self.nodes@[k] == start[k],
                self.nodes@[idx as int].parent == parent,
                self.nodes@[idx as int].operator@ == node.operator@,
                laid_in(self.nodes@, (idx + 1) as nat, node.children@.take(i as int), Some(idx)),
                forall|k: int| idx < k < self.nodes@.len() ==> (#[trigger] self.nodes@[k]).parent is Some,
                children@ == places_in((idx + 1) as nat, node.children@.take(i as int)),
                texts(leaves@).to_set() == own_leaf(*node).union(leaves_in(node.children@.take(i as int))),
                time == cap64(own_time(*node) as nat + time_in(node.children@.take(i as int))),
                aggregate_below == aggregates_in(node.children@.take(i as int)),
            decreases node.children@.len() - i,
        {
            let ghost had = self.nodes@;
            let ghost seen = texts(leaves@).to_set();
            proof {
                let t = node.children@.take(i + 1);
                assert(t.drop_last() =~= node.children@.take(i as int));
                assert(t.last() == node.children@[i as int]);
            }
            let child = self.push(&node.children[i], Some(idx));
            leaves = union_texts(&leaves, &self.nodes[child].leaves);
            time = add_capped(time, self.nodes[child].subtree_time);
            aggregate_below = aggregate_below || self.nodes[child].is_aggregate || self.nodes[child].aggregate_below;
            children.push(child);
            proof {
                laid_in_stays(had, self.nodes@, (idx + 1) as nat, node.children@.take(i as int), Some(idx));
                let t = node.children@.take(i + 1);
                assert(annotates(self.nodes@[child as int], t.last()));
                assert(aggregates_at(t.last()) == (self.nodes@[child as int].is_aggregate
                    || self.nodes@[child as int].aggregate_below));
                assert(aggregates_in(t) == (aggregates_in(t.drop_last()) || aggregates_at(t.last())));
                assert(texts(leaves@).to_set() =~= own_leaf(*node).union(leaves_in(node.children@.take(i + 1))));
            }
            i = i + 1;
        }
        proof {
            assert(node.children@.take(node.children@.len() as int) =~= node.children@);
        }
        let once = dedup(&leaves);
        let ghost laid = self.nodes@;
        proof {
            firsts_hold(texts(leaves@));
            assert(texts(once@).to_set() =~= texts(leaves@).to_set());
        }
        let entry = Annotated {
            operator: node.operator.clone(),
            parent,
            children,
            leaves: once,
            subtree_time: time,
            cardinality: node.cardinality,
            is_aggregate: node.aggregates,
            aggregate_below,
        };
        let ghost e = entry;
        self.nodes.set(idx, entry);
        proof {
            assert(self.nodes@ == laid.update(idx as int, e));
            laid_in_stays(laid, self.nodes@, (idx + 1) as nat, node.children@, Some(idx));
            assert(annotates(self.nodes@[idx as int], *node));
            assert forall|k: int| 0 <= k < self.nodes@.len() implies ((#[trigger] self.nodes@[k]).parent matches Some(p)
                ==> p < k) by {
                if k != idx {
                    assert(self.nodes@[k] == laid[k]);
                }
            }
            assert forall|k: int| 0 <= k < self.nodes@.len() implies texts(
                (#[trigger] self.nodes@[k]).leaves@,
            ).no_duplicates() by {
                if k != idx {
                    assert(self.nodes@[k] == laid[k]);
                }
            }
            assert forall|k: int| idx < k < self.nodes@.len() implies (#[trigger] self.nodes@[k]).parent is Some by {
                assert(self.nodes@[k] == laid[k]);
            }
        }
        idx
    }

    /// The time of every operator of the plan: what a share is taken of.
    pub fn total_time(&self) -> (r: u64)
        ensures
            r == cap64(root_time(self.nodes@, self.nodes@.len())),
    {
        let mut total: u64 = 0;
        let mut i: usize = 0;
        while i < self.nodes.len()
            invariant
                i <= self.nodes@.len(),
                total == cap64(root_time(self.nodes@, i as nat)),
            decreases self.nodes@.len() - i,
        {
            if self.nodes[i].parent.is_none() {
                total = add_capped(total, self.nodes[i].subtree_time);
            }
            i = i + 1;
        }
        total
    }

    /// The places strictly below place `idx`.
    pub fn interior(&self, idx: usize) -> (r: Vec<usize>)
        requires
            self.wf(),
            idx < self.nodes@.len(),
        ensures
            r@.no_duplicates(),
            r@.to_set() == inside(self.nodes@, idx as int),
    {
        let mut marks: Vec<bool> = Vec::new();
        let mut out: Vec<usize> = Vec::new();
        let mut k: usize = 0;
        proof {
            assert(out@.to_set() =~= Set::new(|j: usize| j < 0 && below(self.nodes@, idx as int, j as int)));
        }
        while k < self.nodes.len()
            invariant
                k <= self.nodes@.len(),
                self.wf(),
                marks@.len() == k,
                forall|j: int| 0 <= j < k ==> #[trigger] marks@[j] == below(self.nodes@, idx as int, j),
                out@.no_duplicates(),
                forall|j: int| 0 <= j < out@.len() ==> #[trigger] out@[j] < k,
                out@.to_set() == Set::new(|j: usize| j < k && below(self.nodes@, idx as int, j as int)),
            decreases self.nodes@.len() - k,
        {
            let inner = match self.nodes[k].parent {
                Some(p) => p == idx || marks[p],
                None => false,
            };
            let ghost had = out@;
            if inner {
                out.push(k);
                proof {
                    pushed_to_set(had, k);
                    assert forall|a: int, b: int| 0 <= a < out@.len() && 0 <= b < out@.len() && a != b implies #[trigger] out@[a]
                        != #[trigger] out@[b] by {
                        if a < had.len() {
                            assert(had[a] < k);
                        }
                        if b < had.len() {
                            assert(had[b] < k);
                        }
                    }
                }
            }
            marks.push(inner);
            proof {
                assert(inner == below(self.nodes@, idx as int, k as int));
                assert(out@.to_set() =~= Set::new(|j: usize| j < k + 1 && below(self.nodes@, idx as int, j as int)));
            }
            k = k + 1;
        }
        proof {
            assert(out@.to_set() =~= inside(self.nodes@, idx as int));
        }
        out
    }

    /// The place of the operator that is the region of a View which reads
    /// `view_leaves`, searched for within `confine`.
    pub fn match_region(
        &self,
        view_leaves: &Vec<String>,
        confine: Option<&Vec<usize>>,
        prefers_aggregate: bool,
    ) -> (r: Option<usize>)
        ensures
            r == region(
                self.nodes@,
                texts(view_leaves@).to_set(),
                match confine {
                    Some(c) => Some(c@.to_set()),
                    None => None,
                },
                prefers_aggregate,
            ),
            r matches Some(i) ==> i < self.nodes@.len(),
    {
        let want = dedup(view_leaves);
        let ghost set = texts(view_leaves@).to_set();
        let ghost within = match confine {
            Some(c) => Some(c@.to_set()),
            None => None,
        };
        proof {
            firsts_hold(texts(view_leaves@));
            assert(texts(want@).to_set() =~= set);
            texts(want@).unique_seq_to_set();
            assert(set.len() == want@.len());
        }
        let mut fit: Vec<bool> = Vec::new();
        let mut any = false;
        let mut i: usize = 0;
        while i < self.nodes.len()
            invariant
                i <= self.nodes@.len(),
                fit@.len() == i,
                set == texts(view_leaves@).to_set(),
                texts(want@).to_set() == set,
                set.len() == want@.len(),
                within == (match confine {
                    Some(c) => Some(c@.to_set()),
                    None => None,
                }),
                forall|k: int| 0 <= k < i ==> #[trigger] fit@[k] == candidate(self.nodes@, set, within, k),
                any == any_preferred(self.nodes@, set, within, prefers_aggregate, i as int),
            decreases self.nodes@.len() - i,
        {
            let node = &self.nodes[i];
            let open = match confine {
                Some(c) => contains_place(c, i),
                None => true,
            };
            let ok = open && node.leaves.len() > 0 && all_in(&node.leaves, &want) && covers(node.leaves.len(), want.len());
            let shaped = if prefers_aggregate {
                node.is_aggregate
            } else {
                !node.is_aggregate && !node.aggregate_below
            };
            fit.push(ok);
            proof {
                assert(ok == candidate(self.nodes@, set, within, i as int));
                assert(shaped == preferred(self.nodes@[i as int], prefers_aggregate));
                if any {
                    let p = choose|p: int|
                        0 <= p < i && candidate(self.nodes@, set, within, p) && preferred(
                            #[trigger] self.nodes@[p],
                            prefers_aggregate,
                        );
                    assert(0 <= p < i + 1);
                }
                if ok && shaped {
                    assert(any_preferred(self.nodes@, set, within, prefers_aggregate, i + 1)) by {
                        assert(0 <= i < i + 1 && candidate(self.nodes@, set, within, i as int) && preferred(
                            self.nodes@[i as int],
                            prefers_aggregate,
                        ));
                    }
                }
            }
            any = any || (ok && shaped);
            i = i + 1;
        }
        let mut best: Option<usize> = None;
        let mut j: usize = 0;
        while j < self.nodes.len()
            invariant
                j <= self.nodes@.len(),
                fit@.len() == self.nodes@.len(),
                forall|k: int| 0 <= k < fit@.len() ==> #[trigger] fit@[k] == candidate(self.nodes@, set, within, k),
                any == any_preferred(self.nodes@, set, within, prefers_aggregate, self.nodes@.len() as int),
                best == region_among(self.nodes@, set, within, prefers_aggregate, j as nat),
                best matches Some(b) ==> b < j,
            decreases self.nodes@.len() - j,
        {
            let node = &self.nodes[j];
            let shaped = if prefers_aggregate {
                node.is_aggregate
            } else {
                !node.is_aggregate && !node.aggregate_below
            };
            if fit[j] && (!any || shaped) {
                let wider = match best {
                    Some(b) => self.nodes[b].subtree_time <= node.subtree_time,
                    None => true,
                };
                proof {
                    assert(in_pool(self.nodes@, set, within, prefers_aggregate, j as int));
                }
                if wider {
                    best = Some(j);
                }
            }
            j = j + 1;
        }
        best
    }
}

/// Whether scanning `has` of `wanted` relations is enough.
fn covers(has: usize, wanted: usize) -> (r: bool)
    ensures
        r == (100 * has >= LEAF_COVERAGE_MIN * wanted),
{
    100 * (has as u128) >= (LEAF_COVERAGE_MIN as u128) * (wanted as u128)
}

/// One View to place inside a consumer's plan.
#[derive(Debug)]
pub struct ViewRegionRequest {
    pub id: String,
    /// The relations it reads once the Views above them are inlined.
    pub leaves: Vec<String>,
    /// The Views that read this one, directly or not.
    pub consumers: Vec<String>,
    /// Whether its query makes fewer rows of many.
    pub prefers_aggregate: bool,
}

/// What a View's region takes, and how wide it is.
#[derive(Debug, Clone, Copy)]
pub struct Attribution {
    /// The time in the region, in nanoseconds.
    pub secs: u64,
    /// The rows that the region's root emits.
    pub cardinality: Option<u64>,
    /// The place of the operator.
    pub node: usize,
}

/// What stands at place `i`.
pub open spec fn attribution(nodes: Seq<Annotated>, i: usize) -> Attribution {
    Attribution { secs: nodes[i as int].subtree_time, cardinality: nodes[i as int].cardinality, node: i }
}

/// Where a View can be: inside every region that is already assigned to one of
/// the first `n` of its consumers.
pub open spec fn confines(
    nodes: Seq<Annotated>,
    placed: Map<Text, Attribution>,
    consumers: Seq<Text>,
    n: nat,
) -> Option<Set<usize>>
    decreases n,
{
    if n == 0 {
        None
    } else {
        let rest = confines(nodes, placed, consumers, (n - 1) as nat);
        if placed.contains_key(consumers[n - 1]) {
            let interior = inside(nodes, placed[consumers[n - 1]].node as int);
            match rest {
                Some(c) => Some(c.intersect(interior)),
                None => Some(interior),
            }
        } else {
            rest
        }
    }
}

/// The regions of the first `n` Views, assigned in order.
pub open spec fn placed(nodes: Seq<Annotated>, views: Seq<ViewRegionRequest>, n: nat) -> Map<Text, Attribution>
    decreases n,
{
    if n == 0 {
        Map::<Text, Attribution>::empty()
    } else {
        let before = placed(nodes, views, (n - 1) as nat);
        let v = views[n - 1];
        match region(
            nodes,
            texts(v.leaves@).to_set(),
            confines(nodes, before, texts(v.consumers@), v.consumers@.len()),
            v.prefers_aggregate,
        ) {
            Some(i) => before.insert(v.id@, attribution(nodes, i)),
            None => before,
        }
    }
}

proof fn confines_are_inside(
    nodes: Seq<Annotated>,
    placed: Map<Text, Attribution>,
    consumers: Seq<Text>,
    n: nat,
    j: int,
)
    requires
        0 <= j < n <= consumers.len(),
        placed.contains_key(consumers[j]),
    ensures
        confines(nodes, placed, consumers, n) matches Some(c) && c.subset_of(
            inside(nodes, placed[consumers[j]].node as int),
        ),
    decreases n,
{
    if j < n - 1 {
        confines_are_inside(nodes, placed, consumers, (n - 1) as nat, j);
    }
}

/// Every region is an operator of the plan.
pub proof fn placed_in_range(nodes: Seq<Annotated>, views: Seq<ViewRegionRequest>, n: nat)
    requires
        nodes.len() <= usize::MAX,
    ensures
        forall|id: Text| #[trigger]
            placed(nodes, views, n).contains_key(id) ==> placed(nodes, views, n)[id].node < nodes.len(),
    decreases n,
{
    if n > 0 {
        placed_in_range(nodes, views, (n - 1) as nat);
        let before = placed(nodes, views, (n - 1) as nat);
        let v = views[n - 1];
        region_is_widest(
            nodes,
            texts(v.leaves@).to_set(),
            confines(nodes, before, texts(v.consumers@), v.consumers@.len()),
            v.prefers_aggregate,
        );
    }
}

/// A View's region lies strictly inside the region of every View that reads it
/// and was placed before it.
pub proof fn regions_nest(nodes: Seq<Annotated>, views: Seq<ViewRegionRequest>, n: nat, j: int)
    requires
        nodes.len() <= usize::MAX,
        n < views.len(),
        0 <= j < views[n as int].consumers@.len(),
        placed(nodes, views, n).contains_key(views[n as int].consumers@[j]@),
    ensures
        ({
            let v = views[n as int];
            let before = placed(nodes, views, n);
            let found = region(
                nodes,
                texts(v.leaves@).to_set(),
                confines(nodes, before, texts(v.consumers@), v.consumers@.len()),
                v.prefers_aggregate,
            );
            found matches Some(i) ==> below(nodes, before[v.consumers@[j]@].node as int, i as int)
        }),
{
    let v = views[n as int];
    let before = placed(nodes, views, n);
    let consumers = texts(v.consumers@);
    let c = confines(nodes, before, consumers, v.consumers@.len());
    assert(consumers[j] == v.consumers@[j]@);
    confines_are_inside(nodes, before, consumers, v.consumers@.len(), j);
    region_is_widest(nodes, texts(v.leaves@).to_set(), c, v.prefers_aggregate);
}

/// The members of `a` that are in `b`.
fn common(a: &Vec<usize>, b: &Vec<usize>) -> (r: Vec<usize>)
    ensures
        r@.to_set() == a@.to_set().intersect(b@.to_set()),
{
    let mut out: Vec<usize> = Vec::new();
    let mut i: usize = 0;
    proof {
        assert(out@.to_set() =~= a@.take(0).to_set().intersect(b@.to_set()));
    }
    while i < a.len()
        invariant
            i <= a@.len(),
            out@.to_set() == a@.take(i as int).to_set().intersect(b@.to_set()),
        decreases a@.len() - i,
    {
        let ghost had = out@;
        proof {
            assert(a@.take(i + 1) =~= a@.take(i as int).push(a@[i as int]));
            pushed_to_set(a@.take(i as int), a@[i as int]);
            pushed_to_set(had, a@[i as int]);
        }
        if contains_place(b, a[i]) {
            out.push(a[i]);
        }
        proof {
            assert(out@.to_set() =~= a@.take(i + 1).to_set().intersect(b@.to_set()));
        }
        i = i + 1;
    }
    proof {
        assert(a@.take(a@.len() as int) =~= a@);
    }
    out
}

/// Where a View can be, by what is already placed.
fn confine_view(arena: &PlanArena, placed: &TextMap<Attribution>, consumers: &Vec<String>) -> (r: Option<Vec<usize>>)
    requires
        arena.wf(),
        placed.wf(),
        forall|id: Text| #[trigger] placed@.contains_key(id) ==> placed@[id].node < arena.nodes@.len(),
    ensures
        match r {
            Some(c) => confines(arena.nodes@, placed@, texts(consumers@), consumers@.len()) == Some(c@.to_set()),
            None => confines(arena.nodes@, placed@, texts(consumers@), consumers@.len()) is None,
        },
{
    let ghost names = texts(consumers@);
    let mut confine: Option<Vec<usize>> = None;
    let mut i: usize = 0;
    while i < consumers.len()
        invariant
            i <= consumers@.len(),
            names == texts(consumers@),
            arena.wf(),
            placed.wf(),
            forall|id: Text| #[trigger] placed@.contains_key(id) ==> placed@[id].node < arena.nodes@.len(),
            match confine {
                Some(c) => confines(arena.nodes@, placed@, names, i as nat) == Some(c@.to_set()),
                None => confines(arena.nodes@, placed@, names, i as nat) is None,
            },
        decreases consumers@.len() - i,
    {
        proof {
            assert(names[i as int] == consumers@[i as int]@);
        }
        if let Some(a) = placed.get(consumers[i].as_str()) {
            let interior = arena.interior(a.node);
            confine = match confine {
                None => Some(interior),
                Some(c) => Some(common(&c, &interior)),
            };
        }
        i = i + 1;
    }
    confine
}

/// Places every View inside one consumer's plan. The Views come consumer-most
/// first; each is searched for inside the regions of those that read it.
pub fn attribute_chain(arena: &PlanArena, views: &Vec<ViewRegionRequest>) -> (r: TextMap<Attribution>)
    requires
        arena.wf(),
    ensures
        r.wf(),
        r@ == placed(arena.nodes@, views@, views@.len()),
{
    let mut out: TextMap<Attribution> = TextMap::new();
    let mut i: usize = 0;
    while i < views.len()
        invariant
            i <= views@.len(),
            arena.wf(),
            out.wf(),
            out@ == placed(arena.nodes@, views@, i as nat),
            forall|id: Text| #[trigger] out@.contains_key(id) ==> out@[id].node < arena.nodes@.len(),
        decreases views@.len() - i,
    {
        let view = &views[i];
        let confine = confine_view(arena, &out, &view.consumers);
        let found = match &confine {
            Some(c) => arena.match_region(&view.leaves, Some(c), view.prefers_aggregate),
            None => arena.match_region(&view.leaves, None, view.prefers_aggregate),
        };
        if let Some(at) = found {
            let a = Attribution {
                secs: arena.nodes[at].subtree_time,
                cardinality: arena.nodes[at].cardinality,
                node: at,
            };
            out.insert(view.id.as_str(), a);
        }
        i = i + 1;
    }
    out
}

/// Every operator of a plan counts: the times, the sizes and the relations of two
/// plans together are those of each, and those of a tree are its root's and
/// those of what lies below it.
pub proof fn every_operator_of_a_region_counts(a: Seq<PlanNode>, b: Seq<PlanNode>, n: PlanNode)
    ensures
        time_in(a + b) == time_in(a) + time_in(b),
        time_in(seq![n]) == time_in(n.children@) + (match n.exclusive_time {
            Some(t) => t as int,
            None => 0,
        }),
        time_in(Seq::<PlanNode>::empty()) == 0,
        size_in(a + b) == size_in(a) + size_in(b),
        size_in(seq![n]) == size_in(n.children@) + 1,
        size_in(Seq::<PlanNode>::empty()) == 0,
        leaves_in(a + b) == leaves_in(a).union(leaves_in(b)),
        n.relation is None ==> leaves_in(seq![n]) == leaves_in(n.children@),
        n.relation is Some ==> leaves_in(seq![n]) == leaves_in(n.children@).insert(n.relation->0@),
        leaves_in(Seq::<PlanNode>::empty()) == Set::<Text>::empty(),
        aggregates_in(a + b) == (aggregates_in(a) || aggregates_in(b)),
        aggregates_in(seq![n]) == (n.aggregates || aggregates_in(n.children@)),
    decreases b.len(),
{
    assert(seq![n].drop_last() =~= Seq::<PlanNode>::empty());
    assert(seq![n].last() == n);
    assert(time_in(Seq::<PlanNode>::empty()) == 0);
    assert(size_in(Seq::<PlanNode>::empty()) == 0);
    assert(leaves_in(Seq::<PlanNode>::empty()) == Set::<Text>::empty());
    assert(!aggregates_in(Seq::<PlanNode>::empty()));
    assert(time_in(seq![n]) == time_at(n));
    assert(size_in(seq![n]) == size_at(n));
    assert(leaves_in(seq![n]) =~= leaves_at(n));
    assert(aggregates_in(seq![n]) == aggregates_at(n));
    if n.relation is None {
        assert(leaves_at(n) =~= leaves_in(n.children@));
    } else {
        assert(leaves_at(n) =~= leaves_in(n.children@).insert(n.relation->0@));
    }
    if b.len() == 0 {
        assert(a + b =~= a);
        assert(leaves_in(a).union(leaves_in(b)) =~= leaves_in(a));
    } else {
        every_operator_of_a_region_counts(a, b.drop_last(), n);
        assert((a + b).drop_last() =~= a + b.drop_last());
        assert((a + b).last() == b.last());
        assert(leaves_in(a + b) =~= leaves_in(a).union(leaves_in(b)));
    }
}

/// What is noted of an operator is the time of all of its subtree and every
/// relation that the subtree scans.
pub proof fn an_operator_is_noted_with_its_subtree(nodes: Seq<Annotated>, at: nat, n: PlanNode, parent: Option<usize>, child: int)
    requires
        laid_at(nodes, at, n, parent),
        0 <= child < n.children@.len(),
        time_at(n) <= u64::MAX,
    ensures
        nodes[at as int].subtree_time == time_in(seq![n]),
        texts(nodes[at as int].leaves@).to_set() == leaves_in(seq![n]),
        leaves_in(seq![n.children@[child]]).subset_of(texts(nodes[at as int].leaves@).to_set()),
        time_in(seq![n.children@[child]]) <= nodes[at as int].subtree_time,
        nodes[at as int].cardinality == n.cardinality,
        nodes[at as int].parent == parent,
{
    every_operator_of_a_region_counts(Seq::<PlanNode>::empty(), Seq::<PlanNode>::empty(), n);
    assert(seq![n].drop_last() =~= Seq::<PlanNode>::empty());
    assert(leaves_in(seq![n]) =~= leaves_at(n));
    let all = n.children@;
    let c = all[child];
    let head = all.take(child);
    let tail = all.skip(child + 1);
    every_operator_of_a_region_counts(head, seq![c] + tail, c);
    every_operator_of_a_region_counts(seq![c], tail, c);
    assert(head + (seq![c] + tail) =~= all);
}

/// A View's region is found wherever some operator scans nothing but what the
/// View reads and enough of it, within the confines; what is found is such an
/// operator.
pub proof fn a_fitting_operator_gives_a_region(
    nodes: Seq<Annotated>,
    want: Set<Text>,
    confine: Option<Set<usize>>,
    aggregate: bool,
    i: int,
)
    requires
        0 <= i < nodes.len() <= usize::MAX,
        candidate(nodes, want, confine, i),
    ensures
        region(nodes, want, confine, aggregate) is Some,
        ({
            let r = region(nodes, want, confine, aggregate)->0 as int;
            &&& r < nodes.len()
            &&& allowed(confine, r)
            &&& texts(nodes[r].leaves@).to_set().subset_of(want)
            &&& nodes[r].leaves@.len() > 0
            &&& 2 * nodes[r].leaves@.len() >= want.len()
            &&& preferred(nodes[i], aggregate) ==> preferred(nodes[r], aggregate) && nodes[i].subtree_time
                <= nodes[r].subtree_time
        }),
{
    assert(LEAF_COVERAGE_MIN == 50);
    let n = nodes.len() as int;
    if any_preferred(nodes, want, confine, aggregate, n) {
        let p = choose|p: int| 0 <= p < n && candidate(nodes, want, confine, p) && preferred(#[trigger] nodes[p], aggregate);
        assert(in_pool(nodes, want, confine, aggregate, p));
        pooled_is_found(nodes, want, confine, aggregate, nodes.len(), p);
        if preferred(nodes[i], aggregate) {
            assert(in_pool(nodes, want, confine, aggregate, i));
            pooled_is_found(nodes, want, confine, aggregate, nodes.len(), i);
        }
    } else {
        assert(in_pool(nodes, want, confine, aggregate, i));
        pooled_is_found(nodes, want, confine, aggregate, nodes.len(), i);
        assert(!preferred(nodes[i], aggregate));
    }
}

proof fn pooled_is_found(
    nodes: Seq<Annotated>,
    want: Set<Text>,
    confine: Option<Set<usize>>,
    aggregate: bool,
    n: nat,
    i: int,
)
    requires
        0 <= i < n <= nodes.len() <= usize::MAX,
        in_pool(nodes, want, confine, aggregate, i),
    ensures
        region_among(nodes, want, confine, aggregate, n) is Some,
        region_among(nodes, want, confine, aggregate, n)->0 < n,
        in_pool(nodes, want, confine, aggregate, region_among(nodes, want, confine, aggregate, n)->0 as int),
        nodes[i].subtree_time <= nodes[region_among(nodes, want, confine, aggregate, n)->0 as int].subtree_time,
    decreases n,
{
    if i < n - 1 {
        pooled_is_found(nodes, want, confine, aggregate, (n - 1) as nat, i);
    } else {
        found_is_pooled(nodes, want, confine, aggregate, (n - 1) as nat);
    }
}

proof fn found_is_pooled(nodes: Seq<Annotated>, want: Set<Text>, confine: Option<Set<usize>>, aggregate: bool, n: nat)
    requires
        n <= nodes.len() <= usize::MAX,
    ensures
        region_among(nodes, want, confine, aggregate, n) is Some ==> region_among(nodes, want, confine, aggregate, n)->0 < n
            && in_pool(nodes, want, confine, aggregate, region_among(nodes, want, confine, aggregate, n)->0 as int),
    decreases n,
{
    if n > 0 {
        found_is_pooled(nodes, want, confine, aggregate, (n - 1) as nat);
    }
}

/// A View can be just inside every region that is assigned to a consumer of it;
/// anywhere, where none is.
pub proof fn a_view_is_confined_by_its_consumers(
    nodes: Seq<Annotated>,
    placed: Map<Text, Attribution>,
    consumers: Seq<Text>,
    n: nat,
    i: usize,
)
    requires
        n <= consumers.len(),
    ensures
        confines(nodes, placed, consumers, n) is None <==> forall|k: int|
            0 <= k < n ==> !placed.contains_key(#[trigger] consumers[k]),
        confines(nodes, placed, consumers, n) matches Some(c) ==> (c.contains(i) <==> forall|k: int|
            0 <= k < n && placed.contains_key(#[trigger] consumers[k]) ==> inside(
                nodes,
                placed[consumers[k]].node as int,
            ).contains(i)),
    decreases n,
{
    if n > 0 {
        let m = (n - 1) as nat;
        a_view_is_confined_by_its_consumers(nodes, placed, consumers, m, i);
        let rest = confines(nodes, placed, consumers, m);
        let all = confines(nodes, placed, consumers, n);
        let last = consumers[n - 1];
        if all is Some {
            let c = all->0;
            if c.contains(i) {
                assert forall|k: int| 0 <= k < n && placed.contains_key(#[trigger] consumers[k]) implies inside(
                    nodes,
                    placed[consumers[k]].node as int,
                ).contains(i) by {
                    if k < m {
                        assert(rest is Some);
                    }
                }
            }
            if forall|k: int|
                0 <= k < n && placed.contains_key(#[trigger] consumers[k]) ==> inside(
                    nodes,
                    placed[consumers[k]].node as int,
                ).contains(i) {
                assert forall|k: int| 0 <= k < m && placed.contains_key(#[trigger] consumers[k]) implies inside(
                    nodes,
                    placed[consumers[k]].node as int,
                ).contains(i) by {
                    assert(placed.contains_key(consumers[k]));
                }
            }
        }
        if all is None {
            assert forall|k: int| 0 <= k < n implies !placed.contains_key(#[trigger] consumers[k]) by {
                if k < m {
                    assert(rest is None);
                }
            }
        } else if rest is None {
            assert(placed.contains_key(consumers[n - 1]));
        } else {
            let k = choose|k: int| 0 <= k < m && placed.contains_key(#[trigger] consumers[k]);
            assert(0 <= k < n && placed.contains_key(consumers[k]));
        }
    }
}

/// Each View is assigned the region found for it among what is left to it, with
/// that region's time and rows.
pub proof fn a_view_is_placed_at_its_region(nodes: Seq<Annotated>, views: Seq<ViewRegionRequest>, n: nat, r: usize)
    requires
        0 < n <= views.len(),
        region(
            nodes,
            texts(views[n - 1].leaves@).to_set(),
            confines(nodes, placed(nodes, views, (n - 1) as nat), texts(views[n - 1].consumers@), views[n - 1].consumers@.len()),
            views[n - 1].prefers_aggregate,
        ) == Some(r),
    ensures
        placed(nodes, views, n).contains_key(views[n - 1].id@),
        placed(nodes, views, n)[views[n - 1].id@].node == r,
        placed(nodes, views, n)[views[n - 1].id@].secs == nodes[r as int].subtree_time,
        placed(nodes, views, n)[views[n - 1].id@].cardinality == nodes[r as int].cardinality,
{
}

/// The roots among the first operators do not depend on those behind.
proof fn root_time_of_first(nodes: Seq<Annotated>, more: Seq<Annotated>, n: nat)
    requires
        n <= nodes.len(),
    ensures
        root_time(nodes + more, n) == root_time(nodes, n),
    decreases n,
{
    if n > 0 {
        root_time_of_first(nodes, more, (n - 1) as nat);
        assert((nodes + more)[n - 1] == nodes[n - 1]);
    }
}

/// The time of a plan is that of its roots: a further root adds its own, and
/// what lies below another operator adds nothing.
pub proof fn only_roots_add_to_the_time(nodes: Seq<Annotated>, a: Annotated)
    ensures
        a.parent is None ==> root_time(nodes.push(a), nodes.len() + 1) == root_time(nodes, nodes.len()) + a.subtree_time,
        a.parent is Some ==> root_time(nodes.push(a), nodes.len() + 1) == root_time(nodes, nodes.len()),
        root_time(Seq::<Annotated>::empty(), 0) == 0,
{
    root_time_of_first(nodes, seq![a], nodes.len());
    assert(nodes + seq![a] =~= nodes.push(a));
    assert(((nodes.len() + 1) - 1) as nat == nodes.len());
    assert(nodes.push(a)[nodes.len() as int] == a);
}

} // verus!
