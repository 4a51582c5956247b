//! How far each node stands from its last consumer, how many nodes read it,
//! and along how many ways it reaches a materialized one.

use vstd::prelude::*;

use crate::dag::{models, Graph, MaterializeMode, NodeModel};
use crate::text::{contains_text, Text};
use crate::walk::{reads_at};

verus! {

/// The number of links of the longest chain of consumers that starts at the
/// node at `i`, counting chains of at most `k` links.
pub open spec fn depth(nodes: Seq<NodeModel>, i: int, k: nat) -> nat
    decreases k, 0nat,
{
    if k == 0 {
        0
    } else {
        deepest(nodes, i, (k - 1) as nat, nodes.len())
    }
}

/// One more than the largest depth among those of the first `j` nodes that
/// read the node at `i`, and zero where none does.
pub open spec fn deepest(nodes: Seq<NodeModel>, i: int, k: nat, j: nat) -> nat
    decreases k, j,
{
    if j == 0 {
        0
    } else {
        let rest = deepest(nodes, i, k, (j - 1) as nat);
        if reads_at(nodes, j - 1, i) && depth(nodes, j - 1, k) + 1 > rest {
            depth(nodes, j - 1, k) + 1
        } else {
            rest
        }
    }
}

/// The height of the node at `i`: the links of the longest chain of consumers
/// below it. Chains are followed for as many links as there are nodes, which
/// is all of a chain unless the graph has a cycle.
pub open spec fn height(nodes: Seq<NodeModel>, i: int) -> nat {
    depth(nodes, i, nodes.len())
}

/// The height of the node `id`, and zero where there is no such node.
pub open spec fn height_of(nodes: Seq<NodeModel>, id: Text) -> nat {
    if exists|i: int| #[trigger] crate::dag::names(nodes, i, id) {
        height(nodes, choose|i: int| #[trigger] crate::dag::names(nodes, i, id))
    } else {
        0
    }
}

proof fn depth_bounded(nodes: Seq<NodeModel>, i: int, k: nat)
    ensures
        depth(nodes, i, k) <= k,
    decreases k, 0nat,
{
    if k > 0 {
        deepest_bounded(nodes, i, (k - 1) as nat, nodes.len());
    }
}

proof fn deepest_bounded(nodes: Seq<NodeModel>, i: int, k: nat, j: nat)
    ensures
        deepest(nodes, i, k, j) <= k + 1,
    decreases k, j,
{
    if j > 0 {
        deepest_bounded(nodes, i, k, (j - 1) as nat);
        depth_bounded(nodes, j - 1, k);
    }
}

/// A reader among the first `j` nodes counts.
proof fn deepest_covers(nodes: Seq<NodeModel>, i: int, k: nat, j: nat, r: int)
    requires
        0 <= r < j <= nodes.len(),
        reads_at(nodes, r, i),
    ensures
        deepest(nodes, i, k, j) >= depth(nodes, r, k) + 1,
    decreases j,
{
    if r < j - 1 {
        deepest_covers(nodes, i, k, (j - 1) as nat, r);
    }
}

/// `rank` puts every node before the nodes that read it, and gives each node
/// of the listing a place below `nodes.len()`.
pub open spec fn ranked(nodes: Seq<NodeModel>, rank: spec_fn(int) -> nat) -> bool {
    &&& forall|i: int| 0 <= i < nodes.len() ==> #[trigger] rank(i) < nodes.len()
    &&& forall|i: int, j: int| #[trigger] reads_at(nodes, j, i) ==> rank(i) < rank(j)
}

/// With such ranks, chains longer than what lies above a node's rank add
/// nothing.
proof fn depth_settles(nodes: Seq<NodeModel>, rank: spec_fn(int) -> nat, i: int, k: nat)
    requires
        ranked(nodes, rank),
        0 <= i < nodes.len(),
        k + rank(i) + 1 >= nodes.len(),
    ensures
        depth(nodes, i, k + 1) == depth(nodes, i, k),
    decreases k, 0nat,
{
    if k == 0 {
        assert forall|j: int| !(#[trigger] reads_at(nodes, j, i)) by {
            if reads_at(nodes, j, i) {
                assert(rank(i) < rank(j));
                assert(rank(j) < nodes.len());
            }
        }
        nothing_deeper(nodes, i, 0, nodes.len());
    } else {
        deepest_settles(nodes, rank, i, (k - 1) as nat, nodes.len());
    }
}

proof fn nothing_deeper(nodes: Seq<NodeModel>, i: int, k: nat, j: nat)
    requires
        forall|r: int| !(#[trigger] reads_at(nodes, r, i)),
    ensures
        deepest(nodes, i, k, j) == 0,
    decreases j,
{
    if j > 0 {
        nothing_deeper(nodes, i, k, (j - 1) as nat);
    }
}

proof fn deepest_settles(nodes: Seq<NodeModel>, rank: spec_fn(int) -> nat, i: int, k: nat, j: nat)
    requires
        ranked(nodes, rank),
        0 <= i < nodes.len(),
        j <= nodes.len(),
        k + 1 + rank(i) + 1 >= nodes.len(),
    ensures
        deepest(nodes, i, k + 1, j) == deepest(nodes, i, k, j),
    decreases k, j,
{
    if j > 0 {
        deepest_settles(nodes, rank, i, k, (j - 1) as nat);
        if reads_at(nodes, j - 1, i) {
            assert(rank(i) < rank(j - 1));
            depth_settles(nodes, rank, j - 1, k);
        }
    }
}

/// In a graph that can be ranked -- one without cycles -- a node stands higher
/// than every node that reads it.
pub proof fn height_above_readers(nodes: Seq<NodeModel>, rank: spec_fn(int) -> nat, i: int, j: int)
    requires
        ranked(nodes, rank),
        reads_at(nodes, j, i),
    ensures
        height(nodes, i) > height(nodes, j),
{
    let n = nodes.len();
    let k = (n - 1) as nat;
    deepest_covers(nodes, i, k, n, j);
    assert(height(nodes, i) == deepest(nodes, i, k, n));
    depth_settles(nodes, rank, j, k);
    assert(k + 1 == n);
}

/// How many of the first `n` nodes read `id`.
pub open spec fn readers(nodes: Seq<NodeModel>, id: Text, n: nat) -> nat
    decreases n,
{
    if n == 0 {
        0
    } else {
        readers(nodes, id, (n - 1) as nat) + if nodes[n - 1].depends_on.contains(id) {
            1nat
        } else {
            0
        }
    }
}

/// The number of ways that lead from `id` through Views alone to a Table or a
/// TempTable, of at most `k` links.
pub open spec fn ways(nodes: Seq<NodeModel>, id: Text, k: nat) -> nat
    decreases k, 0nat,
{
    if k == 0 {
        0
    } else {
        ways_over(nodes, id, (k - 1) as nat, nodes.len())
    }
}

/// Those of the ways whose first link leads to one of the first `j` nodes,
/// with at most `k` links more.
pub open spec fn ways_over(nodes: Seq<NodeModel>, id: Text, k: nat, j: nat) -> nat
    decreases k, j,
{
    if j == 0 {
        0
    } else {
        ways_over(nodes, id, k, (j - 1) as nat) + if nodes[j - 1].depends_on.contains(id) {
            if nodes[j - 1].materialize == MaterializeMode::View {
                ways(nodes, nodes[j - 1].id, k)
            } else {
                1
            }
        } else {
            0
        }
    }
}

/// A View whose work is repeated: more than one node reads it, and more than
/// one way leads from it to a materialized node.
pub open spec fn branch_point(nodes: Seq<NodeModel>, id: Text) -> bool {
    readers(nodes, id, nodes.len()) > 1 && ways(nodes, id, nodes.len()) > 1
}

/// `x`, or the largest machine number where `x` is larger.
pub open spec fn capped(x: nat) -> nat {
    if x <= usize::MAX {
        x
    } else {
        usize::MAX as nat
    }
}

/// The sum of `a` and `b`, or the largest machine number where that is larger.
fn capped_sum(a: usize, b: usize) -> (r: usize)
    ensures
        r == capped((a + b) as nat),
{
    if a <= usize::MAX - b {
        a + b
    } else {
        usize::MAX
    }
}

impl Graph {
    /// Which node reads which: `r[j][i]` where the node at `j` reads the one
    /// at `i`.
    fn read_matrix(&self) -> (r: Vec<Vec<bool>>)
        requires
            self.wf(),
        ensures
            r@.len() == self.listed().len(),
            forall|j: int| 0 <= j < r@.len() ==> (#[trigger] r@[j])@.len() == self.listed().len(),
            forall|i: int, j: int|
                0 <= i < r@.len() && 0 <= j < r@.len() ==> (#[trigger] r@[j]@[i]) == reads_at(self.listed(), j, i),
    {
        let nodes = self.nodes();
        let ghost listed = self.listed();
        let n: usize = nodes.len();
        let mut out: Vec<Vec<bool>> = Vec::new();
        let mut j: usize = 0;
        while j < n
            invariant
                j <= n == nodes@.len() == listed.len(),
                models(nodes@) == listed,
                out@.len() == j,
                forall|b: int| 0 <= b < j ==> (#[trigger] out@[b])@.len() == n,
                forall|a: int, b: int| 0 <= a < n && 0 <= b < j ==> (#[trigger] out@[b]@[a]) == reads_at(listed, b, a),
            decreases n - j,
        {
            let mut row: Vec<bool> = Vec::new();
            let mut i: usize = 0;
            while i < n
                invariant
                    i <= n,
                    j < n == nodes@.len() == listed.len(),
                    models(nodes@) == listed,
                    row@.len() == i,
                    forall|a: int| 0 <= a < i ==> (#[trigger] row@[a]) == reads_at(listed, j as int, a),
                decreases n - i,
            {
                proof {
                    assert(listed[i as int] == nodes@[i as int]@);
                    assert(listed[j as int] == nodes@[j as int]@);
                }
                row.push(contains_text(&nodes[j].depends_on, nodes[i].id.as_str()));
                i = i + 1;
            }
            out.push(row);
            j = j + 1;
        }
        out
    }

    /// The height of each node of the listing.
    pub fn heights(&self) -> (r: Vec<usize>)
        requires
            self.wf(),
        ensures
            r@.len() == self.listed().len(),
            forall|i: int| 0 <= i < r@.len() ==> (#[trigger] r@[i]) == height(self.listed(), i),
    {
        let matrix = self.read_matrix();
        let ghost listed = self.listed();
        let n: usize = self.num_nodes();
        let mut last: Vec<usize> = Vec::new();
        let mut i: usize = 0;
        while i < n
            invariant
                i <= n == listed.len(),
                last@.len() == i,
                forall|a: int| 0 <= a < i ==> (#[trigger] last@[a]) == depth(listed, a, 0),
            decreases n - i,
        {
            last.push(0);
            i = i + 1;
        }
        let mut k: usize = 0;
        while k < n
            invariant
                k <= n == listed.len(),
                matrix@.len() == n,
                forall|j: int| 0 <= j < n ==> (#[trigger] matrix@[j])@.len() == n,
                forall|a: int, b: int|
                    0 <= a < n && 0 <= b < n ==> (#[trigger] matrix@[b]@[a]) == reads_at(listed, b, a),
                last@.len() == n,
                forall|a: int| 0 <= a < n ==> (#[trigger] last@[a]) == depth(listed, a, k as nat),
            decreases n - k,
        {
            let mut next: Vec<usize> = Vec::new();
            let mut i: usize = 0;
            while i < n
                invariant
                    i <= n == listed.len(),
                    k < n,
                    matrix@.len() == n,
                    forall|j: int| 0 <= j < n ==> (#[trigger] matrix@[j])@.len() == n,
                    forall|a: int, b: int|
                        0 <= a < n && 0 <= b < n ==> (#[trigger] matrix@[b]@[a]) == reads_at(listed, b, a),
                    last@.len() == n,
                    forall|a: int| 0 <= a < n ==> (#[trigger] last@[a]) == depth(listed, a, k as nat),
                    next@.len() == i,
                    forall|a: int| 0 <= a < i ==> (#[trigger] next@[a]) == depth(listed, a, (k + 1) as nat),
                decreases n - i,
            {
                let mut best: usize = 0;
                let mut j: usize = 0;
                while j < n
                    invariant
                        i < n == listed.len(),
                        j <= n,
                        k < n,
                        matrix@.len() == n,
                        forall|j: int| 0 <= j < n ==> (#[trigger] matrix@[j])@.len() == n,
                        forall|a: int, b: int|
                            0 <= a < n && 0 <= b < n ==> (#[trigger] matrix@[b]@[a]) == reads_at(listed, b, a),
                        last@.len() == n,
                        forall|a: int| 0 <= a < n ==> (#[trigger] last@[a]) == depth(listed, a, k as nat),
                        best == deepest(listed, i as int, k as nat, j as nat),
                    decreases n - j,
                {
                    proof {
                        depth_bounded(listed, j as int, k as nat);
                        assert(matrix@[j as int]@.len() == n);
                        assert(matrix@[j as int]@[i as int] == reads_at(listed, j as int, i as int));
                    }
                    if matrix[j][i] && last[j] + 1 > best {
                        best = last[j] + 1;
                    }
                    j = j + 1;
                }
                next.push(best);
                i = i + 1;
            }
            last = next;
            k = k + 1;
        }
        last
    }

    /// How many nodes read `id`.
    pub fn out_degree(&self, id: &str) -> (r: usize)
        requires
            self.wf(),
        ensures
            r == readers(self.listed(), id@, self.listed().len()),
    {
        let nodes = self.nodes();
        let ghost listed = self.listed();
        let mut count: usize = 0;
        let mut i: usize = 0;
        while i < nodes.len()
            invariant
                i <= nodes@.len() == listed.len(),
                models(nodes@) == listed,
                count <= i,
                count == readers(listed, id@, i as nat),
            decreases nodes@.len() - i,
        {
            proof {
                assert(listed[i as int] == nodes@[i as int]@);
            }
            if contains_text(&nodes[i].depends_on, id) {
                count = count + 1;
            }
            i = i + 1;
        }
        count
    }

    /// The number of ways from `id` through Views to a materialized node, or
    /// the largest machine number where there are more.
    pub fn paths_to_sinks(&self, id: &str) -> (r: usize)
        requires
            self.wf(),
        ensures
            r == capped(ways(self.listed(), id@, self.listed().len())),
    {
        let matrix = self.read_matrix();
        let nodes = self.nodes();
        let ghost listed = self.listed();
        let n: usize = nodes.len();
        if n == 0 {
            return 0;
        }
        let mut last: Vec<usize> = Vec::new();
        let mut i: usize = 0;
        while i < n
            invariant
                i <= n == listed.len(),
                last@.len() == i,
                forall|a: int| 0 <= a < i ==> (#[trigger] last@[a]) == capped(ways(listed, listed[a].id, 0)),
            decreases n - i,
        {
            last.push(0);
            i = i + 1;
        }
        let mut k: usize = 0;
        while k + 1 < n
            invariant
                k < n == listed.len() == nodes@.len(),
                models(nodes@) == listed,
                matrix@.len() == n,
                forall|j: int| 0 <= j < n ==> (#[trigger] matrix@[j])@.len() == n,
                forall|a: int, b: int|
                    0 <= a < n && 0 <= b < n ==> (#[trigger] matrix@[b]@[a]) == reads_at(listed, b, a),
                last@.len() == n,
                forall|a: int| 0 <= a < n ==> (#[trigger] last@[a]) == capped(ways(listed, listed[a].id, k as nat)),
            decreases n - k,
        {
            let mut next: Vec<usize> = Vec::new();
            let mut i: usize = 0;
            while i < n
                invariant
                    i <= n == listed.len() == nodes@.len(),
                    models(nodes@) == listed,
                    matrix@.len() == n,
                    forall|j: int| 0 <= j < n ==> (#[trigger] matrix@[j])@.len() == n,
                    forall|a: int, b: int|
                        0 <= a < n && 0 <= b < n ==> (#[trigger] matrix@[b]@[a]) == reads_at(listed, b, a),
                    last@.len() == n,
                    k < n,
                    forall|a: int| 0 <= a < n ==> (#[trigger] last@[a]) == capped(ways(listed, listed[a].id, k as nat)),
                    next@.len() == i,
                    forall|a: int|
                        0 <= a < i ==> (#[trigger] next@[a]) == capped(ways(listed, listed[a].id, (k + 1) as nat)),
                decreases n - i,
            {
                let mut sum: usize = 0;
                let mut j: usize = 0;
                while j < n
                    invariant
                        i < n == listed.len() == nodes@.len(),
                        j <= n,
                        models(nodes@) == listed,
                        matrix@.len() == n,
                        forall|j: int| 0 <= j < n ==> (#[trigger] matrix@[j])@.len() == n,
                        forall|a: int, b: int|
                            0 <= a < n && 0 <= b < n ==> (#[trigger] matrix@[b]@[a]) == reads_at(listed, b, a),
                        last@.len() == n,
                        forall|a: int|
                            0 <= a < n ==> (#[trigger] last@[a]) == capped(ways(listed, listed[a].id, k as nat)),
                        sum == capped(ways_over(listed, listed[i as int].id, k as nat, j as nat)),
                    decreases n - j,
                {
                    proof {
                        assert(matrix@[j as int]@.len() == n);
                        assert(matrix@[j as int]@[i as int] == reads_at(listed, j as int, i as int));
                        assert(listed[j as int] == nodes@[j as int]@);
                    }
                    if matrix[j][i] {
                        if nodes[j].materialize == MaterializeMode::View {
                            sum = capped_sum(sum, last[j]);
                        } else {
                            sum = capped_sum(sum, 1);
                        }
                    }
                    j = j + 1;
                }
                next.push(sum);
                i = i + 1;
            }
            last = next;
            k = k + 1;
        }
        let mut sum: usize = 0;
        let mut j: usize = 0;
        while j < n
            invariant
                j <= n == listed.len() == nodes@.len(),
                k + 1 == n,
                models(nodes@) == listed,
                last@.len() == n,
                forall|a: int| 0 <= a < n ==> (#[trigger] last@[a]) == capped(ways(listed, listed[a].id, k as nat)),
                sum == capped(ways_over(listed, id@, k as nat, j as nat)),
            decreases n - j,
        {
            proof {
                assert(listed[j as int] == nodes@[j as int]@);
            }
            if contains_text(&nodes[j].depends_on, id) {
                if nodes[j].materialize == MaterializeMode::View {
                    sum = capped_sum(sum, last[j]);
                } else {
                    sum = capped_sum(sum, 1);
                }
            }
            j = j + 1;
        }
        sum
    }

    /// Whether `id` is a branch point.
    pub fn is_branch_point(&self, id: &str) -> (r: bool)
        requires
            self.wf(),
        ensures
            r == branch_point(self.listed(), id@),
    {
        self.out_degree(id) > 1 && self.paths_to_sinks(id) > 1
    }
}

proof fn readers_taken(a: Seq<NodeModel>, b: Seq<NodeModel>, id: Text, n: nat)
    requires
        n <= a.len(),
        n <= b.len(),
        forall|i: int| 0 <= i < n ==> a[i] == b[i],
    ensures
        readers(a, id, n) == readers(b, id, n),
    decreases n,
{
    if n > 0 {
        readers_taken(a, b, id, (n - 1) as nat);
    }
}

/// Every node that reads another counts as a reader of it, once.
pub proof fn every_reader_counts(nodes: Seq<NodeModel>, node: NodeModel, id: Text)
    ensures
        readers(nodes.push(node), id, nodes.len() + 1) == readers(nodes, id, nodes.len()) + (if node.depends_on.contains(id) {
            1int
        } else {
            0
        }),
        readers(nodes, id, 0) == 0,
{
    let more = nodes.push(node);
    readers_taken(nodes, more, id, nodes.len());
    assert(more[nodes.len() as int] == node);
}

/// A node that only Tables and TempTables read has a way to each of them.
pub proof fn each_materialized_reader_is_a_way(nodes: Seq<NodeModel>, id: Text, k: nat)
    requires
        k > 0,
        forall|i: int|
            0 <= i < nodes.len() && (#[trigger] nodes[i]).depends_on.contains(id) ==> nodes[i].materialize
                != MaterializeMode::View,
    ensures
        ways(nodes, id, k) == readers(nodes, id, nodes.len()),
{
    direct_ways(nodes, id, (k - 1) as nat, nodes.len());
}

proof fn direct_ways(nodes: Seq<NodeModel>, id: Text, k: nat, j: nat)
    requires
        j <= nodes.len(),
        forall|i: int|
            0 <= i < nodes.len() && (#[trigger] nodes[i]).depends_on.contains(id) ==> nodes[i].materialize
                != MaterializeMode::View,
    ensures
        ways_over(nodes, id, k, j) == readers(nodes, id, j),
    decreases j,
{
    if j > 0 {
        direct_ways(nodes, id, k, (j - 1) as nat);
        assert(nodes[j - 1].depends_on.contains(id) ==> nodes[j - 1].materialize != MaterializeMode::View);
    }
}

/// A node that two Views alone read has the ways of the one and of the other.
pub proof fn the_ways_of_views_add_up(nodes: Seq<NodeModel>, id: Text, k: nat, a: int, b: int)
    requires
        0 <= a < b < nodes.len(),
        nodes[a].depends_on.contains(id),
        nodes[b].depends_on.contains(id),
        nodes[a].materialize == MaterializeMode::View,
        nodes[b].materialize == MaterializeMode::View,
        forall|i: int| 0 <= i < nodes.len() && i != a && i != b ==> !(#[trigger] nodes[i]).depends_on.contains(id),
    ensures
        ways(nodes, id, k + 1) == ways(nodes, nodes[a].id, k) + ways(nodes, nodes[b].id, k),
{
    two_ways(nodes, id, k, a, b, nodes.len());
}

proof fn two_ways(nodes: Seq<NodeModel>, id: Text, k: nat, a: int, b: int, j: nat)
    requires
        0 <= a < b < nodes.len(),
        j <= nodes.len(),
        nodes[a].depends_on.contains(id),
        nodes[b].depends_on.contains(id),
        nodes[a].materialize == MaterializeMode::View,
        nodes[b].materialize == MaterializeMode::View,
        forall|i: int| 0 <= i < nodes.len() && i != a && i != b ==> !(#[trigger] nodes[i]).depends_on.contains(id),
    ensures
        ways_over(nodes, id, k, j) == (if a < j {
            ways(nodes, nodes[a].id, k) as int
        } else {
            0
        }) + (if b < j {
            ways(nodes, nodes[b].id, k) as int
        } else {
            0
        }),
    decreases j,
{
    if j > 0 {
        two_ways(nodes, id, k, a, b, (j - 1) as nat);
        if j - 1 != a && j - 1 != b {
            assert(!nodes[j - 1].depends_on.contains(id));
        }
    }
}

/// A node stands one above the highest of its readers, and a node without
/// readers stands at the bottom.
pub proof fn a_height_is_one_above_a_reader(nodes: Seq<NodeModel>, i: int, k: nat)
    requires
        0 <= i < nodes.len(),
    ensures
        (forall|j: int| 0 <= j < nodes.len() ==> !#[trigger] reads_at(nodes, j, i)) ==> depth(nodes, i, k + 1) == 0,
        depth(nodes, i, k + 1) > 0 ==> exists|j: int|
            0 <= j < nodes.len() && #[trigger] reads_at(nodes, j, i) && depth(nodes, i, k + 1) == depth(nodes, j, k) + 1,
        forall|j: int| 0 <= j < nodes.len() && #[trigger] reads_at(nodes, j, i) ==> depth(nodes, i, k + 1) >= depth(nodes, j, k)
            + 1,
{
    deepest_reader(nodes, i, k, nodes.len());
}

proof fn deepest_reader(nodes: Seq<NodeModel>, i: int, k: nat, n: nat)
    requires
        n <= nodes.len(),
    ensures
        deepest(nodes, i, k, n) > 0 ==> exists|j: int|
            0 <= j < n && #[trigger] reads_at(nodes, j, i) && deepest(nodes, i, k, n) == depth(nodes, j, k) + 1,
        forall|j: int| 0 <= j < n && #[trigger] reads_at(nodes, j, i) ==> deepest(nodes, i, k, n) >= depth(nodes, j, k) + 1,
    decreases n,
{
    if n > 0 {
        deepest_reader(nodes, i, k, (n - 1) as nat);
        let rest = deepest(nodes, i, k, (n - 1) as nat);
        if deepest(nodes, i, k, n) > 0 {
            if deepest(nodes, i, k, n) == rest {
                let j = choose|j: int|
                    0 <= j < n - 1 && #[trigger] reads_at(nodes, j, i) && rest == depth(nodes, j, k) + 1;
                assert(0 <= j < n && reads_at(nodes, j, i));
            } else {
                assert(reads_at(nodes, n - 1, i));
            }
        }
    }
}

/// A View repeats work where two of its readers are materialized; it does not
/// where only one node reads it.
pub proof fn two_materialized_readers_branch(nodes: Seq<NodeModel>, id: Text)
    requires
        nodes.len() > 0,
        forall|i: int|
            0 <= i < nodes.len() && (#[trigger] nodes[i]).depends_on.contains(id) ==> nodes[i].materialize
                != MaterializeMode::View,
    ensures
        branch_point(nodes, id) <==> readers(nodes, id, nodes.len()) >= 2,
{
    each_materialized_reader_is_a_way(nodes, id, nodes.len());
}

} // verus!
