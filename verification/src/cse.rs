//! Common subexpression elimination: one subplan that all nodes share becomes
//! a View that they all read.

use std::marker::PhantomData;
use vstd::prelude::*;

use crate::cspe::{find_plan, flats, holds, PlannedNode};
use crate::dag::{with_text, Graph, GraphModel, MaterializeMode, NodeModel, TransformNode};
use crate::logical::{entries_of, entry_of, flat, flatten_plan, EntryModel, PlanEntry, PlanModel};
use crate::text::{text_eq, texts, Text};

verus! {

/// The plan `s` stands in each of the first `n` plans but the first.
pub open spec fn in_all_others(nodes: Seq<Seq<EntryModel>>, s: PlanModel, n: int) -> bool {
    forall|i: int| 1 <= i < n ==> holds(#[trigger] nodes[i], s)
}

/// `pick` is the position, in the first plan, of the subplan to factor out: the
/// first one, each operator before its inputs, that stands in every other plan;
/// the last one of all where none does.
pub open spec fn is_pick(nodes: Seq<Seq<EntryModel>>, pick: int) -> bool {
    &&& 0 <= pick < nodes[0].len()
    &&& in_all_others(nodes, nodes[0][pick].plan, nodes.len() as int) || pick == nodes[0].len() - 1
    &&& forall|k: int|
        0 <= k < pick ==> !in_all_others(nodes, (#[trigger] nodes[0][k]).plan, nodes.len() as int)
}

/// There is one such position.
pub proof fn pick_is_determined(nodes: Seq<Seq<EntryModel>>, a: int, b: int)
    requires
        is_pick(nodes, a),
        is_pick(nodes, b),
    ensures
        a == b,
{
    if a < b {
        assert(!in_all_others(nodes, nodes[0][a].plan, nodes.len() as int));
    } else if b < a {
        assert(!in_all_others(nodes, nodes[0][b].plan, nodes.len() as int));
    }
}

/// Where the whole plan of the first node stands in every other, that is what
/// is factored out.
pub proof fn a_common_whole_is_picked(nodes: Seq<Seq<EntryModel>>, pick: int)
    requires
        is_pick(nodes, pick),
        in_all_others(nodes, nodes[0][0].plan, nodes.len() as int),
    ensures
        pick == 0,
{
    if pick > 0 {
        assert(!in_all_others(nodes, nodes[0][0].plan, nodes.len() as int));
    }
}

/// Whether a subplan stands in the plan of every node but the first.
fn stands_in_all_others(planned: &Vec<PlannedNode>, e: &PlanEntry<'_>) -> (r: bool)
    ensures
        r == in_all_others(flats(planned@), e.plan@, planned@.len() as int),
{
    let ghost nodes = flats(planned@);
    let mut i: usize = 1;
    while i < planned.len()
        invariant
            1 <= i,
            i <= planned@.len() || i == 1,
            nodes == flats(planned@),
            in_all_others(nodes, e.plan@, i as int),
        decreases planned@.len() - i,
    {
        let entries = flatten_plan(&planned[i].plan);
        proof {
            assert(nodes[i as int] == flat(planned@[i as int].plan@, None, 0));
        }
        if !find_plan(&entries, e.plan) {
            return false;
        }
        i = i + 1;
    }
    true
}

/// The id of the node that is factored out.
pub open spec fn cse_id() -> Text {
    "cse_1"@
}

/// The node that is factored out: a View that reads no node.
pub open spec fn cse_node(sql: Text) -> NodeModel {
    NodeModel {
        id: cse_id(),
        query_text: sql,
        materialize: MaterializeMode::View,
        depends_on: Set::<Text>::empty(),
        schema: None,
    }
}

/// The first `n` nodes of the graph with the queries of their rewritten plans,
/// each of which reads the node that is factored out. That node itself stays.
pub open spec fn pointed(g: GraphModel, listed: Seq<NodeModel>, sqls: Seq<String>, n: nat) -> GraphModel
    decreases n,
{
    if n == 0 {
        g
    } else {
        let node = listed[n - 1];
        let rest = pointed(g, listed, sqls, (n - 1) as nat);
        if node.id == cse_id() {
            rest
        } else {
            rest.insert(
                node.id,
                NodeModel { query_text: sqls[n - 1]@, depends_on: node.depends_on.insert(cse_id()), ..node },
            )
        }
    }
}

/// Common subexpression elimination.
#[derive(Debug)]
pub struct CSEPass<C, E> {
    pub connector: PhantomData<C>,
    pub executor: PhantomData<E>,
}

impl<C, E> CSEPass<C, E> {
    /// A pass.
    pub fn new() -> (r: Self)
        ensures
            r == (CSEPass::<C, E> { connector: PhantomData, executor: PhantomData }),
    {
        CSEPass { connector: PhantomData, executor: PhantomData }
    }

    /// Where, in the flattened plan of the first node, the subplan to factor
    /// out stands.
    pub fn pick(&self, planned: &Vec<PlannedNode>) -> (r: usize)
        requires
            planned@.len() > 0,
        ensures
            is_pick(flats(planned@), r as int),
    {
        let first = flatten_plan(&planned[0].plan);
        let ghost nodes = flats(planned@);
        proof {
            assert(nodes[0] == flat(planned@[0].plan@, None, 0));
            assert(nodes[0] == entries_of(first@));
        }
        let count: usize = first.len();
        let mut i: usize = 0;
        while i < count - 1
            invariant
                i <= count - 1,
                count == first@.len(),
                count > 0,
                nodes == flats(planned@),
                nodes[0] == entries_of(first@),
                forall|k: int|
                    0 <= k < i ==> !in_all_others(nodes, (#[trigger] nodes[0][k]).plan, nodes.len() as int),
            decreases count - i,
        {
            proof {
                assert(nodes[0][i as int] == entry_of(first@[i as int]));
            }
            if stands_in_all_others(planned, &first[i]) {
                return i;
            }
            i = i + 1;
        }
        i
    }

    /// Puts the factored node into the graph, in place of a node of the same
    /// name where there is one, and points every other node at it.
    pub fn eliminate(&self, graph: &mut Graph, shared_sql: String, sqls: &Vec<String>)
        requires
            old(graph).wf(),
            sqls@.len() == old(graph).listed().len(),
        ensures
            final(graph).wf(),
            final(graph)@ == pointed(
                old(graph)@.insert(cse_id(), cse_node(shared_sql@)),
                old(graph).listed(),
                sqls@,
                sqls@.len(),
            ),
    {
        let ghost before = graph@;
        let ghost listed = graph.listed();
        proof {
            graph.listed_is_view();
        }
        let was = graph.copy();
        let nodes = was.nodes();
        let node = TransformNode {
            id: "cse_1".to_owned(),
            query_text: shared_sql,
            materialize: MaterializeMode::View,
            depends_on: Vec::new(),
            schema: None,
        };
        proof {
            assert(texts(node.depends_on@).to_set() =~= Set::<Text>::empty());
            assert(node@ == cse_node(shared_sql@));
        }
        graph.add_node_unchecked(node);
        let ghost start = graph@;
        let mut i: usize = 0;
        while i < sqls.len()
            invariant
                i <= sqls@.len(),
                sqls@.len() == listed.len(),
                crate::dag::models(nodes@) == listed,
                graph.wf(),
                start == before.insert(cse_id(), cse_node(shared_sql@)),
                before == crate::dag::by_id(listed),
                crate::dag::distinct_ids(listed),
                graph@ == pointed(start, listed, sqls@, i as nat),
            decreases sqls@.len() - i,
        {
            let n = &nodes[i];
            proof {
                assert(listed[i as int] == n@);
                crate::dag::by_id_at(listed, i as int);
                untouched(start, listed, sqls@, i as int, i as nat);
            }
            if !text_eq(n.id.as_str(), "cse_1") {
                let deps = with_text(&n.depends_on, "cse_1");
                graph.rewrite_node(n.id.as_str(), sqls[i].clone(), deps);
                proof {
                    assert(graph@ =~= pointed(start, listed, sqls@, (i + 1) as nat));
                }
            }
            i = i + 1;
        }
    }
}

proof fn untouched(g: GraphModel, listed: Seq<NodeModel>, sqls: Seq<String>, k: int, n: nat)
    requires
        crate::dag::distinct_ids(listed),
        n <= k < listed.len(),
        g.contains_key(listed[k].id),
    ensures
        pointed(g, listed, sqls, n).contains_key(listed[k].id),
        pointed(g, listed, sqls, n)[listed[k].id] == g[listed[k].id],
    decreases n,
{
    if n > 0 {
        untouched(g, listed, sqls, k, (n - 1) as nat);
        assert(listed[n - 1].id != listed[k].id);
    }
}

/// Every other node reads the factored node afterwards, and the graph gains no
/// other node.
pub proof fn every_node_reads_the_factored_one(
    g: GraphModel,
    listed: Seq<NodeModel>,
    sqls: Seq<String>,
    shared_sql: Text,
    id: Text,
)
    requires
        crate::dag::distinct_ids(listed),
        g == crate::dag::by_id(listed),
        sqls.len() == listed.len(),
    ensures
        ({
            let after = pointed(g.insert(cse_id(), cse_node(shared_sql)), listed, sqls, sqls.len());
            &&& after.contains_key(id) == (g.contains_key(id) || id == cse_id())
            &&& after[cse_id()] == cse_node(shared_sql)
            &&& g.contains_key(id) && id != cse_id() ==> after[id].depends_on == g[id].depends_on.insert(cse_id())
        }),
{
    reads_after(g, listed, sqls, shared_sql, id, sqls.len());
    if g.contains_key(id) {
        let k = crate::dag::by_id_position(listed, id);
    }
}

proof fn reads_after(
    g: GraphModel,
    listed: Seq<NodeModel>,
    sqls: Seq<String>,
    shared_sql: Text,
    id: Text,
    n: nat,
)
    requires
        crate::dag::distinct_ids(listed),
        g == crate::dag::by_id(listed),
        n <= listed.len(),
    ensures
        ({
            let after = pointed(g.insert(cse_id(), cse_node(shared_sql)), listed, sqls, n);
            &&& after.contains_key(id) == (g.contains_key(id) || id == cse_id())
            &&& after[cse_id()] == cse_node(shared_sql)
            &&& forall|k: int|
                0 <= k < n && (#[trigger] listed[k]).id != cse_id() ==> after[listed[k].id].depends_on
                    == listed[k].depends_on.insert(cse_id())
        }),
    decreases n,
{
    if n > 0 {
        reads_after(g, listed, sqls, shared_sql, id, (n - 1) as nat);
        crate::dag::by_id_at(listed, n - 1);
        let after = pointed(g.insert(cse_id(), cse_node(shared_sql)), listed, sqls, n);
        assert forall|k: int| 0 <= k < n && (#[trigger] listed[k]).id != cse_id() implies after[listed[k].id].depends_on
            == listed[k].depends_on.insert(cse_id()) by {
            if k < n - 1 {
                assert(listed[k].id != listed[n - 1].id);
            }
        }
    }
}

} // verus!
