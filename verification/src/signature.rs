//! Telling graphs apart.

use vstd::prelude::*;
use vstd::string::*;

use crate::dag::{Graph, GraphModel, MaterializeMode, NodeModel, TransformNode};
use crate::order::{
    alphabetical, list_of, listing, listing_unique, picked, sort_texts, stable_order, stable_order_unique, stably_sorted,
};
use crate::text::{join, joined, texts, Text};

verus! {

/// The name of a way to keep a result.
pub open spec fn mode_name(m: MaterializeMode) -> Text {
    match m {
        MaterializeMode::View => " view ["@,
        MaterializeMode::Table => " table ["@,
        MaterializeMode::TempTable => " temp ["@,
    }
}

/// `sig` tells a node from others: its id, how it is kept, what it reads and
/// its query.
pub open spec fn is_node_signature(n: NodeModel, sig: Text) -> bool {
    exists|deps: Seq<Text>|
        #[trigger] listing(deps, n.depends_on) && sig == n.id + mode_name(n.materialize) + joined(deps, ","@) + "] "@
            + n.query_text
}

/// What tells a node from others.
pub fn node_signature(n: &TransformNode) -> (r: String)
    ensures
        is_node_signature(n@, r@),
{
    let deps = list_of(&n.depends_on);
    let mut out = n.id.clone();
    match n.materialize {
        MaterializeMode::View => out.append(" view ["),
        MaterializeMode::Table => out.append(" table ["),
        MaterializeMode::TempTable => out.append(" temp ["),
    }
    out.append(join(&deps, ",").as_str());
    out.append("] ");
    out.append(n.query_text.as_str());
    proof {
        assert(listing(texts(deps@), n@.depends_on));
    }
    out
}

/// `sigs` are the signatures of the nodes `ids` of a graph.
pub open spec fn are_signatures(g: GraphModel, ids: Seq<Text>, sigs: Seq<Text>) -> bool {
    &&& sigs.len() == ids.len() <= usize::MAX
    &&& forall|k: int| 0 <= k < ids.len() ==> is_node_signature(g[#[trigger] ids[k]], sigs[k])
}

/// `sig` tells a graph from others: the signatures of its nodes, all of them, in
/// lexicographic order.
pub open spec fn is_signature(g: GraphModel, sig: Text) -> bool {
    exists|ids: Seq<Text>, sigs: Seq<Text>, list: Seq<Text>|
        #[trigger] listing(ids, g.dom()) && #[trigger] are_signatures(g, ids, sigs) && #[trigger] stably_sorted(
            list,
            sigs,
            alphabetical(),
        ) && sig == joined(list, "|"@)
}

proof fn node_signature_unique(n: NodeModel, a: Text, b: Text)
    requires
        is_node_signature(n, a),
        is_node_signature(n, b),
    ensures
        a == b,
{
    let p = choose|deps: Seq<Text>|
        #[trigger] listing(deps, n.depends_on) && a == n.id + mode_name(n.materialize) + joined(deps, ","@) + "] "@
            + n.query_text;
    let q = choose|deps: Seq<Text>|
        #[trigger] listing(deps, n.depends_on) && b == n.id + mode_name(n.materialize) + joined(deps, ","@) + "] "@
            + n.query_text;
    listing_unique(p, q, n.depends_on);
}

/// Two graphs that hold the same nodes have the same signature, whatever order
/// they were built in.
pub proof fn signature_unique(g: GraphModel, a: Text, b: Text)
    requires
        is_signature(g, a),
        is_signature(g, b),
    ensures
        a == b,
{
    let (ids, sigs, list) = choose|ids: Seq<Text>, sigs: Seq<Text>, list: Seq<Text>|
        #[trigger] listing(ids, g.dom()) && #[trigger] are_signatures(g, ids, sigs) && #[trigger] stably_sorted(
            list,
            sigs,
            alphabetical(),
        ) && a == joined(list, "|"@);
    let (ids2, sigs2, list2) = choose|ids: Seq<Text>, sigs: Seq<Text>, list: Seq<Text>|
        #[trigger] listing(ids, g.dom()) && #[trigger] are_signatures(g, ids, sigs) && #[trigger] stably_sorted(
            list,
            sigs,
            alphabetical(),
        ) && b == joined(list, "|"@);
    listing_unique(ids, ids2, g.dom());
    assert forall|k: int| 0 <= k < sigs.len() implies sigs[k] == sigs2[k] by {
        assert(ids[k] == ids2[k]);
        node_signature_unique(g[ids[k]], sigs[k], sigs2[k]);
    }
    assert(sigs =~= sigs2);
    let p = choose|p: Seq<usize>| #[trigger] stable_order(p, sigs, alphabetical()) && list == picked(sigs, p);
    let q = choose|q: Seq<usize>| #[trigger] stable_order(q, sigs, alphabetical()) && list2 == picked(sigs, q);
    stable_order_unique(p, q, sigs, alphabetical());
}

/// What tells a graph from others.
pub fn dag_signature(g: &Graph) -> (r: String)
    requires
        g.wf(),
    ensures
        is_signature(g@, r@),
{
    let ids = list_of(&g.ids());
    let ghost all = texts(ids@);
    let mut sigs: Vec<String> = Vec::new();
    let mut i: usize = 0;
    while i < ids.len()
        invariant
            i <= ids@.len(),
            g.wf(),
            all == texts(ids@),
            listing(all, g@.dom()),
            sigs@.len() == i,
            forall|k: int| 0 <= k < i ==> is_node_signature(g@[all[k]], (#[trigger] sigs@[k])@),
        decreases ids@.len() - i,
    {
        proof {
            assert(all[i as int] == ids@[i as int]@);
            assert(all.to_set().contains(all[i as int]));
        }
        if let Some(node) = g.get(ids[i].as_str()) {
            sigs.push(node_signature(node));
        }
        i = i + 1;
    }
    let list = sort_texts(&sigs);
    let r = join(&list, "|");
    proof {
        assert(are_signatures(g@, all, texts(sigs@))) by {
            assert forall|k: int| 0 <= k < all.len() implies is_node_signature(g@[#[trigger] all[k]], texts(sigs@)[k]) by {
                assert(texts(sigs@)[k] == sigs@[k]@);
            }
        }
        assert(stably_sorted(texts(list@), texts(sigs@), alphabetical()));
    }
    r
}

/// Of two nodes with the same id that read the same, those of one signature are
/// kept in the same way and have the same query.
pub proof fn a_changed_node_has_another_signature(a: NodeModel, b: NodeModel, sig: Text)
    requires
        a.id == b.id,
        a.depends_on == b.depends_on,
        is_node_signature(a, sig),
        is_node_signature(b, sig),
    ensures
        a.materialize == b.materialize,
        a.query_text == b.query_text,
{
    let p = choose|deps: Seq<Text>|
        #[trigger] listing(deps, a.depends_on) && sig == a.id + mode_name(a.materialize) + joined(deps, ","@) + "] "@
            + a.query_text;
    let q = choose|deps: Seq<Text>|
        #[trigger] listing(deps, b.depends_on) && sig == b.id + mode_name(b.materialize) + joined(deps, ","@) + "] "@
            + b.query_text;
    listing_unique(p, q, a.depends_on);
    reveal_strlit(" view [");
    reveal_strlit(" table [");
    reveal_strlit(" temp [");
    let at = a.id.len() as int;
    assert(sig[at + 1] == mode_name(a.materialize)[1]);
    assert(sig[at + 1] == mode_name(b.materialize)[1]);
    assert(sig[at + 2] == mode_name(a.materialize)[2]);
    assert(sig[at + 2] == mode_name(b.materialize)[2]);
    assert(a.materialize == b.materialize);
    let head = a.id + mode_name(a.materialize) + joined(p, ","@) + "] "@;
    assert(a.query_text =~= sig.skip(head.len() as int));
    assert(b.query_text =~= sig.skip(head.len() as int));
}

} // verus!
