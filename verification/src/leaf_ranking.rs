//! Ranking Views by the regions of their consumers' plans.
//!
//! A consumer's measured time is split between itself and the Views inlined
//! into it, by the shares that their regions have in its plan.

use vstd::prelude::*;
use vstd::string::*;

use crate::combo::{canonical, canonical_order};
use crate::dag::{by_id, by_id_at, by_id_position, models, pushed_to_set, Dag, Graph, GraphModel, MaterializeMode, NodeModel};
use crate::leafset::{
    attribute_chain, laid_in, leaves_in, placed, root_time, size_in, Annotated, Attribution, PlanArena, ViewRegionRequest,
};
use crate::learned::{is_twice_median, median};
use crate::levels::branch_point;
use crate::order::{alphabetical, list_of, listing, picked, sort_texts, stable_order, stably_sorted};
use crate::plan::{cap64, PlanNode};
use crate::ranking::{
    find_stat, plan_in, rank_rows, ranked, ranking_score, row_models, score_of, stat_of, NodeRankingRow, NodeStat, RowModel,
};
use crate::sql::{
    has_top_level_group_by, dialect_for_db, dialect_name, named_dialect, parsed_table_refs, ref_matches, references, select_shape_of,
    shape_collapses, spellings, table_ref_matches, tables_of, unicode_lower, Dialect, NameModel, TableName,
};
use crate::text::{
    contains_text, decimal, decimal_wide, round_div, rounded, rounded_is_the_nearest, text_eq, texts, Text,
};
use crate::walk::{closed_upstream, downstream, frontier, is_view, reads, upstream, upstream_closed};

verus! {

/// The Views of a graph.
pub open spec fn views_of(g: GraphModel) -> GraphModel {
    g.restrict(Set::new(|id: Text| is_view(g, id)))
}

/// A reference means a relation that is scanned: a source, or a node that is
/// materialized.
pub open spec fn scanned(g: GraphModel, sources: Seq<Text>, t: NameModel) -> bool {
    ||| exists|i: int| 0 <= i < sources.len() && ref_matches(t, #[trigger] sources[i])
    ||| exists|id: Text| #[trigger] g.contains_key(id) && !is_view(g, id) && ref_matches(t, id)
}

/// The references of the node's query hold `t`.
pub open spec fn refers(g: GraphModel, dialect: Dialect, id: Text, t: NameModel) -> bool {
    g.contains_key(id) && (parsed_table_refs(g[id].query_text, dialect_name(dialect)) matches Some(refs) && tables_of(refs).contains(t))
}

/// The relations that a View reads once the Views that it reads are inlined.
pub open spec fn leaf_names(g: GraphModel, dialect: Dialect, sources: Seq<Text>, view: Text) -> Set<Text> {
    Set::new(
        |name: Text|
            exists|v: Text, t: NameModel|
                upstream(views_of(g), set![view]).contains(v) && #[trigger] refers(views_of(g), dialect, v, t) && scanned(
                    g,
                    sources,
                    t,
                ) && t.name == name,
    )
}

/// The Views that read `view`, directly or through Views.
pub open spec fn reading_views(g: GraphModel, view: Text) -> Set<Text> {
    Set::new(|m: Text| downstream(g, view).contains(m) && is_view(g, m))
}

/// The Views of a graph, as a graph.
fn only_views(g: &Graph) -> (r: Graph)
    requires
        g.wf(),
    ensures
        r.wf(),
        r@ == views_of(g@),
{
    proof {
        g.listed_is_view();
    }
    let nodes = g.nodes();
    let ghost listed = g.listed();
    let mut out = Graph::new();
    let mut i: usize = 0;
    while i < nodes.len()
        invariant
            i <= nodes@.len(),
            g.wf(),
            listed == g.listed(),
            g@ == by_id(listed),
            crate::dag::distinct_ids(listed),
            models(nodes@) == listed,
            out.wf(),
            forall|id: Text|
                out@.contains_key(id) <==> exists|k: int|
                    0 <= k < i && (#[trigger] listed[k]).id == id && listed[k].materialize == MaterializeMode::View,
            forall|id: Text| #[trigger] out@.contains_key(id) ==> out@[id] == g@[id],
        decreases nodes@.len() - i,
    {
        let ghost had = out@;
        proof {
            assert(models(nodes@)[i as int] == nodes@[i as int]@);
            by_id_at(listed, i as int);
        }
        if nodes[i].materialize == MaterializeMode::View {
            out.add_node_unchecked(nodes[i].copy());
        }
        proof {
            assert forall|id: Text|
                out@.contains_key(id) <==> exists|k: int|
                    0 <= k < i + 1 && (#[trigger] listed[k]).id == id && listed[k].materialize == MaterializeMode::View by {
                if had.contains_key(id) {
                    let k = choose|k: int|
                        0 <= k < i && (#[trigger] listed[k]).id == id && listed[k].materialize == MaterializeMode::View;
                    assert(0 <= k < i + 1 && listed[k].id == id);
                }
                if listed[i as int].materialize == MaterializeMode::View && id == listed[i as int].id {
                    assert(out@.contains_key(id));
                }
            }
        }
        i = i + 1;
    }
    proof {
        assert forall|id: Text| out@.contains_key(id) == views_of(g@).contains_key(id) by {
            if out@.contains_key(id) {
                let k = choose|k: int|
                    0 <= k < listed.len() && (#[trigger] listed[k]).id == id && listed[k].materialize == MaterializeMode::View;
                by_id_at(listed, k);
            }
            if views_of(g@).contains_key(id) {
                let k = by_id_position(listed, id);
                assert(listed[k].id == id);
            }
        }
        assert(out@ =~= views_of(g@));
    }
    out
}

/// Whether a reference means a relation that is scanned.
fn is_scanned(g: &Graph, sources: &Vec<String>, t: &TableName) -> (r: bool)
    requires
        g.wf(),
    ensures
        r == scanned(g@, texts(sources@), t@),
{
    let ghost names = texts(sources@);
    let mut i: usize = 0;
    while i < sources.len()
        invariant
            i <= sources@.len(),
            names == texts(sources@),
            forall|k: int| 0 <= k < i ==> !ref_matches(t@, #[trigger] names[k]),
        decreases sources@.len() - i,
    {
        proof {
            assert(names[i as int] == sources@[i as int]@);
        }
        if table_ref_matches(t, sources[i].as_str()) {
            return true;
        }
        i = i + 1;
    }
    proof {
        g.listed_is_view();
    }
    let nodes = g.nodes();
    let ghost listed = g.listed();
    let mut j: usize = 0;
    while j < nodes.len()
        invariant
            j <= nodes@.len(),
            g.wf(),
            listed == g.listed(),
            g@ == by_id(listed),
            crate::dag::distinct_ids(listed),
            models(nodes@) == listed,
            forall|k: int|
                0 <= k < j ==> (#[trigger] listed[k]).materialize == MaterializeMode::View || !ref_matches(t@, listed[k].id),
        decreases nodes@.len() - j,
    {
        proof {
            assert(models(nodes@)[j as int] == nodes@[j as int]@);
            by_id_at(listed, j as int);
        }
        if nodes[j].materialize != MaterializeMode::View && table_ref_matches(t, nodes[j].id.as_str()) {
            proof {
                assert(g@.contains_key(listed[j as int].id));
            }
            return true;
        }
        j = j + 1;
    }
    proof {
        assert forall|id: Text| #[trigger] g@.contains_key(id) && !is_view(g@, id) implies !ref_matches(t@, id) by {
            let k = by_id_position(listed, id);
            assert(listed[k].materialize != MaterializeMode::View);
        }
    }
    false
}

/// Some of the first `n` references are scanned and called `name`.
spec fn hits(g: GraphModel, want: Seq<Text>, refs: Seq<NameModel>, n: nat, name: Text) -> bool
    decreases n,
{
    n > 0 && (hits(g, want, refs, (n - 1) as nat, name) || (scanned(g, want, refs[n - 1]) && refs[n - 1].name == name))
}

proof fn hits_some(g: GraphModel, want: Seq<Text>, refs: Seq<NameModel>, n: nat, name: Text)
    requires
        n <= refs.len(),
    ensures
        hits(g, want, refs, n, name) == exists|m: int|
            0 <= m < n && scanned(g, want, #[trigger] refs[m]) && refs[m].name == name,
    decreases n,
{
    if n > 0 {
        hits_some(g, want, refs, (n - 1) as nat, name);
        if hits(g, want, refs, (n - 1) as nat, name) {
            let m = choose|m: int| 0 <= m < n - 1 && scanned(g, want, #[trigger] refs[m]) && refs[m].name == name;
            assert(0 <= m < n && scanned(g, want, refs[m]));
        }
        if exists|m: int| 0 <= m < n && scanned(g, want, #[trigger] refs[m]) && refs[m].name == name {
            let m = choose|m: int| 0 <= m < n && scanned(g, want, #[trigger] refs[m]) && refs[m].name == name;
            if m < n - 1 {
                assert(0 <= m < n - 1 && scanned(g, want, refs[m]));
            }
        }
    }
}

/// A node that is not marked, or whose query does not parse, adds nothing.
proof fn nothing_found(
    g: GraphModel,
    views: GraphModel,
    dialect: Dialect,
    want: Seq<Text>,
    listed: Seq<NodeModel>,
    marks: Seq<bool>,
    found: Seq<Text>,
    i: int,
)
    requires
        0 <= i < listed.len(),
        !marks[i] || forall|t: NameModel| !refers(views, dialect, listed[i].id, t),
        forall|name: Text|
            found.contains(name) <==> exists|k: int, t: NameModel|
                0 <= k < i && #[trigger] marks[k] && #[trigger] refers(views, dialect, listed[k].id, t) && scanned(g, want, t)
                    && t.name == name,
    ensures
        forall|name: Text|
            found.contains(name) <==> exists|k: int, t: NameModel|
                0 <= k < i + 1 && #[trigger] marks[k] && #[trigger] refers(views, dialect, listed[k].id, t) && scanned(
                    g,
                    want,
                    t,
                ) && t.name == name,
{
    assert forall|name: Text|
        found.contains(name) <==> exists|k: int, t: NameModel|
            0 <= k < i + 1 && #[trigger] marks[k] && #[trigger] refers(views, dialect, listed[k].id, t) && scanned(g, want, t)
                && t.name == name by {
        if found.contains(name) {
            let (k, t) = choose|k: int, t: NameModel|
                0 <= k < i && #[trigger] marks[k] && #[trigger] refers(views, dialect, listed[k].id, t) && scanned(g, want, t)
                    && t.name == name;
            assert(0 <= k < i + 1 && marks[k] && refers(views, dialect, listed[k].id, t));
        }
        if exists|k: int, t: NameModel|
            0 <= k < i + 1 && #[trigger] marks[k] && #[trigger] refers(views, dialect, listed[k].id, t) && scanned(g, want, t)
                && t.name == name {
            let (k, t) = choose|k: int, t: NameModel|
                0 <= k < i + 1 && #[trigger] marks[k] && #[trigger] refers(views, dialect, listed[k].id, t) && scanned(
                    g,
                    want,
                    t,
                ) && t.name == name;
            assert(k < i);
            assert(0 <= k < i && marks[k] && refers(views, dialect, listed[k].id, t));
        }
    }
}

/// The relations that a View reads once the Views that it reads are inlined.
pub fn leaf_sources(g: &Graph, dialect: Dialect, sources: &Vec<String>, view: &str) -> (r: Vec<String>)
    requires
        g.wf(),
    ensures
        listing(texts(r@), leaf_names(g@, dialect, texts(sources@), view@)),
{
    let views = only_views(g);
    let mut start: Vec<String> = Vec::new();
    start.push(view.to_owned());
    let marks = views.upstream_marks(&start);
    let ghost inside = upstream(views_of(g@), set![view@]);
    proof {
        assert(texts(start@).to_set() =~= set![view@]) by {
            assert(texts(start@)[0] == view@);
        }
        views.listed_is_view();
        g.listed_is_view();
    }
    let nodes = views.nodes();
    let ghost listed = views.listed();
    let ghost want = texts(sources@);
    let mut found: Vec<String> = Vec::new();
    let mut i: usize = 0;
    while i < nodes.len()
        invariant
            i <= nodes@.len(),
            g.wf(),
            want == texts(sources@),
            views@ == views_of(g@),
            views@ == by_id(listed),
            crate::dag::distinct_ids(listed),
            models(nodes@) == listed,
            marks@.len() == listed.len(),
            forall|k: int| 0 <= k < marks@.len() ==> (#[trigger] marks@[k]) == inside.contains(listed[k].id),
            forall|name: Text|
                texts(found@).contains(name) <==> exists|k: int, t: NameModel|
                    0 <= k < i && #[trigger] marks@[k] && #[trigger] refers(views@, dialect, listed[k].id, t) && scanned(
                        g@,
                        want,
                        t,
                    ) && t.name == name,
        decreases nodes@.len() - i,
    {
        let ghost before = texts(found@);
        proof {
            assert(models(nodes@)[i as int] == nodes@[i as int]@);
            by_id_at(listed, i as int);
            assert(views@.contains_key(listed[i as int].id));
            assert(views@[listed[i as int].id] == listed[i as int]);
        }
        if marks[i] {
            if let Some(refs) = references(nodes[i].query_text.as_str(), dialect) {
                let ghost all = spellings(refs@);
                let mut j: usize = 0;
                while j < refs.len()
                    invariant
                        j <= refs@.len(),
                        i < nodes@.len(),
                        g.wf(),
                        want == texts(sources@),
                        all == spellings(refs@),
                        forall|name: Text|
                            (#[trigger] texts(found@).contains(name)) == (before.contains(name) || hits(
                                g@,
                                want,
                                all,
                                j as nat,
                                name,
                            )),
                    decreases refs@.len() - j,
                {
                    let ghost had = texts(found@);
                    proof {
                        assert(all[j as int] == refs@[j as int]@);
                    }
                    if is_scanned(g, sources, &refs[j]) {
                        found.push(refs[j].name.clone());
                        proof {
                            assert(texts(found@) =~= had.push(all[j as int].name));
                            pushed_to_set(had, all[j as int].name);
                        }
                    }
                    proof {
                        assert forall|name: Text|
                            (#[trigger] texts(found@).contains(name)) == (before.contains(name) || hits(
                                g@,
                                want,
                                all,
                                (j + 1) as nat,
                                name,
                            )) by {
                            assert(texts(found@).contains(name) == texts(found@).to_set().contains(name));
                            assert(had.contains(name) == had.to_set().contains(name));
                            assert(had.contains(name) == (before.contains(name) || hits(g@, want, all, j as nat, name)));
                        }
                    }
                    j = j + 1;
                }
                proof {
                    assert forall|name: Text|
                        texts(found@).contains(name) <==> exists|k: int, t: NameModel|
                            0 <= k < i + 1 && #[trigger] marks@[k] && #[trigger] refers(views@, dialect, listed[k].id, t)
                                && scanned(g@, want, t) && t.name == name by {
                        let id = listed[i as int].id;
                        if before.contains(name) {
                            let (k, t) = choose|k: int, t: NameModel|
                                0 <= k < i && #[trigger] marks@[k] && #[trigger] refers(views@, dialect, listed[k].id, t)
                                    && scanned(g@, want, t) && t.name == name;
                            assert(0 <= k < i + 1 && marks@[k] && refers(views@, dialect, listed[k].id, t));
                        }
                        hits_some(g@, want, all, all.len(), name);
                        if hits(g@, want, all, all.len(), name) {
                            let m = choose|m: int|
                                0 <= m < all.len() && scanned(g@, want, #[trigger] all[m]) && all[m].name == name;
                            assert(all.contains(all[m]));
                            assert(marks@[i as int] && refers(views@, dialect, listed[i as int].id, all[m]));
                        }
                        if exists|k: int, t: NameModel|
                            0 <= k < i + 1 && #[trigger] marks@[k] && #[trigger] refers(views@, dialect, listed[k].id, t)
                                && scanned(g@, want, t) && t.name == name {
                            let (k, t) = choose|k: int, t: NameModel|
                                0 <= k < i + 1 && #[trigger] marks@[k] && #[trigger] refers(views@, dialect, listed[k].id, t)
                                    && scanned(g@, want, t) && t.name == name;
                            if k < i {
                                assert(0 <= k < i && marks@[k] && refers(views@, dialect, listed[k].id, t));
                                assert(before.contains(name));
                            } else {
                                let m = choose|m: int| 0 <= m < all.len() && all[m] == t;
                                assert(scanned(g@, want, all[m]));
                            }
                        }
                    }
                }
            } else {
                proof {
                    nothing_found(g@, views@, dialect, want, listed, marks@, before, i as int);
                }
            }
        } else {
            proof {
                nothing_found(g@, views@, dialect, want, listed, marks@, before, i as int);
            }
        }
        i = i + 1;
    }
    proof {
        let names = leaf_names(g@, dialect, want, view@);
        assert forall|name: Text| texts(found@).to_set().contains(name) == names.contains(name) by {
            if texts(found@).contains(name) {
                let (k, t) = choose|k: int, t: NameModel|
                    0 <= k < listed.len() && #[trigger] marks@[k] && #[trigger] refers(views@, dialect, listed[k].id, t)
                        && scanned(g@, want, t) && t.name == name;
                assert(inside.contains(listed[k].id) && refers(views@, dialect, listed[k].id, t));
            }
            if names.contains(name) {
                let (v, t) = choose|v: Text, t: NameModel|
                    inside.contains(v) && #[trigger] refers(views@, dialect, v, t) && scanned(g@, want, t) && t.name == name;
                let k = by_id_position(listed, v);
                assert(marks@[k] && refers(views@, dialect, listed[k].id, t));
            }
        }
        assert(texts(found@).to_set() =~= names);
    }
    list_of(&found)
}

/// The Views that read `view`, directly or through Views.
fn list_reading_views(g: &Graph, view: &str) -> (r: Vec<String>)
    requires
        g.wf(),
    ensures
        texts(r@).to_set() == reading_views(g@, view@),
{
    proof {
        g.listed_is_view();
    }
    let marks = g.downstream_marks(view);
    let nodes = g.nodes();
    let ghost listed = g.listed();
    let mut out: Vec<String> = Vec::new();
    let mut i: usize = 0;
    while i < nodes.len()
        invariant
            i <= nodes@.len(),
            g@ == by_id(listed),
            crate::dag::distinct_ids(listed),
            models(nodes@) == listed,
            marks@.len() == listed.len(),
            forall|k: int| 0 <= k < marks@.len() ==> (#[trigger] marks@[k]) == downstream(g@, view@).contains(listed[k].id),
            forall|t: Text|
                texts(out@).contains(t) <==> exists|k: int|
                    0 <= k < i && (#[trigger] listed[k]).id == t && reading_views(g@, view@).contains(t),
        decreases nodes@.len() - i,
    {
        let ghost had = texts(out@);
        proof {
            assert(models(nodes@)[i as int] == nodes@[i as int]@);
            by_id_at(listed, i as int);
        }
        if marks[i] && nodes[i].materialize == MaterializeMode::View {
            out.push(nodes[i].id.clone());
            proof {
                assert(texts(out@) =~= had.push(listed[i as int].id));
                pushed_to_set(had, listed[i as int].id);
            }
        }
        proof {
            assert forall|t: Text|
                texts(out@).contains(t) <==> exists|k: int|
                    0 <= k < i + 1 && (#[trigger] listed[k]).id == t && reading_views(g@, view@).contains(t) by {
                assert(texts(out@).contains(t) == texts(out@).to_set().contains(t));
                assert(had.contains(t) == had.to_set().contains(t));
                if had.contains(t) {
                    let k = choose|k: int|
                        0 <= k < i && (#[trigger] listed[k]).id == t && reading_views(g@, view@).contains(t);
                    assert(0 <= k < i + 1 && listed[k].id == t);
                }
                if t == listed[i as int].id {
                    assert(reading_views(g@, view@).contains(t) == (marks@[i as int] && listed[i as int].materialize
                        == MaterializeMode::View));
                }
            }
        }
        i = i + 1;
    }
    proof {
        assert forall|t: Text| texts(out@).to_set().contains(t) == reading_views(g@, view@).contains(t) by {
            if reading_views(g@, view@).contains(t) {
                let k = by_id_position(listed, t);
                assert(listed[k].id == t);
            }
        }
        assert(texts(out@).to_set() =~= reading_views(g@, view@));
    }
    out
}

/// The Views among the first `n` nodes that are inlined into `consumer`.
pub open spec fn inlined_into(g: GraphModel, listed: Seq<NodeModel>, consumer: Text, n: nat) -> Seq<Text>
    decreases n,
{
    if n == 0 {
        Seq::<Text>::empty()
    } else {
        let rest = inlined_into(g, listed, consumer, (n - 1) as nat);
        let v = listed[n - 1];
        if v.materialize == MaterializeMode::View && frontier(g, v.id).contains(consumer) {
            rest.push(v.id)
        } else {
            rest
        }
    }
}

/// The View's query makes fewer rows of many.
pub open spec fn collapses(g: GraphModel, dialect: Dialect, view: Text) -> bool {
    g.contains_key(view) && match select_shape_of(g[view].query_text, dialect_name(dialect)) {
        Some(shape) => shape_collapses(shape),
        None => false,
    }
}

/// What is asked about a View in a consumer's plan.
pub open spec fn is_request(g: GraphModel, dialect: Dialect, sources: Seq<Text>, view: Text, q: ViewRegionRequest) -> bool {
    &&& q.id@ == view
    &&& listing(texts(q.leaves@), leaf_names(g, dialect, sources, view))
    &&& texts(q.consumers@).to_set() == reading_views(g, view)
    &&& q.prefers_aggregate == collapses(g, dialect, view)
}

/// What is asked about the Views inlined into a consumer, consumer-most first.
pub open spec fn are_requests(
    g: GraphModel,
    listed: Seq<NodeModel>,
    dialect: Dialect,
    sources: Seq<Text>,
    consumer: Text,
    requests: Seq<ViewRegionRequest>,
) -> bool {
    exists|order: Seq<Text>| {
        &&& #[trigger] stably_sorted(order, inlined_into(g, listed, consumer, listed.len()), canonical(listed))
        &&& requests.len() == order.len()
        &&& forall|i: int|
            0 <= i < order.len() ==> is_request(g, dialect, sources, order[i], #[trigger] requests[i])
    }
}

/// What to look for in a consumer's plan: the Views inlined into it.
pub fn requests_for(dag: &Dag, sources: &Vec<String>, consumer: &str) -> (r: Vec<ViewRegionRequest>)
    requires
        dag.wf(),
    ensures
        are_requests(
            dag.nodes@,
            dag.nodes.listed(),
            named_dialect(unicode_lower(dag.db@)),
            texts(sources@),
            consumer@,
            r@,
        ),
{
    let g = &dag.nodes;
    let dialect = dialect_for_db(dag.db.as_str());
    let nodes = g.nodes();
    let ghost listed = g.listed();
    let mut inlined: Vec<String> = Vec::new();
    let mut i: usize = 0;
    proof {
        assert(texts(inlined@) =~= inlined_into(g@, listed, consumer@, 0));
    }
    while i < nodes.len()
        invariant
            i <= nodes@.len(),
            g.wf(),
            models(nodes@) == listed,
            texts(inlined@) == inlined_into(g@, listed, consumer@, i as nat),
        decreases nodes@.len() - i,
    {
        let ghost had = texts(inlined@);
        proof {
            assert(models(nodes@)[i as int] == nodes@[i as int]@);
        }
        if nodes[i].materialize == MaterializeMode::View {
            let reached = g.frontier_materializes(nodes[i].id.as_str());
            proof {
                assert(texts(reached@).contains(consumer@) == texts(reached@).to_set().contains(consumer@));
            }
            if contains_text(&reached, consumer) {
                inlined.push(nodes[i].id.clone());
                proof {
                    assert(texts(inlined@) =~= had.push(listed[i as int].id));
                }
            }
        }
        i = i + 1;
    }
    let order = canonical_order(dag, &inlined);
    let ghost names = texts(order@);
    let mut out: Vec<ViewRegionRequest> = Vec::new();
    let mut j: usize = 0;
    while j < order.len()
        invariant
            j <= order@.len(),
            g.wf(),
            names == texts(order@),
            out@.len() == j,
            forall|k: int|
                0 <= k < j ==> is_request(g@, dialect, texts(sources@), names[k], #[trigger] out@[k]),
        decreases order@.len() - j,
    {
        let view = order[j].as_str();
        proof {
            assert(names[j as int] == view@);
        }
        let prefers_aggregate = match g.get(view) {
            Some(n) => has_top_level_group_by(n.query_text.as_str(), dialect),
            None => false,
        };
        out.push(
            ViewRegionRequest {
                id: order[j].clone(),
                leaves: leaf_sources(g, dialect, sources, view),
                consumers: list_reading_views(g, view),
                prefers_aggregate,
            },
        );
        j = j + 1;
    }
    proof {
        assert(stably_sorted(names, inlined_into(g@, listed, consumer@, listed.len()), canonical(listed)));
    }
    out
}

/// What a View takes of one consumer's time.
#[derive(Debug)]
pub struct RegionShare {
    pub view: String,
    /// Its part of the consumer's measured time, in nanoseconds.
    pub time: u64,
    /// The rows that its region makes.
    pub rows: Option<u64>,
    /// The region, in words.
    pub matched: String,
}

/// What a View takes of one consumer's time, as the specifications see it.
#[verifier::ext_equal]
pub struct ShareModel {
    pub view: Text,
    pub time: u64,
    pub rows: Option<u64>,
    pub matched: Text,
}

impl View for RegionShare {
    type V = ShareModel;

    open spec fn view(&self) -> ShareModel {
        ShareModel { view: self.view@, time: self.time, rows: self.rows, matched: self.matched@ }
    }
}

/// What Views take, as the specifications see it.
pub open spec fn share_models(s: Seq<RegionShare>) -> Seq<ShareModel> {
    s.map_values(|x: RegionShare| x@)
}

/// The most of a consumer's time that one View is charged, in hundredths: a
/// consumer that does work of its own keeps some.
pub const MAX_SHARE: u64 = 95;

/// A region's part of the measured time of a plan that takes `total`.
pub open spec fn part_of(measured: u64, region: u64, total: u64) -> u64 {
    if region * 100 >= MAX_SHARE * total {
        (measured * MAX_SHARE / 100) as u64
    } else {
        (measured * region / total as int) as u64
    }
}

/// A region's part in whole hundredths.
pub open spec fn hundredths(region: u64, total: u64) -> nat {
    if region * 100 >= MAX_SHARE * total {
        MAX_SHARE as nat
    } else {
        rounded((region * 100) as nat, total as nat)
    }
}

/// What the region `a` takes of a consumer's time.
pub open spec fn share_of(
    nodes: Seq<Annotated>,
    a: Attribution,
    view: Text,
    consumer: Text,
    measured: u64,
    total: u64,
) -> ShareModel {
    ShareModel {
        view,
        time: part_of(measured, a.secs, total),
        rows: a.cardinality,
        matched: nodes[a.node as int].operator@ + " in "@ + consumer + " ("@ + decimal(hundredths(a.secs, total)) + "%)"@,
    }
}

/// What the first `n` Views take of a consumer's time, each counted once.
pub open spec fn shares_from(
    nodes: Seq<Annotated>,
    regions: Map<Text, Attribution>,
    ids: Seq<Text>,
    consumer: Text,
    measured: u64,
    total: u64,
    n: nat,
) -> Seq<ShareModel>
    decreases n,
{
    if n == 0 {
        Seq::<ShareModel>::empty()
    } else {
        let rest = shares_from(nodes, regions, ids, consumer, measured, total, (n - 1) as nat);
        if regions.contains_key(ids[n - 1]) && !ids.take(n - 1).contains(ids[n - 1]) {
            rest.push(share_of(nodes, regions[ids[n - 1]], ids[n - 1], consumer, measured, total))
        } else {
            rest
        }
    }
}

/// The Views asked about.
pub open spec fn request_ids(q: Seq<ViewRegionRequest>) -> Seq<Text> {
    q.map_values(|x: ViewRegionRequest| x.id@)
}

/// `shares` is what the Views asked about take of a consumer's time, by its
/// plan. A plan without times says nothing.
pub open spec fn plan_shares(
    roots: Seq<PlanNode>,
    requests: Seq<ViewRegionRequest>,
    consumer: Text,
    measured: u64,
    shares: Seq<ShareModel>,
) -> bool {
    exists|nodes: Seq<Annotated>| {
        &&& #[trigger] laid_in(nodes, 0, roots, None)
        &&& nodes.len() == size_in(roots)
        &&& ({
            let total = cap64(root_time(nodes, nodes.len()));
            if total == 0 {
                shares.len() == 0
            } else {
                shares == shares_from(
                    nodes,
                    placed(nodes, requests, requests.len()),
                    request_ids(requests),
                    consumer,
                    measured,
                    total,
                    requests.len(),
                )
            }
        })
    }
}

/// A region's part of a measured time.
fn take_part(measured: u64, region: u64, total: u64) -> (r: (u64, u128))
    requires
        total > 0,
    ensures
        r.0 == part_of(measured, region, total),
        r.1 == hundredths(region, total),
{
    proof {
        assert(MAX_SHARE == 95);
    }
    if region as u128 * 100 >= 95 * (total as u128) {
        let x: u128 = (measured as u128 * 95) / 100;
        (x as u64, 95)
    } else {
        proof {
            assert(region < total);
            assert(measured * region <= u64::MAX * u64::MAX) by (nonlinear_arith)
                requires
                    measured <= u64::MAX,
                    region <= u64::MAX,
            ;
            assert(u64::MAX * u64::MAX <= u128::MAX) by (nonlinear_arith);
            assert(measured * region / total as int <= measured) by (nonlinear_arith)
                requires
                    region < total,
                    total > 0,
                    measured >= 0,
            ;
            assert(measured * region / total as int >= 0) by (nonlinear_arith)
                requires
                    total > 0,
                    measured >= 0,
                    region >= 0,
            ;
        }
        let x: u128 = (measured as u128 * region as u128) / total as u128;
        (x as u64, round_div(region as u128 * 100, total as u128))
    }
}

/// What the Views asked about take of a consumer's measured time.
pub fn shares_in_plan(
    roots: &Vec<PlanNode>,
    requests: &Vec<ViewRegionRequest>,
    consumer: &str,
    measured: u64,
) -> (r: Vec<RegionShare>)
    ensures
        plan_shares(roots@, requests@, consumer@, measured, share_models(r@)),
{
    let arena = PlanArena::build(roots);
    let ghost nodes = arena.nodes@;
    let total = arena.total_time();
    let mut out: Vec<RegionShare> = Vec::new();
    if total == 0 {
        proof {
            assert(laid_in(nodes, 0, roots@, None));
            assert(share_models(out@).len() == 0);
        }
        return out;
    }
    let regions = attribute_chain(&arena, requests);
    let ghost ids = request_ids(requests@);
    let ghost map = regions@;
    let mut seen: Vec<String> = Vec::new();
    let mut i: usize = 0;
    proof {
        assert(share_models(out@) =~= shares_from(nodes, map, ids, consumer@, measured, total, 0));
        assert(texts(seen@) =~= ids.take(0));
        crate::leafset::placed_in_range(nodes, requests@, requests@.len());
    }
    while i < requests.len()
        invariant
            i <= requests@.len(),
            total > 0,
            nodes == arena.nodes@,
            regions.wf(),
            map == regions@,
            ids == request_ids(requests@),
            texts(seen@) == ids.take(i as int),
            forall|id: Text| #[trigger] map.contains_key(id) ==> map[id].node < nodes.len(),
            share_models(out@) == shares_from(nodes, map, ids, consumer@, measured, total, i as nat),
        decreases requests@.len() - i,
    {
        let id = requests[i].id.as_str();
        let ghost had = share_models(out@);
        let ghost past = texts(seen@);
        proof {
            assert(ids[i as int] == id@);
        }
        if !contains_text(&seen, id) {
            if let Some(a) = regions.get(id) {
                let (time, pct) = take_part(measured, a.secs, total);
                let mut matched = arena.nodes[a.node].operator.clone();
                matched.append(" in ");
                matched.append(consumer);
                matched.append(" (");
                matched.append(decimal_wide(pct).as_str());
                matched.append("%)");
                let share = RegionShare { view: requests[i].id.clone(), time, rows: a.cardinality, matched };
                let ghost model = share@;
                proof {
                    assert(model =~= share_of(nodes, map[id@], id@, consumer@, measured, total));
                }
                out.push(share);
                proof {
                    assert(share_models(out@) =~= had.push(model));
                }
            }
        }
        seen.push(requests[i].id.clone());
        proof {
            assert(texts(seen@) =~= past.push(id@));
            assert(ids.take(i + 1) =~= ids.take(i as int).push(ids[i as int]));
        }
        i = i + 1;
    }
    proof {
        assert(laid_in(nodes, 0, roots@, None));
    }
    out
}

/// `shares` is `more` after `some`.
pub open spec fn joins(some: Seq<ShareModel>, more: Seq<ShareModel>, shares: Seq<ShareModel>) -> bool {
    shares == some + more
}

/// `shares` is what one consumer's plan says of the Views inlined into it.
pub open spec fn consumer_shares(
    g: GraphModel,
    listed: Seq<NodeModel>,
    dialect: Dialect,
    sources: Seq<Text>,
    stats: Seq<NodeStat>,
    consumer: NodeModel,
    shares: Seq<ShareModel>,
) -> bool {
    match (stat_of(stats, consumer.id), plan_in(stats, consumer.id)) {
        (Some(s), Some(roots)) => if consumer.materialize == MaterializeMode::View {
            shares.len() == 0
        } else {
            exists|requests: Seq<ViewRegionRequest>|
                #[trigger] are_requests(g, listed, dialect, sources, consumer.id, requests) && plan_shares(
                    roots,
                    requests,
                    consumer.id,
                    s.duration,
                    shares,
                )
        },
        _ => shares.len() == 0,
    }
}

/// `shares` is what the plans of the first `n` nodes say.
pub open spec fn run_shares(
    g: GraphModel,
    listed: Seq<NodeModel>,
    dialect: Dialect,
    sources: Seq<Text>,
    stats: Seq<NodeStat>,
    n: nat,
    shares: Seq<ShareModel>,
) -> bool
    decreases n,
{
    if n == 0 {
        shares.len() == 0
    } else {
        exists|some: Seq<ShareModel>, more: Seq<ShareModel>|
            #[trigger] joins(some, more, shares) && run_shares(g, listed, dialect, sources, stats, (n - 1) as nat, some)
                && consumer_shares(g, listed, dialect, sources, stats, listed[n - 1], more)
    }
}

proof fn more_shares(
    g: GraphModel,
    listed: Seq<NodeModel>,
    dialect: Dialect,
    sources: Seq<Text>,
    stats: Seq<NodeStat>,
    n: nat,
    some: Seq<ShareModel>,
    more: Seq<ShareModel>,
)
    requires
        run_shares(g, listed, dialect, sources, stats, n, some),
        consumer_shares(g, listed, dialect, sources, stats, listed[n as int], more),
    ensures
        run_shares(g, listed, dialect, sources, stats, n + 1, some + more),
{
    assert(joins(some, more, some + more));
    let m = n + 1;
    assert(listed[m - 1] == listed[n as int]);
}

/// Some plan of a materialized node names a relation that it scans.
pub open spec fn names_a_relation(listed: Seq<NodeModel>, stats: Seq<NodeStat>, n: int) -> bool {
    exists|i: int|
        0 <= i < n && (#[trigger] listed[i]).materialize != MaterializeMode::View && (plan_in(
            stats,
            listed[i].id,
        ) matches Some(roots) && leaves_in(roots) != Set::<Text>::empty())
}

/// What the plans of a run say of the Views inlined into the nodes that it
/// built, and whether any plan named a relation at all.
pub fn shares_in_run(dag: &Dag, sources: &Vec<String>, stats: &Vec<NodeStat>) -> (r: (Vec<RegionShare>, bool))
    requires
        dag.wf(),
    ensures
        run_shares(
            dag.nodes@,
            dag.nodes.listed(),
            named_dialect(unicode_lower(dag.db@)),
            texts(sources@),
            stats@,
            dag.nodes.listed().len(),
            share_models(r.0@),
        ),
        r.1 == names_a_relation(dag.nodes.listed(), stats@, dag.nodes.listed().len() as int),
{
    let g = &dag.nodes;
    let ghost dialect = named_dialect(unicode_lower(dag.db@));
    let ghost from = texts(sources@);
    let nodes = g.nodes();
    let ghost listed = g.listed();
    let mut out: Vec<RegionShare> = Vec::new();
    let mut saw = false;
    let mut i: usize = 0;
    proof {
        assert(share_models(out@).len() == 0);
    }
    while i < nodes.len()
        invariant
            i <= nodes@.len(),
            dag.wf(),
            g@ == dag.nodes@,
            listed == dag.nodes.listed(),
            dialect == named_dialect(unicode_lower(dag.db@)),
            from == texts(sources@),
            models(nodes@) == listed,
            run_shares(g@, listed, dialect, from, stats@, i as nat, share_models(out@)),
            saw == names_a_relation(listed, stats@, i as int),
        decreases nodes@.len() - i,
    {
        let n = &nodes[i];
        let ghost some = share_models(out@);
        let ghost mut more: Seq<ShareModel> = Seq::empty();
        let ghost before = saw;
        proof {
            assert(models(nodes@)[i as int] == n@);
            if saw {
                let k = choose|k: int|
                    0 <= k < i && (#[trigger] listed[k]).materialize != MaterializeMode::View && (plan_in(
                        stats@,
                        listed[k].id,
                    ) matches Some(roots) && leaves_in(roots) != Set::<Text>::empty());
                assert(0 <= k < i + 1 && listed[k].materialize != MaterializeMode::View);
            }
        }
        if n.materialize != MaterializeMode::View {
            if let Some(s) = find_stat(stats, n.id.as_str()) {
                if let Some(roots) = &s.plan {
                    let named = plan_names_a_relation(roots);
                    proof {
                        assert(plan_in(stats@, listed[i as int].id) == Some(roots@));
                        if named {
                            assert(names_a_relation(listed, stats@, i + 1)) by {
                                assert(listed[i as int].materialize != MaterializeMode::View);
                            }
                        }
                    }
                    saw = saw || named;
                    let requests = requests_for(dag, sources, n.id.as_str());
                    let mut shares = shares_in_plan(roots, &requests, n.id.as_str(), s.duration);
                    proof {
                        more = share_models(shares@);
                        assert(are_requests(g@, listed, dialect, from, n@.id, requests@));
                    }
                    let ghost added = shares@;
                    let ghost kept = out@;
                    out.append(&mut shares);
                    proof {
                        assert(out@ =~= kept + added);
                        assert(share_models(out@) =~= some + more);
                    }
                }
            }
        }
        proof {
            if more.len() == 0 {
                assert(some + more =~= some);
            }
            assert(consumer_shares(g@, listed, dialect, from, stats@, listed[i as int], more));
            more_shares(g@, listed, dialect, from, stats@, i as nat, some, more);
            assert(share_models(out@) =~= some + more);
            assert(saw == names_a_relation(listed, stats@, i + 1)) by {
                if names_a_relation(listed, stats@, i + 1) && !before {
                    let k = choose|k: int|
                        0 <= k < i + 1 && (#[trigger] listed[k]).materialize != MaterializeMode::View && (plan_in(
                            stats@,
                            listed[k].id,
                        ) matches Some(roots) && leaves_in(roots) != Set::<Text>::empty());
                    if k < i {
                        assert(0 <= k < i && listed[k].materialize != MaterializeMode::View);
                        assert(names_a_relation(listed, stats@, i as int));
                    }
                }
            }
        }
        i = i + 1;
    }
    (out, saw)
}

/// Whether a plan names a relation that it scans.
fn plan_names_a_relation(roots: &Vec<PlanNode>) -> (r: bool)
    ensures
        r == (leaves_in(roots@) != Set::<Text>::empty()),
{
    let mut i: usize = 0;
    proof {
        assert(roots@.take(0) =~= Seq::<PlanNode>::empty());
        assert(leaves_in(roots@.take(0)) =~= Set::<Text>::empty());
    }
    while i < roots.len()
        invariant
            i <= roots@.len(),
            leaves_in(roots@.take(i as int)) == Set::<Text>::empty(),
        decreases roots@.len() - i,
    {
        proof {
            let t = roots@.take(i + 1);
            assert(t.drop_last() =~= roots@.take(i as int));
            assert(t.last() == roots@[i as int]);
        }
        if node_names_a_relation(&roots[i]) {
            proof {
                leaves_grow(roots@, i + 1);
            }
            return true;
        }
        proof {
            assert(leaves_in(roots@.take(i + 1)) =~= Set::<Text>::empty());
        }
        i = i + 1;
    }
    proof {
        assert(roots@.take(roots@.len() as int) =~= roots@);
    }
    false
}

proof fn leaves_grow(roots: Seq<PlanNode>, k: int)
    requires
        0 < k <= roots.len(),
        crate::leafset::leaves_at(roots[k - 1]) != Set::<Text>::empty(),
    ensures
        leaves_in(roots) != Set::<Text>::empty(),
    decreases roots.len(),
{
    let head = roots.drop_last();
    if k < roots.len() {
        assert(head[k - 1] == roots[k - 1]);
        leaves_grow(head, k);
        let t = leaves_in(head).choose();
        assert(leaves_in(head).contains(t)) by {
            if leaves_in(head) =~= Set::<Text>::empty() {
            } else {
                assert(exists|x: Text| leaves_in(head).contains(x));
            }
        }
        assert(leaves_in(roots).contains(t));
    } else {
        let own = crate::leafset::leaves_at(roots[k - 1]);
        let t = own.choose();
        assert(own.contains(t)) by {
            if own =~= Set::<Text>::empty() {
            } else {
                assert(exists|x: Text| own.contains(x));
            }
        }
        assert(leaves_in(roots).contains(t));
    }
}

/// Whether an operator, or one below it, names a relation.
fn node_names_a_relation(n: &PlanNode) -> (r: bool)
    ensures
        r == (crate::leafset::leaves_at(*n) != Set::<Text>::empty()),
    decreases n,
{
    if let Some(t) = &n.relation {
        proof {
            assert(crate::leafset::leaves_at(*n).contains(t@));
        }
        return true;
    }
    let mut i: usize = 0;
    proof {
        assert(n.children@.take(0) =~= Seq::<PlanNode>::empty());
        assert(leaves_in(n.children@.take(0)) =~= Set::<Text>::empty());
    }
    while i < n.children.len()
        invariant
            i <= n.children@.len(),
            n.relation is None,
            leaves_in(n.children@.take(i as int)) == Set::<Text>::empty(),
        decreases n.children@.len() - i,
    {
        proof {
            let t = n.children@.take(i + 1);
            assert(t.drop_last() =~= n.children@.take(i as int));
            assert(t.last() == n.children@[i as int]);
        }
        if node_names_a_relation(&n.children[i]) {
            proof {
                leaves_grow(n.children@, i + 1);
                let below = leaves_in(n.children@);
                let t = below.choose();
                assert(below.contains(t)) by {
                    if below =~= Set::<Text>::empty() {
                    } else {
                        assert(exists|x: Text| below.contains(x));
                    }
                }
                assert(crate::leafset::leaves_at(*n).contains(t));
            }
            return true;
        }
        proof {
            assert(leaves_in(n.children@.take(i + 1)) =~= Set::<Text>::empty());
        }
        i = i + 1;
    }
    proof {
        assert(n.children@.take(n.children@.len() as int) =~= n.children@);
        assert(crate::leafset::leaves_at(*n) =~= Set::<Text>::empty());
    }
    false
}

/// What `view` takes in the first `n` shares together.
pub open spec fn time_sum(shares: Seq<ShareModel>, view: Text, n: nat) -> nat
    decreases n,
{
    if n == 0 {
        0
    } else {
        time_sum(shares, view, (n - 1) as nat) + if shares[n - 1].view == view {
            shares[n - 1].time as nat
        } else {
            0
        }
    }
}

/// The most that `view` takes in one of the first `n` shares.
pub open spec fn time_max(shares: Seq<ShareModel>, view: Text, n: nat) -> u64
    decreases n,
{
    if n == 0 {
        0
    } else {
        let rest = time_max(shares, view, (n - 1) as nat);
        if shares[n - 1].view == view && shares[n - 1].time > rest {
            shares[n - 1].time
        } else {
            rest
        }
    }
}

/// The rows of the regions of `view` in the first `n` shares.
pub open spec fn widths_of(shares: Seq<ShareModel>, view: Text, n: nat) -> Seq<u64>
    decreases n,
{
    if n == 0 {
        Seq::<u64>::empty()
    } else {
        let rest = widths_of(shares, view, (n - 1) as nat);
        match shares[n - 1].rows {
            Some(rows) => if shares[n - 1].view == view {
                rest.push(rows)
            } else {
                rest
            },
            None => rest,
        }
    }
}

/// The regions of `view` in the first `n` shares, in words.
pub open spec fn matches_of(shares: Seq<ShareModel>, view: Text, n: nat) -> Seq<Text>
    decreases n,
{
    if n == 0 {
        Seq::<Text>::empty()
    } else {
        let rest = matches_of(shares, view, (n - 1) as nat);
        if shares[n - 1].view == view {
            rest.push(shares[n - 1].matched)
        } else {
            rest
        }
    }
}

/// What `view` costs: the most it takes anywhere, which is least likely to have
/// had work moved out of it, or what it takes beyond that.
pub open spec fn leaf_total(shares: Seq<ShareModel>, view: Text, downstream: bool) -> u64 {
    let most = time_max(shares, view, shares.len());
    if downstream {
        cap64((time_sum(shares, view, shares.len()) - most) as nat)
    } else {
        most
    }
}

/// `row` is what the shares say of a View.
pub open spec fn is_leaf_row(
    g: GraphModel,
    dialect: Dialect,
    sources: Seq<Text>,
    shares: Seq<ShareModel>,
    downstream: bool,
    normalize: bool,
    row: RowModel,
) -> bool {
    &&& row.total == leaf_total(shares, row.node, downstream)
    &&& row.timed
    &&& is_twice_median(widths_of(shares, row.node, shares.len()), row.cardinality)
    &&& row.score == score_of(row.total, row.cardinality, normalize)
    &&& listing(row.leaves, leaf_names(g, dialect, sources, row.node))
    &&& stably_sorted(row.matched, matches_of(shares, row.node, shares.len()), alphabetical())
}

/// The View is ranked: it is a branch point, and it costs something.
pub open spec fn leaf_ranked(listed: Seq<NodeModel>, shares: Seq<ShareModel>, view: Text, downstream: bool) -> bool {
    branch_point(listed, view) && leaf_total(shares, view, downstream) > 0
}

/// The Views that shares speak of.
pub open spec fn share_views(shares: Seq<ShareModel>) -> Seq<Text> {
    shares.map_values(|s: ShareModel| s.view)
}

/// Those of the first `n` of `views` that are ranked.
pub open spec fn kept_views(
    listed: Seq<NodeModel>,
    shares: Seq<ShareModel>,
    views: Seq<Text>,
    downstream: bool,
    n: nat,
) -> Seq<Text>
    decreases n,
{
    if n == 0 {
        Seq::<Text>::empty()
    } else {
        let rest = kept_views(listed, shares, views, downstream, (n - 1) as nat);
        if leaf_ranked(listed, shares, views[n - 1], downstream) {
            rest.push(views[n - 1])
        } else {
            rest
        }
    }
}

/// The Views of rows.
pub open spec fn row_nodes(rows: Seq<RowModel>) -> Seq<Text> {
    rows.map_values(|r: RowModel| r.node)
}

/// `items` are the rows of the Views that shares rank.
pub open spec fn are_leaf_rows(
    g: GraphModel,
    listed: Seq<NodeModel>,
    dialect: Dialect,
    sources: Seq<Text>,
    shares: Seq<ShareModel>,
    downstream: bool,
    normalize: bool,
    items: Seq<RowModel>,
) -> bool {
    &&& exists|views: Seq<Text>|
        #[trigger] listing(views, share_views(shares).to_set()) && row_nodes(items) == kept_views(
            listed,
            shares,
            views,
            downstream,
            views.len(),
        )
    &&& forall|i: int|
        0 <= i < items.len() ==> is_leaf_row(g, dialect, sources, shares, downstream, normalize, #[trigger] items[i])
}

proof fn max_within_sum(shares: Seq<ShareModel>, view: Text, n: nat)
    ensures
        time_max(shares, view, n) <= time_sum(shares, view, n),
    decreases n,
{
    if n > 0 {
        max_within_sum(shares, view, (n - 1) as nat);
    }
}

/// What the shares say of one View.
fn leaf_row(
    dag: &Dag,
    sources: &Vec<String>,
    shares: &Vec<RegionShare>,
    view: &str,
    downstream: bool,
    normalize: bool,
) -> (r: NodeRankingRow)
    requires
        dag.wf(),
    ensures
        r.node@ == view@,
        is_leaf_row(
            dag.nodes@,
            named_dialect(unicode_lower(dag.db@)),
            texts(sources@),
            share_models(shares@),
            downstream,
            normalize,
            r@,
        ),
{
    let ghost all = share_models(shares@);
    let mut sum: u128 = 0;
    let mut most: u64 = 0;
    let mut widths: Vec<u64> = Vec::new();
    let mut matched: Vec<String> = Vec::new();
    let mut i: usize = 0;
    proof {
        assert(widths@ =~= widths_of(all, view@, 0));
        assert(texts(matched@) =~= matches_of(all, view@, 0));
    }
    while i < shares.len()
        invariant
            i <= shares@.len(),
            all == share_models(shares@),
            sum == time_sum(all, view@, i as nat),
            sum <= u64::MAX * i,
            most == time_max(all, view@, i as nat),
            widths@ == widths_of(all, view@, i as nat),
            texts(matched@) == matches_of(all, view@, i as nat),
        decreases shares@.len() - i,
    {
        let s = &shares[i];
        let ghost had = texts(matched@);
        proof {
            assert(all[i as int] == s@);
            assert(u64::MAX * i + u64::MAX == u64::MAX * (i + 1)) by (nonlinear_arith);
            assert(u64::MAX * (i + 1) <= u128::MAX) by (nonlinear_arith)
                requires
                    i < usize::MAX,
                    usize::MAX <= u64::MAX,
            ;
        }
        if text_eq(s.view.as_str(), view) {
            sum = sum + s.time as u128;
            if s.time > most {
                most = s.time;
            }
            if let Some(rows) = s.rows {
                widths.push(rows);
            }
            matched.push(s.matched.clone());
            proof {
                assert(texts(matched@) =~= had.push(s@.matched));
            }
        }
        i = i + 1;
    }
    proof {
        max_within_sum(all, view@, all.len());
    }
    let total: u64 = if downstream {
        let rest: u128 = sum - most as u128;
        if rest <= u64::MAX as u128 {
            rest as u64
        } else {
            u64::MAX
        }
    } else {
        most
    };
    let cardinality = median(&widths);
    let dialect = dialect_for_db(dag.db.as_str());
    NodeRankingRow {
        rank: 0,
        node: view.to_owned(),
        total,
        timed: true,
        cardinality,
        score: ranking_score(total, cardinality, normalize),
        leaves: leaf_sources(&dag.nodes, dialect, sources, view),
        matched: sort_texts(&matched),
    }
}

/// The Views that shares speak of.
fn list_share_views(shares: &Vec<RegionShare>) -> (r: Vec<String>)
    ensures
        listing(texts(r@), share_views(share_models(shares@)).to_set()),
{
    let ghost all = share_views(share_models(shares@));
    let mut out: Vec<String> = Vec::new();
    let mut i: usize = 0;
    while i < shares.len()
        invariant
            i <= shares@.len(),
            all == share_views(share_models(shares@)),
            out@.len() == i,
            forall|k: int| 0 <= k < i ==> (#[trigger] out@[k])@ == all[k],
        decreases shares@.len() - i,
    {
        proof {
            assert(all[i as int] == shares@[i as int]@.view);
        }
        out.push(shares[i].view.clone());
        i = i + 1;
    }
    proof {
        assert(texts(out@) =~= all);
    }
    list_of(&out)
}

/// The Views that shares speak of, ranked.
pub fn rank_shares(
    dag: &Dag,
    sources: &Vec<String>,
    shares: &Vec<RegionShare>,
    downstream: bool,
    normalize: bool,
) -> (r: Vec<NodeRankingRow>)
    requires
        dag.wf(),
    ensures
        exists|items: Seq<RowModel>|
            #[trigger] ranked(r@, items) && are_leaf_rows(
                dag.nodes@,
                dag.nodes.listed(),
                named_dialect(unicode_lower(dag.db@)),
                texts(sources@),
                share_models(shares@),
                downstream,
                normalize,
                items,
            ),
{
    let ghost g = dag.nodes@;
    let ghost listed = dag.nodes.listed();
    let ghost dialect = named_dialect(unicode_lower(dag.db@));
    let ghost from = texts(sources@);
    let ghost all = share_models(shares@);
    let views = list_share_views(shares);
    let ghost names = texts(views@);
    let mut rows: Vec<NodeRankingRow> = Vec::new();
    let mut i: usize = 0;
    proof {
        assert(row_nodes(row_models(rows@)) =~= kept_views(listed, all, names, downstream, 0));
    }
    while i < views.len()
        invariant
            i <= views@.len(),
            dag.wf(),
            g == dag.nodes@,
            listed == dag.nodes.listed(),
            dialect == named_dialect(unicode_lower(dag.db@)),
            from == texts(sources@),
            all == share_models(shares@),
            names == texts(views@),
            row_nodes(row_models(rows@)) == kept_views(listed, all, names, downstream, i as nat),
            forall|k: int|
                0 <= k < rows@.len() ==> is_leaf_row(g, dialect, from, all, downstream, normalize, (#[trigger] rows@[k])@),
        decreases views@.len() - i,
    {
        let ghost had = row_models(rows@);
        proof {
            assert(names[i as int] == views@[i as int]@);
        }
        if dag.nodes.is_branch_point(views[i].as_str()) {
            let row = leaf_row(dag, sources, shares, views[i].as_str(), downstream, normalize);
            if row.total > 0 {
                let ghost model = row@;
                rows.push(row);
                proof {
                    assert(row_models(rows@) =~= had.push(model));
                    assert(row_nodes(row_models(rows@)) =~= row_nodes(had).push(model.node));
                }
            }
        }
        i = i + 1;
    }
    let r = rank_rows(&rows);
    proof {
        let items = row_models(rows@);
        assert forall|k: int| 0 <= k < items.len() implies is_leaf_row(
            g,
            dialect,
            from,
            all,
            downstream,
            normalize,
            #[trigger] items[k],
        ) by {
            assert(items[k] == rows@[k]@);
        }
        assert(listing(names, share_views(all).to_set()));
        assert(are_leaf_rows(g, listed, dialect, from, all, downstream, normalize, items));
        assert(ranked(r@, items));
    }
    r
}

/// Views by the regions of their consumers' plans. None where no plan of the
/// run names a relation: then there is nothing to see regions by, which is not
/// the same as nothing being duplicated.
pub fn ranking_leafset(
    dag: &Dag,
    sources: &Vec<String>,
    stats: &Vec<NodeStat>,
    downstream: bool,
    normalize: bool,
) -> (r: Option<Vec<NodeRankingRow>>)
    requires
        dag.wf(),
    ensures
        r is Some == names_a_relation(dag.nodes.listed(), stats@, dag.nodes.listed().len() as int),
        r matches Some(rows) ==> leaf_ranking_of(dag, texts(sources@), stats@, downstream, normalize, rows@),
{
    let (shares, saw) = shares_in_run(dag, sources, stats);
    if !saw {
        return None;
    }
    let rows = rank_shares(dag, sources, &shares, downstream, normalize);
    proof {
        let items = choose|items: Seq<RowModel>|
            #[trigger] ranked(rows@, items) && are_leaf_rows(
                dag.nodes@,
                dag.nodes.listed(),
                named_dialect(unicode_lower(dag.db@)),
                texts(sources@),
                share_models(shares@),
                downstream,
                normalize,
                items,
            );
        assert(ranked(rows@, items) && ranks_shares(dag, texts(sources@), stats@, downstream, normalize, share_models(shares@), items));
        assert(leaf_ranking_of(dag, texts(sources@), stats@, downstream, normalize, rows@));
    }
    Some(rows)
}

/// `items` are the rows of what a run's plans say.
pub open spec fn ranks_shares(
    dag: &Dag,
    sources: Seq<Text>,
    stats: Seq<NodeStat>,
    downstream: bool,
    normalize: bool,
    shares: Seq<ShareModel>,
    items: Seq<RowModel>,
) -> bool {
    let dialect = named_dialect(unicode_lower(dag.db@));
    &&& run_shares(dag.nodes@, dag.nodes.listed(), dialect, sources, stats, dag.nodes.listed().len(), shares)
    &&& are_leaf_rows(dag.nodes@, dag.nodes.listed(), dialect, sources, shares, downstream, normalize, items)
}

/// `rows` is the ranking of Views by what a run's plans say.
pub open spec fn leaf_ranking_of(
    dag: &Dag,
    sources: Seq<Text>,
    stats: Seq<NodeStat>,
    downstream: bool,
    normalize: bool,
    rows: Seq<NodeRankingRow>,
) -> bool {
    exists|shares: Seq<ShareModel>, items: Seq<RowModel>|
        #[trigger] ranks_shares(dag, sources, stats, downstream, normalize, shares, items) && ranked(rows, items)
}

/// A View is never charged the whole of a consumer, whatever its region is
/// matched to.
pub proof fn a_consumer_keeps_some(measured: u64, region: u64, total: u64)
    requires
        total > 0,
    ensures
        part_of(measured, region, total) <= measured * MAX_SHARE / 100,
{
    assert(MAX_SHARE == 95);
    if region * 100 < 95 * total {
        let x = measured * region / total as int;
        assert(x * 100 <= measured * 95) by (nonlinear_arith)
            requires
                x == measured * region / total as int,
                region * 100 < 95 * total,
                total > 0,
                measured >= 0,
                region >= 0,
        ;
        assert(0 <= x <= u64::MAX) by (nonlinear_arith)
            requires
                x == measured * region / total as int,
                region * 100 < 95 * total,
                total > 0,
                0 <= measured <= u64::MAX,
                region >= 0,
        ;
    }
}

proof fn taken_shares(a: Seq<ShareModel>, b: Seq<ShareModel>, view: Text, n: nat)
    requires
        n <= a.len(),
        n <= b.len(),
        forall|i: int| 0 <= i < n ==> a[i] == b[i],
    ensures
        time_sum(a, view, n) == time_sum(b, view, n),
        time_max(a, view, n) == time_max(b, view, n),
        widths_of(a, view, n) == widths_of(b, view, n),
        matches_of(a, view, n) == matches_of(b, view, n),
    decreases n,
{
    if n > 0 {
        taken_shares(a, b, view, (n - 1) as nat);
    }
}

/// Without downstream cost a View is charged its dearest copy: no copy takes
/// more, and some copy takes just that.
pub proof fn a_view_is_charged_its_dearest_copy(shares: Seq<ShareModel>, view: Text)
    ensures
        forall|i: int|
            0 <= i < shares.len() && (#[trigger] shares[i]).view == view ==> shares[i].time <= leaf_total(shares, view, false),
        leaf_total(shares, view, false) > 0 ==> exists|i: int|
            0 <= i < shares.len() && (#[trigger] shares[i]).view == view && shares[i].time == leaf_total(shares, view, false),
{
    dearest_copy(shares, view, shares.len());
}

proof fn dearest_copy(shares: Seq<ShareModel>, view: Text, n: nat)
    requires
        n <= shares.len(),
    ensures
        forall|i: int|
            0 <= i < n && (#[trigger] shares[i]).view == view ==> shares[i].time <= time_max(shares, view, n),
        time_max(shares, view, n) > 0 ==> exists|i: int|
            0 <= i < n && (#[trigger] shares[i]).view == view && shares[i].time == time_max(shares, view, n),
    decreases n,
{
    if n > 0 {
        dearest_copy(shares, view, (n - 1) as nat);
        assert forall|i: int| 0 <= i < n && (#[trigger] shares[i]).view == view implies shares[i].time <= time_max(
            shares,
            view,
            n,
        ) by {
            if i < n - 1 {
                assert(shares[i].time <= time_max(shares, view, (n - 1) as nat));
            }
        }
        if time_max(shares, view, n) > 0 {
            if time_max(shares, view, n) == time_max(shares, view, (n - 1) as nat) {
                let i = choose|i: int|
                    0 <= i < n - 1 && (#[trigger] shares[i]).view == view && shares[i].time == time_max(
                        shares,
                        view,
                        (n - 1) as nat,
                    );
                assert(0 <= i < n && shares[i].view == view);
            } else {
                assert(shares[n - 1].view == view && shares[n - 1].time == time_max(shares, view, n));
            }
        }
    }
}

/// The dearest copy and what is charged downstream come to all of a View's
/// copies together: one copy more adds its time, another View's adds nothing,
/// and without copies there is nothing to charge. So a View with one copy is
/// charged nothing downstream.
pub proof fn downstream_charges_the_other_copies(shares: Seq<ShareModel>, share: ShareModel, view: Text)
    requires
        leaf_total(shares.push(share), view, true) < u64::MAX,
    ensures
        leaf_total(shares.push(share), view, true) + leaf_total(shares.push(share), view, false) == leaf_total(
            shares,
            view,
            true,
        ) + leaf_total(shares, view, false) + (if share.view == view {
            share.time as int
        } else {
            0
        }),
        leaf_total(Seq::<ShareModel>::empty(), view, true) == 0,
        leaf_total(Seq::<ShareModel>::empty(), view, false) == 0,
        leaf_total(seq![share], view, true) == 0,
{
    let more = shares.push(share);
    taken_shares(shares, more, view, shares.len());
    max_within_sum(shares, view, shares.len());
    max_within_sum(more, view, more.len());
    assert(more.last() == share);
    let one = seq![share];
    assert(time_sum(one, view, 0) == 0);
    assert(time_max(one, view, 0) == 0);
    assert(one[0] == share);
    assert(time_sum(one, view, 1) == time_max(one, view, 1));
}

/// A View that takes the same time in each of its consumers is charged all of
/// its copies but one downstream, and one of them otherwise.
pub proof fn equal_copies_are_charged_but_one(shares: Seq<ShareModel>, view: Text, time: u64)
    requires
        shares.len() > 0,
        forall|i: int| 0 <= i < shares.len() ==> (#[trigger] shares[i]).view == view && shares[i].time == time,
        (shares.len() - 1) * time <= u64::MAX,
    ensures
        leaf_total(shares, view, true) == (shares.len() - 1) * time,
        leaf_total(shares, view, false) == time,
{
    equal_copies(shares, view, time, shares.len());
    assert(shares.len() * time - time == (shares.len() - 1) * time) by (nonlinear_arith);
}

proof fn equal_copies(shares: Seq<ShareModel>, view: Text, time: u64, n: nat)
    requires
        0 < n <= shares.len(),
        forall|i: int| 0 <= i < shares.len() ==> (#[trigger] shares[i]).view == view && shares[i].time == time,
    ensures
        time_sum(shares, view, n) == n * time,
        time_max(shares, view, n) == time,
    decreases n,
{
    assert(shares[n - 1].view == view);
    if n > 1 {
        equal_copies(shares, view, time, (n - 1) as nat);
        assert((n - 1) * time + time == n * time) by (nonlinear_arith);
    } else {
        assert(time_sum(shares, view, 0) == 0);
        assert(time_max(shares, view, 0) == 0);
        assert(1 * time == time) by (nonlinear_arith);
    }
}

/// A region's part of a measured time is to that time as the region is to the
/// plan, rounded down, until the cap: a region of the cap or more takes just
/// the cap.
pub proof fn a_region_takes_its_part(measured: u64, region: u64, total: u64)
    requires
        total > 0,
    ensures
        region * 100 < 95 * total ==> part_of(measured, region, total) * total <= measured * region < (part_of(
            measured,
            region,
            total,
        ) + 1) * total,
        region * 100 >= 95 * total ==> part_of(measured, region, total) * 100 <= measured * 95 < (part_of(
            measured,
            region,
            total,
        ) + 1) * 100,
{
    assert(MAX_SHARE == 95);
    if region * 100 < 95 * total {
        let x = measured * region / total as int;
        assert(0 <= x <= measured) by (nonlinear_arith)
            requires
                x == measured * region / total as int,
                region < total,
                total > 0,
                measured >= 0,
                region >= 0,
        ;
        assert(x * total <= measured * region < (x + 1) * total) by (nonlinear_arith)
            requires
                x == measured * region / total as int,
                total > 0,
        ;
    }
}

/// Of a consumer's plan every View that is placed in it has one share, and no
/// other View has any.
pub proof fn every_placed_view_has_one_share(
    nodes: Seq<Annotated>,
    regions: Map<Text, Attribution>,
    ids: Seq<Text>,
    consumer: Text,
    measured: u64,
    total: u64,
    n: nat,
    view: Text,
)
    requires
        n <= ids.len(),
    ensures
        share_views(shares_from(nodes, regions, ids, consumer, measured, total, n)).no_duplicates(),
        share_views(shares_from(nodes, regions, ids, consumer, measured, total, n)).contains(view) == (regions.contains_key(
            view,
        ) && ids.take(n as int).contains(view)),
        forall|i: int|
            0 <= i < shares_from(nodes, regions, ids, consumer, measured, total, n).len() ==> {
                let s = #[trigger] shares_from(nodes, regions, ids, consumer, measured, total, n)[i];
                s.time == part_of(measured, regions[s.view].secs, total) && s.rows == regions[s.view].cardinality
            },
    decreases n,
{
    let all = shares_from(nodes, regions, ids, consumer, measured, total, n);
    if n == 0 {
        assert(!share_views(all).contains(view));
        assert(!ids.take(n as int).contains(view));
    } else {
        let id = ids[n - 1];
        every_placed_view_has_one_share(nodes, regions, ids, consumer, measured, total, (n - 1) as nat, id);
        every_placed_view_has_one_share(nodes, regions, ids, consumer, measured, total, (n - 1) as nat, view);
        let rest = shares_from(nodes, regions, ids, consumer, measured, total, (n - 1) as nat);
        let past = ids.take(n - 1);
        let now = ids.take(n as int);
        assert(now =~= past.push(id));
        assert(now.contains(view) == (past.contains(view) || view == id)) by {
            if past.contains(view) {
                let k = choose|k: int| 0 <= k < past.len() && past[k] == view;
                assert(now[k] == view);
            }
            if view == id {
                assert(now[n - 1] == view);
            }
        }
        if regions.contains_key(id) && !past.contains(id) {
            let (some, more) = (share_views(rest), share_views(all));
            assert(more =~= some.push(id));
            assert(!some.contains(id));
            assert(more.contains(view) == (some.contains(view) || view == id)) by {
                if some.contains(view) {
                    let k = choose|k: int| 0 <= k < some.len() && some[k] == view;
                    assert(more[k] == view);
                }
                if view == id {
                    assert(more[some.len() as int] == view);
                }
            }
        }
        assert forall|i: int| 0 <= i < all.len() implies ({
            let s = #[trigger] all[i];
            s.time == part_of(measured, regions[s.view].secs, total) && s.rows == regions[s.view].cardinality
        }) by {
            if i < rest.len() {
                assert(all[i] == rest[i]);
            }
        }
    }
}

/// Every consumer's shares count: what one consumer's plan says is among what
/// the run says.
pub proof fn no_consumer_is_left_out(
    g: GraphModel,
    listed: Seq<NodeModel>,
    dialect: Dialect,
    sources: Seq<Text>,
    stats: Seq<NodeStat>,
    n: nat,
    shares: Seq<ShareModel>,
    k: int,
) -> (from: (Seq<ShareModel>, int))
    requires
        run_shares(g, listed, dialect, sources, stats, n, shares),
        0 <= k < n,
    ensures
        consumer_shares(g, listed, dialect, sources, stats, listed[k], from.0),
        0 <= from.1 <= from.1 + from.0.len() <= shares.len(),
        shares.subrange(from.1, from.1 + from.0.len()) == from.0,
    decreases n,
{
    let (some, more) = choose|some: Seq<ShareModel>, more: Seq<ShareModel>|
        #[trigger] joins(some, more, shares) && run_shares(g, listed, dialect, sources, stats, (n - 1) as nat, some)
            && consumer_shares(g, listed, dialect, sources, stats, listed[n - 1], more);
    if k == n - 1 {
        assert(shares.subrange(some.len() as int, (some.len() + more.len()) as int) =~= more);
        (more, some.len() as int)
    } else {
        let from = no_consumer_is_left_out(g, listed, dialect, sources, stats, (n - 1) as nat, some, k);
        assert(shares.subrange(from.1, from.1 + from.0.len()) =~= some.subrange(from.1, from.1 + from.0.len()));
        from
    }
}

/// The width of a View is judged by every region of it that has one, and its
/// row names every region of it.
pub proof fn every_region_is_told(shares: Seq<ShareModel>, view: Text, i: int)
    requires
        0 <= i < shares.len(),
        shares[i].view == view,
    ensures
        matches_of(shares, view, shares.len()).contains(shares[i].matched),
        shares[i].rows is Some ==> widths_of(shares, view, shares.len()).contains(shares[i].rows->0),
{
    region_told(shares, view, i, shares.len());
}

proof fn region_told(shares: Seq<ShareModel>, view: Text, i: int, n: nat)
    requires
        0 <= i < n <= shares.len(),
        shares[i].view == view,
    ensures
        matches_of(shares, view, n).contains(shares[i].matched),
        shares[i].rows is Some ==> widths_of(shares, view, n).contains(shares[i].rows->0),
    decreases n,
{
    let m = (n - 1) as nat;
    if i == n - 1 {
        assert(matches_of(shares, view, n).last() == shares[i].matched);
        if shares[i].rows is Some {
            assert(widths_of(shares, view, n).last() == shares[i].rows->0);
        }
    } else {
        region_told(shares, view, i, m);
        let k = choose|k: int| 0 <= k < matches_of(shares, view, m).len() && matches_of(shares, view, m)[k] == shares[i].matched;
        assert(matches_of(shares, view, n)[k] == shares[i].matched);
        if shares[i].rows is Some {
            let k = choose|k: int|
                0 <= k < widths_of(shares, view, m).len() && widths_of(shares, view, m)[k] == shares[i].rows->0;
            assert(widths_of(shares, view, n)[k] == shares[i].rows->0);
        }
    }
}

/// What is ranked are the branch points that are charged something.
pub proof fn charged_branch_points_are_ranked(
    listed: Seq<NodeModel>,
    shares: Seq<ShareModel>,
    views: Seq<Text>,
    downstream: bool,
    n: nat,
    view: Text,
)
    requires
        n <= views.len(),
    ensures
        kept_views(listed, shares, views, downstream, n).contains(view) <==> views.take(n as int).contains(view)
            && branch_point(listed, view) && leaf_total(shares, view, downstream) > 0,
    decreases n,
{
    if n > 0 {
        charged_branch_points_are_ranked(listed, shares, views, downstream, (n - 1) as nat, view);
        let rest = kept_views(listed, shares, views, downstream, (n - 1) as nat);
        let all = kept_views(listed, shares, views, downstream, n);
        assert(views.take(n as int) =~= views.take(n - 1).push(views[n - 1]));
        if views.take(n - 1).contains(view) {
            let k = choose|k: int| 0 <= k < n - 1 && #[trigger] views.take(n - 1)[k] == view;
            assert(views.take(n as int)[k] == view);
        }
        if views[n - 1] == view {
            assert(views.take(n as int)[n - 1] == view);
        }
        if rest.contains(view) {
            let k = choose|k: int| 0 <= k < rest.len() && rest[k] == view;
            assert(all[k] == view);
        }
        if leaf_ranked(listed, shares, views[n - 1], downstream) {
            assert(all.last() == views[n - 1]);
        }
    }
}

/// A View's leaves are the relations that its own query scans and the leaves of
/// every View that it reads.
pub proof fn a_view_has_the_leaves_of_what_it_reads(
    g: GraphModel,
    dialect: Dialect,
    sources: Seq<Text>,
    view: Text,
    inner: Text,
    t: NameModel,
)
    ensures
        refers(views_of(g), dialect, view, t) && scanned(g, sources, t) ==> leaf_names(g, dialect, sources, view).contains(
            t.name,
        ),
        is_view(g, view) && is_view(g, inner) && reads(g, view, inner) ==> leaf_names(
            g,
            dialect,
            sources,
            inner,
        ).subset_of(leaf_names(g, dialect, sources, view)),
{
    let views = views_of(g);
    let from = upstream(views, set![view]);
    upstream_closed(views, set![view]);
    assert(set![view].contains(view));
    assert(from.contains(view));
    if is_view(g, view) && is_view(g, inner) && reads(g, view, inner) {
        assert(reads(views, view, inner));
        assert(from.contains(inner));
        assert(closed_upstream(views, set![inner], from));
        assert forall|name: Text| leaf_names(g, dialect, sources, inner).contains(name) implies leaf_names(
            g,
            dialect,
            sources,
            view,
        ).contains(name) by {
            let (v, u) = choose|v: Text, u: NameModel|
                upstream(views, set![inner]).contains(v) && #[trigger] refers(views, dialect, v, u) && scanned(
                    g,
                    sources,
                    u,
                ) && u.name == name;
            assert(from.contains(v));
            assert(refers(views, dialect, v, u));
        }
    }
}

/// A relation is scanned where it is a source or a node that is materialized; a
/// View is not.
pub proof fn sources_and_tables_are_scanned(g: GraphModel, sources: Seq<Text>, t: NameModel, i: int, id: Text)
    ensures
        0 <= i < sources.len() && ref_matches(t, sources[i]) ==> scanned(g, sources, t),
        g.contains_key(id) && g[id].materialize != MaterializeMode::View && ref_matches(t, id) ==> scanned(g, sources, t),
        sources.len() == 0 && (forall|x: Text| #[trigger] g.contains_key(x) ==> g[x].materialize == MaterializeMode::View)
            ==> !scanned(g, sources, t),
{
}

/// The Views inlined into a consumer are those on whose frontier it lies.
pub proof fn every_view_on_the_way_is_inlined(
    g: GraphModel,
    listed: Seq<NodeModel>,
    consumer: Text,
    n: nat,
    id: Text,
)
    requires
        n <= listed.len(),
    ensures
        inlined_into(g, listed, consumer, n).contains(id) <==> exists|i: int|
            0 <= i < n && (#[trigger] listed[i]).id == id && listed[i].materialize == MaterializeMode::View && frontier(
                g,
                id,
            ).contains(consumer),
    decreases n,
{
    if n > 0 {
        every_view_on_the_way_is_inlined(g, listed, consumer, (n - 1) as nat, id);
        let rest = inlined_into(g, listed, consumer, (n - 1) as nat);
        let all = inlined_into(g, listed, consumer, n);
        let v = listed[n - 1];
        if v.materialize == MaterializeMode::View && frontier(g, v.id).contains(consumer) {
            assert(all[rest.len() as int] == v.id);
            if rest.contains(id) {
                let k = choose|k: int| 0 <= k < rest.len() && rest[k] == id;
                assert(all[k] == id);
            }
            if all.contains(id) && v.id != id {
                let k = choose|k: int| 0 <= k < all.len() && all[k] == id;
                assert(rest[k] == id);
            }
        }
    }
}

/// A region's part is shown in hundredths, to the nearest, and never as more
/// than a consumer's regions may take.
pub proof fn a_part_is_shown_in_hundredths(region: u64, total: u64)
    requires
        total > 0,
    ensures
        hundredths(region, total) <= MAX_SHARE,
        region * 100 < MAX_SHARE * total ==> 2 * (hundredths(region, total) * total) <= 200 * region + total && 200 * region
            <= 2 * (hundredths(region, total) * total) + total,
        region >= total ==> hundredths(region, total) == MAX_SHARE,
{
    rounded_is_the_nearest((region * 100) as nat, total as nat);
    let h = rounded((region * 100) as nat, total as nat);
    if region * 100 < MAX_SHARE * total && h > MAX_SHARE {
        assert(h * total >= 96 * total) by (nonlinear_arith)
            requires
                h >= 96,
                total > 0,
        ;
    }
    if region >= total {
        assert(region * 100 >= 95 * total);
    }
}

/// A row is in seconds, is charged what its shares say and scored by that, and
/// names the relations that the View comes down to.
pub proof fn a_leaf_row_tells_of_its_view(
    g: GraphModel,
    dialect: Dialect,
    sources: Seq<Text>,
    shares: Seq<ShareModel>,
    downstream: bool,
    normalize: bool,
    row: RowModel,
    name: Text,
)
    requires
        is_leaf_row(g, dialect, sources, shares, downstream, normalize, row),
        shares.len() <= usize::MAX,
    ensures
        row.timed,
        row.leaves.contains(name) <==> leaf_names(g, dialect, sources, row.node).contains(name),
        !normalize ==> row.score == row.total * 1000000000000,
        row.total == leaf_total(shares, row.node, downstream),
        row.matched.len() == matches_of(shares, row.node, shares.len()).len(),
{
    assert(row.leaves.to_set().contains(name) == row.leaves.contains(name));
    let all = matches_of(shares, row.node, shares.len());
    let p = choose|p: Seq<usize>| #[trigger] stable_order(p, all, alphabetical()) && row.matched == picked(all, p);
    assert(row.matched.len() == all.len());
}

/// A plan without times gives no share: where there is one, the plan's roots
/// took some time.
pub proof fn a_plan_without_times_shares_nothing(
    roots: Seq<PlanNode>,
    requests: Seq<ViewRegionRequest>,
    consumer: Text,
    measured: u64,
    shares: Seq<ShareModel>,
)
    requires
        plan_shares(roots, requests, consumer, measured, shares),
        shares.len() > 0,
    ensures
        exists|nodes: Seq<Annotated>| #[trigger] laid_in(nodes, 0, roots, None) && root_time(nodes, nodes.len()) > 0,
{
}

} // verus!
