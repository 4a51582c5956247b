//! Names derived from node ids, and backing a View with a TempTable.

use vstd::prelude::*;
use vstd::string::*;

use crate::dag::{
    by_id_at, by_id_position, models, with_text, without_text, union_texts, Dag, Graph, GraphModel, MaterializeMode,
    NodeModel, TransformNode,
};
use crate::sql::{
    dialect_for_db, inline_view_ast, inlined_view, named_dialect, renamings, rewrite_node_refs, rewritten_refs,
    unicode_lower, Dialect, Renaming,
};
use crate::text::{
    chars_of, contains_text, copy_texts, last_occurrence, occurs_at, string_of, text_eq, texts, the_last_occurrence_is_the_last,
    trim_matches, trimmed, Text,
};
use crate::topo::{
    acyclic, acyclic_grounded, descends, grounded, stable_topo, stable_topo_builds_dependencies_first, stable_topo_is_grounded,
};
use crate::walk::{frontier, is_view, reads, transitive_dep, upstream};

verus! {

/// Why a rewrite was given up.
#[derive(Debug)]
pub enum OptimizerError {
    /// The rewrite cannot be carried out, and why.
    Exec(String),
    /// The settings contradict each other, and how.
    Config(String),
}

/// What stands between two quoted parts of a qualified id: `"."`.
pub open spec fn part_break() -> Text {
    seq!['"', '.', '"']
}

/// What stands before the last part of a qualified id, with the dot that ends
/// it; nothing where the id is not qualified.
pub open spec fn prefix_of(node_id: Text) -> Text {
    match last_occurrence(node_id, part_break(), node_id.len()) {
        Some(p) => node_id.take(p as int) + seq!['"', '.'],
        None => Seq::<char>::empty(),
    }
}

/// The last part of an id, quotes and all.
pub open spec fn base_of(node_id: Text) -> Text {
    node_id.skip(prefix_of(node_id).len() as int)
}

/// The prefix of an id is a beginning of it.
pub proof fn prefix_begins(node_id: Text)
    ensures
        prefix_of(node_id).len() <= node_id.len(),
        node_id.take(prefix_of(node_id).len() as int) == prefix_of(node_id),
        node_id == prefix_of(node_id) + base_of(node_id),
{
    last_occurrence_occurs(node_id, part_break(), node_id.len());
    match last_occurrence(node_id, part_break(), node_id.len()) {
        Some(p) => {
            let p = p as int;
            let sub = node_id.subrange(p, p + 3);
            assert(sub == part_break());
            assert(sub[0] == node_id[p]);
            assert(sub[1] == node_id[p + 1]);
            assert(node_id.take(p + 2) =~= prefix_of(node_id));
        },
        None => {
            assert(node_id.take(0) =~= Seq::<char>::empty());
        },
    }
    assert(node_id =~= prefix_of(node_id) + base_of(node_id));
}

proof fn last_occurrence_occurs(s: Text, pat: Text, end: nat)
    ensures
        match last_occurrence(s, pat, end) {
            Some(p) => p < end && occurs_at(s, pat, p as int),
            None => true,
        },
    decreases end,
{
    if end > 0 && !occurs_at(s, pat, end - 1) {
        last_occurrence_occurs(s, pat, (end - 1) as nat);
    }
}

/// What stands before the last part of `node_id`: the catalog and schema that
/// a node derived from it goes into.
pub fn schema_prefix(node_id: &str) -> (r: String)
    ensures
        r@ == prefix_of(node_id@),
{
    let cs = chars_of(node_id);
    let mut end: usize = cs.len();
    while end > 0
        invariant
            end <= cs@.len(),
            cs@ == node_id@,
            last_occurrence(cs@, part_break(), cs@.len()) == last_occurrence(cs@, part_break(), end as nat),
        decreases end,
    {
        let i: usize = end - 1;
        if cs.len() - i >= 3 && cs[i] == '"' && cs[i + 1] == '.' && cs[i + 2] == '"' {
            proof {
                assert(cs@.subrange(i as int, i + 3) =~= part_break());
            }
            let mut out = string_of(&cs, 0, i);
            out.push('"');
            out.push('.');
            proof {
                assert(cs@.subrange(0, i as int) =~= cs@.take(i as int));
                assert(out@ =~= cs@.take(i as int) + seq!['"', '.']);
            }
            return out;
        }
        proof {
            if occurs_at(cs@, part_break(), i as int) {
                let sub = cs@.subrange(i as int, i + 3);
                assert(sub[0] == '"' && sub[1] == '.' && sub[2] == '"');
                assert(cs@[i as int] == sub[0] && cs@[i + 1] == sub[1] && cs@[i + 2] == sub[2]);
            }
        }
        end = end - 1;
    }
    String::new()
}

/// The name of a node that goes beside `node_id` in the same schema, its base
/// name made of `mark` and the last part of `node_id`.
pub open spec fn pad_name(node_id: Text) -> Text {
    let base = base_of(node_id);
    if base.len() > 0 && base[0] == '"' {
        prefix_of(node_id) + "\"lp_"@ + trimmed(base, '"') + "\""@
    } else {
        prefix_of(node_id) + "lp_"@ + base
    }
}

/// The id of the landing pad of `node_id`: the same prefix, and the last part
/// with `lp_` before it.
pub fn landing_pad_name(node_id: &str) -> (r: String)
    ensures
        r@ == pad_name(node_id@),
{
    proof {
        prefix_begins(node_id@);
    }
    let prefix = schema_prefix(node_id);
    let skip: usize = prefix.as_str().unicode_len();
    let cs = chars_of(node_id);
    let base = string_of(&cs, skip, cs.len());
    proof {
        assert(base@ =~= base_of(node_id@));
    }
    let mut out = prefix;
    if cs.len() > skip && cs[skip] == '"' {
        out.append("\"lp_");
        out.append(trim_matches(base.as_str(), '"').as_str());
        out.append("\"");
    } else {
        out.append("lp_");
        out.append(base.as_str());
    }
    out
}

/// No quote stands in the text.
pub open spec fn quote_free(s: Text) -> bool {
    forall|i: int| 0 <= i < s.len() ==> (#[trigger] s[i]) != '"'
}

/// The last part of the id is quoted as a whole, or nothing in the id is
/// quoted.
pub open spec fn well_quoted(id: Text) -> bool {
    ||| quote_free(id)
    ||| exists|name: Text| quote_free(name) && #[trigger] base_of(id) == seq!['"'] + name + seq!['"']
}

/// Landing pads do not collide: two well-quoted ids that differ have landing
/// pads that differ.
pub proof fn landing_pads_distinct(a: Text, b: Text)
    requires
        well_quoted(a),
        well_quoted(b),
        pad_name(a) == pad_name(b),
    ensures
        a == b,
{
    reveal_strlit("\"lp_");
    reveal_strlit("lp_");
    reveal_strlit("\"");
    pad_shape(a);
    pad_shape(b);
    prefix_begins(a);
    prefix_begins(b);
    let pa = pad_name(a);
    let pb = pad_name(b);
    if quote_free(a) && quote_free(b) {
        assert(pa.skip(3) =~= a);
        assert(pb.skip(3) =~= b);
    } else if quote_free(a) {
        assert(pb.last() == '"');
        assert(pa.last() != '"') by {
            assert(pa =~= "lp_"@ + a);
            if a.len() > 0 {
                assert(pa.last() == a.last());
            } else {
                assert(pa.last() == '_');
            }
        }
    } else if quote_free(b) {
        assert(pa.last() == '"');
        assert(pb.last() != '"') by {
            assert(pb =~= "lp_"@ + b);
            if b.len() > 0 {
                assert(pb.last() == b.last());
            } else {
                assert(pb.last() == '_');
            }
        }
    } else {
        let na = choose|name: Text| quote_free(name) && #[trigger] base_of(a) == seq!['"'] + name + seq!['"'];
        let nb = choose|name: Text| quote_free(name) && #[trigger] base_of(b) == seq!['"'] + name + seq!['"'];
        trimmed_quoted(na);
        trimmed_quoted(nb);
        let la = prefix_of(a).len() as int;
        let lb = prefix_of(b).len() as int;
        assert(pa[la] == '"');
        assert(pb[lb] == '"');
        assert(pa.len() == la + 4 + na.len() + 1);
        assert(pb.len() == lb + 4 + nb.len() + 1);
        if la < lb {
            last_quote(pa, la, na, lb);
        }
        if lb < la {
            last_quote(pb, lb, nb, la);
        }
        assert(pa.take(la) =~= prefix_of(a));
        assert(pb.take(lb) =~= prefix_of(b));
        assert(pa.subrange(la + 4, pa.len() - 1) =~= na);
        assert(pb.subrange(lb + 4, pb.len() - 1) =~= nb);
    }
}

/// Inside the padded name, after its opening quote, no quote stands but the
/// last.
proof fn last_quote(p: Text, l: int, name: Text, k: int)
    requires
        quote_free(name),
        0 <= l < k,
        p.len() == l + 4 + name.len() + 1,
        p.subrange(l, p.len() as int) == "\"lp_"@ + name + "\""@,
        k + 4 < p.len(),
    ensures
        p[k] != '"',
{
    reveal_strlit("\"lp_");
    reveal_strlit("\"");
    let tail = p.subrange(l, p.len() as int);
    assert(tail[k - l] == p[k]);
    if k - l >= 4 {
        assert(tail[k - l] == name[k - l - 4]);
    }
}

pub(crate) proof fn trimmed_quoted(name: Text)
    requires
        quote_free(name),
    ensures
        trimmed(seq!['"'] + name + seq!['"'], '"') == name,
{
    let whole = seq!['"'] + name + seq!['"'];
    reveal_with_fuel(crate::text::trim_start, 3);
    reveal_with_fuel(crate::text::trim_end, 3);
    assert(whole.drop_first() =~= name + seq!['"']);
    if name.len() > 0 {
        assert((name + seq!['"'])[0] == name[0]);
        assert(crate::text::trim_start(whole, '"') == name + seq!['"']);
        assert((name + seq!['"']).drop_last() =~= name);
        assert(name.last() != '"');
    } else {
        assert((name + seq!['"']).drop_first() =~= Seq::<char>::empty());
        assert(name =~= Seq::<char>::empty());
    }
}

/// What a landing pad's name is made of, for a well-quoted id.
pub(crate) proof fn pad_shape(id: Text)
    requires
        well_quoted(id),
    ensures
        quote_free(id) ==> pad_name(id) == "lp_"@ + id && prefix_of(id).len() == 0,
        forall|name: Text|
            quote_free(name) && #[trigger] base_of(id) == seq!['"'] + name + seq!['"'] ==> pad_name(id) == prefix_of(id)
                + "\"lp_"@ + name + "\""@ && pad_name(id).subrange(
                prefix_of(id).len() as int,
                pad_name(id).len() as int,
            ) == "\"lp_"@ + name + "\""@,
{
    prefix_begins(id);
    if quote_free(id) {
        no_break(id, id.len());
        assert(base_of(id) =~= id);
        assert(prefix_of(id) + "lp_"@ + base_of(id) =~= "lp_"@ + id);
    }
    assert forall|name: Text| quote_free(name) && #[trigger] base_of(id) == seq!['"'] + name + seq!['"'] implies pad_name(
        id,
    ) == prefix_of(id) + "\"lp_"@ + name + "\""@ && pad_name(id).subrange(
        prefix_of(id).len() as int,
        pad_name(id).len() as int,
    ) == "\"lp_"@ + name + "\""@ by {
        trimmed_quoted(name);
        assert(base_of(id)[0] == '"');
        assert(pad_name(id).subrange(prefix_of(id).len() as int, pad_name(id).len() as int) =~= "\"lp_"@ + name + "\""@);
    }
}

pub(crate) proof fn no_break(s: Text, end: nat)
    requires
        quote_free(s),
    ensures
        last_occurrence(s, part_break(), end) is None,
    decreases end,
{
    if end > 0 {
        if occurs_at(s, part_break(), end - 1) {
            let sub = s.subrange(end - 1, end as int + 2);
            assert(sub[0] == '"');
            assert(sub[0] == s[end - 1]);
        }
        no_break(s, (end - 1) as nat);
    }
}

/// Whether `dep` is among what `node_id` reads, directly or through other
/// nodes.
pub fn is_transitive_dep(g: &Graph, node_id: &str, dep: &str) -> (r: bool)
    requires
        g.wf(),
    ensures
        r == transitive_dep(g@, node_id@, dep@),
{
    let mut start: Vec<String> = Vec::new();
    start.push(node_id.to_owned());
    proof {
        assert(texts(start@) =~= seq![node_id@]);
        assert(texts(start@).to_set() =~= set![node_id@]) by {
            assert(seq![node_id@][0] == node_id@);
        }
        g.listed_is_view();
    }
    let marks = g.upstream_marks(&start);
    let nodes = g.nodes();
    let ghost listed = g.listed();
    let mut i: usize = 0;
    while i < nodes.len()
        invariant
            i <= nodes@.len() == listed.len() == marks@.len(),
            models(nodes@) == listed,
            listed == g.listed(),
            crate::dag::distinct_ids(listed),
            g@ == crate::dag::by_id(listed),
            forall|k: int|
                0 <= k < marks@.len() ==> (#[trigger] marks@[k]) == upstream(g@, set![node_id@]).contains(listed[k].id),
            forall|k: int| 0 <= k < i ==> !((#[trigger] marks@[k]) && listed[k].depends_on.contains(dep@)),
        decreases nodes@.len() - i,
    {
        proof {
            assert(listed[i as int] == nodes@[i as int]@);
        }
        if marks[i] && contains_text(&nodes[i].depends_on, dep) {
            proof {
                by_id_at(listed, i as int);
                assert(reads(g@, listed[i as int].id, dep@));
            }
            return true;
        }
        i = i + 1;
    }
    proof {
        if transitive_dep(g@, node_id@, dep@) {
            let b = choose|b: Text| upstream(g@, set![node_id@]).contains(b) && #[trigger] reads(g@, b, dep@);
            let k = by_id_position(listed, b);
            assert(marks@[k]);
        }
    }
    false
}

/// The landing pad of a View: a TempTable that copies it.
pub open spec fn pad_node(view: Text) -> NodeModel {
    NodeModel {
        id: pad_name(view),
        query_text: "SELECT * FROM "@ + view,
        materialize: MaterializeMode::TempTable,
        depends_on: set![view],
        schema: None,
    }
}

/// `d` is a View between `view` and whatever reads `d`: it has `view` among
/// what it reads, directly or not.
pub open spec fn lies_between(g: GraphModel, view: Text, d: Text) -> bool {
    d != view && is_view(g, d) && transitive_dep(g, d, view)
}

/// The node after the Views of `steps`, in turn, have been inlined into it:
/// the query takes in the View's own, and the View's place among what the node
/// reads goes to what the View reads.
pub open spec fn inline_all(g: GraphModel, dialect: Dialect, m: NodeModel, steps: Seq<Text>) -> Option<NodeModel>
    decreases steps.len(),
{
    if steps.len() == 0 {
        Some(m)
    } else {
        match inline_all(g, dialect, m, steps.drop_last()) {
            Some(mid) => {
                let v = steps.last();
                match inlined_view(mid.query_text, v, g[v].query_text, dialect) {
                    Some(t) => Some(
                        NodeModel { query_text: t, depends_on: mid.depends_on.remove(v).union(g[v].depends_on), ..mid },
                    ),
                    None => None,
                }
            },
            None => None,
        }
    }
}

/// The Views between `view` and whatever reads them.
pub open spec fn between(g: GraphModel, view: Text) -> spec_fn(Text) -> bool {
    |d: Text| lies_between(g, view, d)
}

/// Each View of `steps`, when its turn comes, is one that the node reads and
/// that `pick` picks.
pub open spec fn inline_order(
    g: GraphModel,
    dialect: Dialect,
    pick: spec_fn(Text) -> bool,
    m: NodeModel,
    steps: Seq<Text>,
) -> bool
    decreases steps.len(),
{
    steps.len() == 0 || {
        &&& inline_order(g, dialect, pick, m, steps.drop_last())
        &&& inline_all(g, dialect, m, steps.drop_last()) matches Some(mid) && mid.depends_on.contains(steps.last())
        &&& pick(steps.last())
    }
}

/// The node reads no View that `pick` picks, but for Views on a cycle or
/// behind one.
pub open spec fn nothing_picked(g: GraphModel, pick: spec_fn(Text) -> bool, m: NodeModel) -> bool {
    forall|d: Text| #[trigger] m.depends_on.contains(d) && grounded(g, d) ==> !pick(d)
}

/// `after` is `m` with every View that `pick` picks inlined, one after the
/// other.
pub open spec fn contracted(
    g: GraphModel,
    dialect: Dialect,
    pick: spec_fn(Text) -> bool,
    m: NodeModel,
    after: NodeModel,
) -> bool {
    exists|steps: Seq<Text>|
        #[trigger] inline_order(g, dialect, pick, m, steps) && inline_all(g, dialect, m, steps) == Some(after)
            && nothing_picked(g, pick, after)
}

/// Inlining into `m` comes to the View `v`, which cannot be inlined.
pub open spec fn stuck_at(g: GraphModel, dialect: Dialect, pick: spec_fn(Text) -> bool, m: NodeModel, v: Text) -> bool {
    exists|steps: Seq<Text>|
        #[trigger] inline_order(g, dialect, pick, m, steps) && match inline_all(g, dialect, m, steps) {
            Some(mid) => mid.depends_on.contains(v) && pick(v) && inlined_view(
                mid.query_text,
                v,
                g[v].query_text,
                dialect,
            ) is None,
            None => false,
        }
}

/// The node after its reads of `view` have moved to the landing pad.
pub open spec fn repointed(m: NodeModel, view: Text, text: Text) -> NodeModel {
    NodeModel {
        query_text: text,
        depends_on: if m.depends_on.contains(view) {
            m.depends_on.remove(view).insert(pad_name(view))
        } else {
            m.depends_on
        },
        ..m
    }
}

/// The renaming that moves reads of `view` to its landing pad.
pub open spec fn to_pad(view: Text) -> Seq<(Text, Text)> {
    seq![(view, pad_name(view))]
}

/// `after` is `m` with every View between it and `view` inlined and its reads
/// of `view` moved to the landing pad.
pub open spec fn rebased(g: GraphModel, dialect: Dialect, view: Text, m: NodeModel, after: NodeModel) -> bool {
    exists|mid: NodeModel|
        #[trigger] contracted(g, dialect, between(g, view), m, mid) && match rewritten_refs(
            mid.query_text,
            to_pad(view),
            dialect,
        ) {
            Some(t) => after == repointed(mid, view, t),
            None => false,
        }
}

/// What is said where a View cannot be inlined.
pub open spec fn inline_failure(v: Text, m: Text) -> Text {
    "make_temp: could not inline view '"@ + v + "' into '"@ + m
        + "' at the AST level; refusing to fall back to text substitution, which would silently change what the query means"@
}

/// What is said where a node cannot be moved to the landing pad.
pub open spec fn repoint_failure(m: Text, view: Text) -> Text {
    "make_temp: could not repoint '"@ + m + "' from '"@ + view + "' to '"@ + pad_name(view)
        + "' at the AST level; refusing to fall back to text substitution"@
}

/// Rebasing `m` comes to a query that cannot be rewritten, and `message` says
/// which.
pub open spec fn rebase_fails(g: GraphModel, dialect: Dialect, view: Text, m: NodeModel, message: Text) -> bool {
    ||| exists|v: Text|
        #[trigger] stuck_at(g, dialect, between(g, view), m, v) && message == inline_failure(v, m.id)
    ||| exists|mid: NodeModel|
        #[trigger] contracted(g, dialect, between(g, view), m, mid) && rewritten_refs(
            mid.query_text,
            to_pad(view),
            dialect,
        ) is None && message == repoint_failure(m.id, view)
}

/// The landing pad of `view` is in place.
pub open spec fn has_pad(g: GraphModel, view: Text) -> bool {
    g.contains_key(pad_name(view)) && g[pad_name(view)].depends_on.contains(view)
}

/// `after` is `g` with the landing pad in it and with nothing but the frontier
/// of `view` changed besides.
pub open spec fn only_frontier_changed(g: GraphModel, view: Text, after: GraphModel) -> bool {
    let padded = g.insert(pad_name(view), pad_node(view));
    &&& after.dom() == padded.dom()
    &&& forall|id: Text|
        padded.contains_key(id) && !frontier(g, view).contains(id) ==> #[trigger] after[id] == padded[id]
}

/// `after` is `g` with the landing pad of `view` in it and every node of the
/// frontier rebased onto it.
pub open spec fn temp_made(g: GraphModel, dialect: Dialect, view: Text, after: GraphModel) -> bool {
    let padded = g.insert(pad_name(view), pad_node(view));
    &&& only_frontier_changed(g, view, after)
    &&& forall|id: Text|
        #[trigger] frontier(g, view).contains(id) ==> rebased(padded, dialect, view, padded[id], after[id])
}

/// Backing `view` was given up with `message`, and `after` is what became of the
/// graph: the landing pad is in it, the consumer that could not be rebased is as
/// it was, and every other one is so too or was rebased.
pub open spec fn temp_given_up(g: GraphModel, dialect: Dialect, view: Text, after: GraphModel, message: Text) -> bool {
    let padded = g.insert(pad_name(view), pad_node(view));
    &&& !has_pad(g, view)
    &&& only_frontier_changed(g, view, after)
    &&& forall|id: Text|
        #[trigger] frontier(g, view).contains(id) ==> after[id] == padded[id] || rebased(
            padded,
            dialect,
            view,
            padded[id],
            after[id],
        )
    &&& exists|m: Text|
        #[trigger] frontier(g, view).contains(m) && after[m] == padded[m] && rebase_fails(
            padded,
            dialect,
            view,
            padded[m],
            message,
        )
}

/// `list` holds Views that `pick` picks and that stand in the building order
/// `topo`, all of them, those nearest to the consumers first.
pub(crate) open spec fn consumers_first(
    g: GraphModel,
    topo: Seq<Text>,
    pick: spec_fn(Text) -> bool,
    list: Seq<Text>,
) -> bool {
    &&& stable_topo(g, g.dom(), topo)
    &&& forall|i: int| 0 <= i < list.len() ==> pick(#[trigger] list[i]) && g.contains_key(list[i])
    &&& forall|d: Text| pick(d) && #[trigger] topo.contains(d) ==> list.contains(d)
    &&& forall|i: int, a: Text| 0 <= i < list.len() && #[trigger] reads(g, list[i], a) ==> !list.take(i + 1).contains(a)
}

/// The members of `order`, from the last to the first, that `keep` marks.
pub(crate) fn marked_from_last(
    order: &Vec<String>,
    keep: &Vec<bool>,
    Ghost(g): Ghost<GraphModel>,
    Ghost(pick): Ghost<spec_fn(Text) -> bool>,
) -> (r: Vec<String>)
    requires
        keep@.len() == order@.len(),
        stable_topo(g, g.dom(), texts(order@)),
        forall|i: int| 0 <= i < keep@.len() ==> (#[trigger] keep@[i]) == pick(order@[i]@),
    ensures
        consumers_first(g, texts(order@), pick, texts(r@)),
{
    let ghost topo = texts(order@);
    proof {
        stable_topo_builds_dependencies_first(g, g.dom(), topo);
    }
    let mut out: Vec<String> = Vec::new();
    let ghost mut at: Seq<int> = Seq::empty();
    let mut k: usize = order.len();
    while k > 0
        invariant
            k <= order@.len() == keep@.len(),
            topo == texts(order@),
            forall|i: int| 0 <= i < keep@.len() ==> (#[trigger] keep@[i]) == pick(order@[i]@),
            at.len() == out@.len(),
            forall|i: int| 0 <= i < at.len() ==> k <= #[trigger] at[i] < topo.len() && topo[at[i]] == out@[i]@,
            forall|i: int, j: int| 0 <= i < j < at.len() ==> #[trigger] at[i] > #[trigger] at[j],
            forall|i: int| 0 <= i < out@.len() ==> pick((#[trigger] out@[i])@),
            forall|q: int| k <= q < topo.len() && pick(#[trigger] topo[q]) ==> texts(out@).contains(topo[q]),
        decreases k,
    {
        k = k - 1;
        let ghost had = texts(out@);
        proof {
            assert(topo[k as int] == order@[k as int]@);
        }
        if keep[k] {
            out.push(order[k].clone());
            proof {
                at = at.push(k as int);
                assert(texts(out@) =~= had.push(topo[k as int]));
                assert(texts(out@)[had.len() as int] == topo[k as int]);
            }
        }
        proof {
            assert forall|q: int| k <= q < topo.len() && pick(#[trigger] topo[q]) implies texts(out@).contains(topo[q]) by {
                if q > k {
                    assert(had.contains(topo[q]));
                    let w = choose|w: int| 0 <= w < had.len() && had[w] == topo[q];
                    assert(texts(out@)[w] == topo[q]);
                }
            }
        }
    }
    proof {
        let list = texts(out@);
        assert forall|i: int| 0 <= i < list.len() implies pick(#[trigger] list[i]) && g.contains_key(list[i]) by {
            assert(list[i] == out@[i]@);
            assert(topo[at[i]] == list[i]);
            assert(g.contains_key(topo[at[i]]));
        }
        assert forall|d: Text| pick(d) && #[trigger] topo.contains(d) implies list.contains(d) by {
            let q = choose|q: int| 0 <= q < topo.len() && topo[q] == d;
            assert(pick(topo[q]));
        }
        assert forall|i: int, a: Text| 0 <= i < list.len() && #[trigger] reads(g, list[i], a) implies !list.take(
            i + 1,
        ).contains(a) by {
            let head = list.take(i + 1);
            if head.contains(a) {
                let j = choose|j: int| 0 <= j < head.len() && head[j] == a;
                assert(list[j] == out@[j]@);
                assert(topo[at[j]] == a);
                assert(topo[at[i]] == out@[i]@);
                assert(g.contains_key(topo[at[j]]));
                assert(reads(g, topo[at[i]], a));
                let low = topo.take(at[i]);
                assert(low.contains(a));
                let w = choose|w: int| 0 <= w < low.len() && low[w] == a;
                assert(topo[w] == topo[at[j]]);
                if j < i {
                    assert(at[j] > at[i]);
                }
            }
        }
    }
    out
}

/// The Views between `view` and its consumers, those nearest to the consumers
/// first.
fn views_between(g: &Graph, view: &str) -> (r: (Vec<String>, Ghost<Seq<Text>>))
    requires
        g.wf(),
    ensures
        consumers_first(g@, r.1@, between(g@, view@), texts(r.0@)),
{
    let order = g.topological_sort();
    let ghost topo = texts(order@);
    let ghost pick = between(g@, view@);
    let mut keep: Vec<bool> = Vec::new();
    let mut k: usize = 0;
    while k < order.len()
        invariant
            k <= order@.len(),
            g.wf(),
            pick == between(g@, view@),
            keep@.len() == k,
            forall|i: int| 0 <= i < k ==> (#[trigger] keep@[i]) == pick(order@[i]@),
        decreases order@.len() - k,
    {
        let id = order[k].as_str();
        let mut take = false;
        if !text_eq(id, view) {
            if let Some(node) = g.get(id) {
                if node.materialize == MaterializeMode::View && is_transitive_dep(g, id, view) {
                    take = true;
                }
            }
        }
        keep.push(take);
        k = k + 1;
    }
    (marked_from_last(&order, &keep, Ghost(g@), Ghost(pick)), Ghost(topo))
}

/// Inlines into `m` every View of `list` that it reads, with the queries that
/// the Views have in `g`; where one cannot be inlined, its id.
pub(crate) fn inline_listed(
    g: &Graph,
    m: &TransformNode,
    dialect: Dialect,
    list: &Vec<String>,
    Ghost(whole): Ghost<GraphModel>,
    Ghost(topo): Ghost<Seq<Text>>,
    Ghost(pick): Ghost<spec_fn(Text) -> bool>,
) -> (r: Result<(String, Vec<String>), String>)
    requires
        g.wf(),
        consumers_first(whole, topo, pick, texts(list@)),
        forall|d: Text| pick(d) ==> #[trigger] whole.contains_key(d),
        forall|i: int|
            0 <= i < list@.len() ==> g@.contains_key((#[trigger] list@[i])@) && g@[list@[i]@] == whole[list@[i]@],
    ensures
        match r {
            Ok((text, deps)) => contracted(
                whole,
                dialect,
                pick,
                m@,
                NodeModel { query_text: text@, depends_on: texts(deps@).to_set(), ..m@ },
            ),
            Err(v) => stuck_at(whole, dialect, pick, m@, v@),
        },
{
    let mut text = m.query_text.clone();
    let mut deps = copy_texts(&m.depends_on);
    let ghost mut steps: Seq<Text> = Seq::empty();
    let ghost mut mid = m@;
    let ghost all = texts(list@);
    let mut j: usize = 0;
    while j < list.len()
        invariant
            j <= list@.len(),
            g.wf(),
            all == texts(list@),
            consumers_first(whole, topo, pick, all),
            forall|i: int|
                0 <= i < list@.len() ==> g@.contains_key((#[trigger] list@[i])@) && g@[list@[i]@] == whole[list@[i]@],
            inline_order(whole, dialect, pick, m@, steps),
            inline_all(whole, dialect, m@, steps) == Some(mid),
            mid == (NodeModel { query_text: text@, depends_on: texts(deps@).to_set(), ..m@ }),
            forall|i: int| 0 <= i < j ==> !mid.depends_on.contains(#[trigger] all[i]),
        decreases list@.len() - j,
    {
        let v = list[j].as_str();
        proof {
            assert(all[j as int] == v@);
        }
        if contains_text(&deps, v) {
            match g.get(v) {
                None => {},
                Some(node) => {
                    match inline_view_ast(text.as_str(), v, node.query_text.as_str(), dialect) {
                        None => {
                            return Err(list[j].clone());
                        },
                        Some(t) => {
                            let kept = without_text(&deps, v);
                            deps = union_texts(&kept, &node.depends_on);
                            text = t;
                            proof {
                                let next = NodeModel {
                                    query_text: text@,
                                    depends_on: mid.depends_on.remove(v@).union(whole[v@].depends_on),
                                    ..mid
                                };
                                let more = steps.push(v@);
                                assert(more.drop_last() =~= steps);
                                assert(more.last() == v@);
                                assert(inline_all(whole, dialect, m@, more) == Some(next));
                                assert(inline_order(whole, dialect, pick, m@, more));
                                assert forall|i: int| 0 <= i < j + 1 implies !next.depends_on.contains(#[trigger] all[i]) by {
                                    if whole[v@].depends_on.contains(all[i]) {
                                        assert(reads(whole, all[j as int], all[i]));
                                        assert(all.take(j + 1)[i] == all[i]);
                                    }
                                }
                                steps = more;
                                mid = next;
                            }
                        },
                    }
                },
            }
        }
        j = j + 1;
    }
    proof {
        assert(nothing_picked(whole, pick, mid)) by {
            assert forall|d: Text| #[trigger] mid.depends_on.contains(d) && grounded(whole, d) implies !pick(d) by {
                if pick(d) {
                    assert(whole.contains_key(d));
                    stable_topo_is_grounded(whole, topo, d);
                    assert(all.contains(d));
                    let i = choose|i: int| 0 <= i < all.len() && all[i] == d;
                    assert(!mid.depends_on.contains(all[i]));
                }
            }
        }
    }
    Ok((text, deps))
}

/// Inlines into `m` every View of `list` that it reads and moves its reads of
/// `view` to the landing pad `pad`.
fn rebase(
    g: &Graph,
    m: &TransformNode,
    view: &str,
    pad: &str,
    dialect: Dialect,
    list: &Vec<String>,
    Ghost(padded): Ghost<GraphModel>,
    Ghost(topo): Ghost<Seq<Text>>,
) -> (r: Result<(String, Vec<String>), String>)
    requires
        g.wf(),
        pad@ == pad_name(view@),
        consumers_first(padded, topo, between(padded, view@), texts(list@)),
        forall|i: int|
            0 <= i < list@.len() ==> g@.contains_key((#[trigger] list@[i])@) && g@[list@[i]@] == padded[list@[i]@],
    ensures
        match r {
            Ok((text, deps)) => rebased(
                padded,
                dialect,
                view@,
                m@,
                NodeModel { query_text: text@, depends_on: texts(deps@).to_set(), ..m@ },
            ),
            Err(message) => rebase_fails(padded, dialect, view@, m@, message@),
        },
{
    let ghost pick = between(padded, view@);
    match inline_listed(g, m, dialect, list, Ghost(padded), Ghost(topo), Ghost(pick)) {
        Err(v) => {
            let mut message = "make_temp: could not inline view '".to_owned();
            message.append(v.as_str());
            message.append("' into '");
            message.append(m.id.as_str());
            message.append(
                "' at the AST level; refusing to fall back to text substitution, which would silently change what the query means",
            );
            Err(message)
        },
        Ok((text, inlined)) => {
            let ghost mid = NodeModel { query_text: text@, depends_on: texts(inlined@).to_set(), ..m@ };
            let mut mapping: Vec<Renaming> = Vec::new();
            mapping.push(Renaming { node_id: view.to_owned(), new_name: pad.to_owned() });
            proof {
                assert(renamings(mapping@) =~= to_pad(view@));
            }
            match rewrite_node_refs(text.as_str(), &mapping, dialect) {
                None => {
                    let mut message = "make_temp: could not repoint '".to_owned();
                    message.append(m.id.as_str());
                    message.append("' from '");
                    message.append(view);
                    message.append("' to '");
                    message.append(pad);
                    message.append("' at the AST level; refusing to fall back to text substitution");
                    proof {
                        assert(contracted(padded, dialect, pick, m@, mid));
                    }
                    Err(message)
                },
                Some(t) => {
                    let mut deps = inlined;
                    if contains_text(&deps, view) {
                        let kept = without_text(&deps, view);
                        deps = with_text(&kept, pad);
                    }
                    proof {
                        let after = NodeModel { query_text: t@, depends_on: texts(deps@).to_set(), ..m@ };
                        assert(after =~= repointed(mid, view@, t@));
                        assert(contracted(padded, dialect, pick, m@, mid));
                    }
                    Ok((t, deps))
                },
            }
        },
    }
}

/// Backs the View `view_name` with a TempTable: puts its landing pad into the
/// graph and rebases the nearest materialized consumers onto it, inlining the
/// Views that lie between. Returns the landing pad's id.
///
/// Where the landing pad already backs the View, nothing changes. Where a
/// query cannot be rewritten the message says which; the landing pad and the
/// consumers rebased before it then stay as they are.
pub fn make_temp(dag: &mut Dag, view_name: &str) -> (r: Result<String, OptimizerError>)
    requires
        old(dag).wf(),
    ensures
        final(dag).wf(),
        final(dag).db@ == old(dag).db@,
        final(dag).sources == old(dag).sources,
        final(dag).max_parallelism == old(dag).max_parallelism,
        match r {
            Ok(name) => {
                &&& name@ == pad_name(view_name@)
                &&& has_pad(old(dag).nodes@, view_name@) ==> *final(dag) == *old(dag)
                &&& !has_pad(old(dag).nodes@, view_name@) ==> temp_made(
                    old(dag).nodes@,
                    named_dialect(unicode_lower(old(dag).db@)),
                    view_name@,
                    final(dag).nodes@,
                )
            },
            Err(OptimizerError::Exec(message)) => temp_given_up(
                old(dag).nodes@,
                named_dialect(unicode_lower(old(dag).db@)),
                view_name@,
                final(dag).nodes@,
                message@,
            ),
            Err(_) => false,
        },
{
    let ghost g = dag.nodes@;
    let ghost view = view_name@;
    let dialect = dialect_for_db(dag.db.as_str());
    let pad = landing_pad_name(view_name);
    if let Some(node) = dag.nodes.get(pad.as_str()) {
        if contains_text(&node.depends_on, view_name) {
            return Ok(pad);
        }
    }
    let reached = dag.nodes.frontier_materializes(view_name);
    let mut reads_view: Vec<String> = Vec::new();
    reads_view.push(view_name.to_owned());
    let mut query_text = "SELECT * FROM ".to_owned();
    query_text.append(view_name);
    let node = TransformNode {
        id: pad.clone(),
        query_text,
        materialize: MaterializeMode::TempTable,
        depends_on: reads_view,
        schema: None,
    };
    proof {
        assert(texts(reads_view@) =~= seq![view]);
        assert(texts(reads_view@).to_set() =~= set![view]) by {
            assert(seq![view][0] == view);
        }
        assert(node@ =~= pad_node(view));
    }
    dag.nodes.add_node_unchecked(node);
    let ghost padded = dag.nodes@;
    proof {
        crate::walk::downstream_in_graph(g, view);
        dag.nodes.listed_is_view();
    }
    let (inner, Ghost(topo)) = views_between(&dag.nodes, view_name);
    let mut i: usize = 0;
    while i < reached.len()
        invariant
            i <= reached@.len(),
            dag.wf(),
            dag.db@ == old(dag).db@,
            dag.sources == old(dag).sources,
            dag.max_parallelism == old(dag).max_parallelism,
            g == old(dag).nodes@,
            view == view_name@,
            pad@ == pad_name(view),
            !has_pad(g, view),
            dialect == named_dialect(unicode_lower(old(dag).db@)),
            padded == g.insert(pad_name(view), pad_node(view)),
            crate::dag::keyed(padded),
            texts(reached@).to_set() == frontier(g, view),
            texts(reached@).no_duplicates(),
            frontier(g, view).subset_of(g.dom()),
            dag.nodes@.dom() == padded.dom(),
            forall|id: Text|
                padded.contains_key(id) && !texts(reached@).take(i as int).contains(id) ==> #[trigger] dag.nodes@[id] == padded[id],
            forall|k: int|
                0 <= k < i ==> rebased(
                    padded,
                    dialect,
                    view,
                    padded[(#[trigger] reached@[k])@],
                    dag.nodes@[reached@[k]@],
                ),
            consumers_first(padded, topo, between(padded, view), texts(inner@)),
        decreases reached@.len() - i,
    {
        let ghost ids = texts(reached@);
        let ghost m_id = reached@[i as int]@;
        let ghost before = dag.nodes@;
        proof {
            assert(ids[i as int] == m_id);
            assert(ids.to_set().contains(m_id));
            assert(padded.contains_key(m_id));
            assert forall|k: int| 0 <= k < inner@.len() implies dag.nodes@.contains_key(
                (#[trigger] inner@[k])@,
            ) && dag.nodes@[inner@[k]@] == padded[inner@[k]@] by {
                let b = inner@[k]@;
                assert(texts(inner@)[k] == b);
                assert(lies_between(padded, view, b));
                if ids.take(i as int).contains(b) {
                    let w = choose|w: int| 0 <= w < ids.take(i as int).len() && ids.take(i as int)[w] == b;
                    assert(ids[w] == b);
                    assert(frontier(g, view).contains(b));
                }
            }
            assert(!ids.take(i as int).contains(m_id)) by {
                if ids.take(i as int).contains(m_id) {
                    let w = choose|w: int| 0 <= w < ids.take(i as int).len() && ids.take(i as int)[w] == m_id;
                    assert(ids[w] == ids[i as int]);
                }
            }
            assert(dag.nodes@[m_id] == padded[m_id]);
        }
        let m = match dag.nodes.get(reached[i].as_str()) {
            Some(m) => m.copy(),
            None => {
                return Ok(pad);
            },
        };
        match rebase(&dag.nodes, &m, view_name, pad.as_str(), dialect, &inner, Ghost(padded), Ghost(topo)) {
            Err(message) => {
                proof {
                    assert forall|id: Text| padded.contains_key(id) && !frontier(g, view).contains(id) implies #[trigger] dag.nodes@[id] == padded[id] by {
                        if ids.take(i as int).contains(id) {
                            let w = choose|w: int| 0 <= w < ids.take(i as int).len() && ids.take(i as int)[w] == id;
                            assert(ids[w] == id);
                            assert(ids.to_set().contains(id));
                        }
                    }
                    assert forall|id: Text| #[trigger] frontier(g, view).contains(id) implies dag.nodes@[id] == padded[id]
                        || rebased(padded, dialect, view, padded[id], dag.nodes@[id]) by {
                        assert(ids.to_set().contains(id));
                        if ids.take(i as int).contains(id) {
                            let k = choose|k: int| 0 <= k < ids.take(i as int).len() && ids.take(i as int)[k] == id;
                            assert(reached@[k]@ == id);
                        }
                    }
                    assert(frontier(g, view).contains(m_id));
                }
                return Err(OptimizerError::Exec(message));
            },
            Ok((text, deps)) => {
                dag.nodes.rewrite_node(reached[i].as_str(), text, deps);
                proof {
                    let next = ids.take(i + 1);
                    assert(next =~= ids.take(i as int).push(m_id));
                    assert(dag.nodes@.dom() =~= padded.dom());
                    assert forall|id: Text| padded.contains_key(id) && !next.contains(id) implies #[trigger] dag.nodes@[id] == padded[id] by {
                        assert(next[i as int] == m_id);
                        if ids.take(i as int).contains(id) {
                            let w = choose|w: int| 0 <= w < ids.take(i as int).len() && ids.take(i as int)[w] == id;
                            assert(next[w] == id);
                        }
                    }
                    assert forall|k: int| 0 <= k < i + 1 implies rebased(
                        padded,
                        dialect,
                        view,
                        padded[(#[trigger] reached@[k])@],
                        dag.nodes@[reached@[k]@],
                    ) by {
                        if k < i {
                            assert(ids[k] != ids[i as int]);
                            assert(ids[k] == reached@[k]@);
                        }
                    }
                }
            },
        }
        i = i + 1;
    }
    proof {
        let ids = texts(reached@);
        assert(ids.take(i as int) =~= ids);
        assert forall|id: Text| padded.contains_key(id) && !frontier(g, view).contains(id) implies #[trigger] dag.nodes@[id]
            == padded[id] by {
            assert(!ids.to_set().contains(id));
        }
        assert forall|id: Text| #[trigger] frontier(g, view).contains(id) implies rebased(
            padded,
            dialect,
            view,
            padded[id],
            dag.nodes@[id],
        ) by {
            assert(ids.to_set().contains(id));
            let k = choose|k: int| 0 <= k < ids.len() && ids[k] == id;
            assert(reached@[k]@ == id);
        }
    }
    Ok(pad)
}

/// A landing pad is never the View itself.
pub proof fn pad_is_another_node(view: Text)
    ensures
        pad_name(view) != view,
{
    prefix_begins(view);
    let base = base_of(view);
    let prefix = prefix_of(view);
    reveal_strlit("\"lp_");
    reveal_strlit("lp_");
    reveal_strlit("\"");
    if base.len() > 0 && base[0] == '"' {
        let t = trimmed(base, '"');
        trim_end_ends(crate::text::trim_start(base, '"'), '"');
        let shape = "\"lp_"@ + t + "\""@;
        assert(pad_name(view) =~= prefix + shape);
        if pad_name(view) == view {
            assert(base =~= pad_name(view).skip(prefix.len() as int));
            assert(base =~= shape);
            let rest = "lp_"@ + t + "\""@;
            assert(base.drop_first() =~= rest);
            assert(rest[0] == 'l');
            reveal_with_fuel(crate::text::trim_start, 3);
            reveal_with_fuel(crate::text::trim_end, 3);
            assert(crate::text::trim_start(base, '"') == rest);
            assert(rest.drop_last() =~= "lp_"@ + t);
            if t.len() > 0 {
                assert(("lp_"@ + t).last() == t.last());
            } else {
                assert(("lp_"@ + t).last() == '_');
            }
            assert(crate::text::trim_end(rest, '"') == "lp_"@ + t);
            assert(t.len() == ("lp_"@ + t).len());
        }
    } else {
        assert(pad_name(view).len() == view.len() + 3);
    }
}

proof fn trim_end_ends(s: Text, c: char)
    ensures
        crate::text::trim_end(s, c).len() == 0 || crate::text::trim_end(s, c).last() != c,
    decreases s.len(),
{
    if s.len() > 0 && s.last() == c {
        trim_end_ends(s.drop_last(), c);
    }
}

/// No node of the graph is called like the landing pad of `view`, and none
/// reads one so called.
pub open spec fn pad_is_new(g: GraphModel, view: Text) -> bool {
    !g.contains_key(pad_name(view)) && forall|x: Text| !(#[trigger] reads(g, x, pad_name(view)))
}

/// Inlining adds to what a node reads only what the graph's nodes read, and
/// changes nothing else of it but its query.
proof fn inlining_reads(
    g: GraphModel,
    dialect: Dialect,
    pick: spec_fn(Text) -> bool,
    m: NodeModel,
    steps: Seq<Text>,
    d: Text,
)
    requires
        inline_order(g, dialect, pick, m, steps),
        forall|v: Text| pick(v) ==> #[trigger] g.contains_key(v),
    ensures
        match inline_all(g, dialect, m, steps) {
            Some(mid) => {
                &&& mid.id == m.id
                &&& mid.materialize == m.materialize
                &&& mid.schema == m.schema
                &&& mid.depends_on.contains(d) ==> m.depends_on.contains(d) || exists|v: Text|
                    pick(v) && #[trigger] reads(g, v, d)
            },
            None => true,
        },
    decreases steps.len(),
{
    if steps.len() > 0 {
        inlining_reads(g, dialect, pick, m, steps.drop_last(), d);
        if g[steps.last()].depends_on.contains(d) {
            assert(g.contains_key(steps.last()));
            assert(reads(g, steps.last(), d));
        }
    }
}

/// Contracting changes nothing of a node but its query and what it reads.
pub proof fn contracting_keeps(
    g: GraphModel,
    dialect: Dialect,
    pick: spec_fn(Text) -> bool,
    m: NodeModel,
    after: NodeModel,
    d: Text,
)
    requires
        contracted(g, dialect, pick, m, after),
        forall|v: Text| pick(v) ==> #[trigger] g.contains_key(v),
    ensures
        after.id == m.id,
        after.materialize == m.materialize,
        after.schema == m.schema,
        after.depends_on.contains(d) ==> m.depends_on.contains(d) || exists|v: Text| pick(v) && #[trigger] reads(g, v, d),
{
    let steps = choose|steps: Seq<Text>|
        #[trigger] inline_order(g, dialect, pick, m, steps) && inline_all(g, dialect, m, steps) == Some(after)
            && nothing_picked(g, pick, after);
    inlining_reads(g, dialect, pick, m, steps, d);
}

/// The contracted form of `m` that `after` was repointed from.
proof fn rebased_from(g: GraphModel, dialect: Dialect, view: Text, m: NodeModel, after: NodeModel) -> (mid: NodeModel)
    requires
        rebased(g, dialect, view, m, after),
    ensures
        contracted(g, dialect, between(g, view), m, mid),
        exists|t: Text| after == #[trigger] repointed(mid, view, t),
        forall|v: Text| between(g, view)(v) ==> #[trigger] g.contains_key(v),
{
    let mid = choose|mid: NodeModel|
        #[trigger] contracted(g, dialect, between(g, view), m, mid) && match rewritten_refs(
            mid.query_text,
            to_pad(view),
            dialect,
        ) {
            Some(t) => after == repointed(mid, view, t),
            None => false,
        };
    let t = rewritten_refs(mid.query_text, to_pad(view), dialect)->Some_0;
    assert(after == repointed(mid, view, t));
    mid
}

/// Rebasing changes nothing of a node but its query and what it reads.
proof fn rebasing_keeps(g: GraphModel, dialect: Dialect, view: Text, m: NodeModel, after: NodeModel)
    requires
        rebased(g, dialect, view, m, after),
    ensures
        after.id == m.id,
        after.materialize == m.materialize,
        after.schema == m.schema,
        !after.depends_on.contains(view),
{
    let mid = rebased_from(g, dialect, view, m, after);
    contracting_keeps(g, dialect, between(g, view), m, mid, view);
    pad_is_another_node(view);
}

/// What a rebased node reads besides the landing pad was not left to inline.
proof fn rebasing_reads(g: GraphModel, dialect: Dialect, view: Text, m: NodeModel, after: NodeModel, d: Text)
    requires
        rebased(g, dialect, view, m, after),
        after.depends_on.contains(d),
        d != pad_name(view),
    ensures
        grounded(g, d) ==> !lies_between(g, view, d),
{
    let mid = rebased_from(g, dialect, view, m, after);
    let pick = between(g, view);
    let steps = choose|steps: Seq<Text>|
        #[trigger] inline_order(g, dialect, pick, m, steps) && inline_all(g, dialect, m, steps) == Some(mid)
            && nothing_picked(g, pick, mid);
    if grounded(g, d) {
        assert(mid.depends_on.contains(d));
        assert(!pick(d));
    }
}

/// The View that was backed stays as it was, and so does every other View.
pub proof fn make_temp_keeps_views(g: GraphModel, dialect: Dialect, view: Text, after: GraphModel, v: Text)
    requires
        temp_made(g, dialect, view, after),
        pad_is_new(g, view),
        is_view(g, v),
    ensures
        after.contains_key(v),
        after[v] == g[v],
{
    let padded = g.insert(pad_name(view), pad_node(view));
    assert(padded.contains_key(v));
    assert(!frontier(g, view).contains(v));
    assert(after[v] == padded[v]);
}

/// Backing a View adds one node, its landing pad: a TempTable that copies the
/// View.
pub proof fn make_temp_adds_the_pad(g: GraphModel, dialect: Dialect, view: Text, after: GraphModel)
    requires
        temp_made(g, dialect, view, after),
        pad_is_new(g, view),
    ensures
        after.dom() == g.dom().insert(pad_name(view)),
        after[pad_name(view)] == pad_node(view),
{
    let padded = g.insert(pad_name(view), pad_node(view));
    assert(!frontier(g, view).contains(pad_name(view)));
    assert(after[pad_name(view)] == padded[pad_name(view)]);
    assert(after.dom() =~= g.dom().insert(pad_name(view)));
}

/// Whatever reads the landing pad is a Table or a TempTable, and no consumer
/// on the frontier reads the View any more.
pub proof fn make_temp_rebases_the_frontier(g: GraphModel, dialect: Dialect, view: Text, after: GraphModel, x: Text)
    requires
        temp_made(g, dialect, view, after),
        pad_is_new(g, view),
    ensures
        reads(after, x, pad_name(view)) ==> frontier(g, view).contains(x) && !is_view(after, x),
        frontier(g, view).contains(x) ==> !reads(after, x, view),
{
    let padded = g.insert(pad_name(view), pad_node(view));
    pad_is_another_node(view);
    if frontier(g, view).contains(x) {
        assert(padded[x] == g[x]);
        rebasing_keeps(padded, dialect, view, padded[x], after[x]);
    } else if after.contains_key(x) {
        assert(padded.contains_key(x));
        assert(after[x] == padded[x]);
        if x != pad_name(view) {
            assert(!reads(g, x, pad_name(view)));
        }
    }
}

/// Where no View read a TempTable before, none does after.
pub proof fn make_temp_lets_no_view_read_a_temp_table(
    g: GraphModel,
    dialect: Dialect,
    view: Text,
    after: GraphModel,
    v: Text,
    t: Text,
)
    requires
        temp_made(g, dialect, view, after),
        pad_is_new(g, view),
        forall|x: Text, y: Text|
            is_view(g, x) && g.contains_key(y) && g[y].materialize == MaterializeMode::TempTable ==> !(#[trigger] reads(
                g,
                x,
                y,
            )),
    ensures
        is_view(after, v) && after.contains_key(t) && after[t].materialize == MaterializeMode::TempTable ==> !reads(
            after,
            v,
            t,
        ),
{
    let padded = g.insert(pad_name(view), pad_node(view));
    make_temp_adds_the_pad(g, dialect, view, after);
    if is_view(after, v) && after.contains_key(t) && after[t].materialize == MaterializeMode::TempTable {
        if frontier(g, view).contains(v) {
            rebasing_keeps(padded, dialect, view, padded[v], after[v]);
            assert(false);
        }
        assert(after[v] == padded[v]);
        assert(is_view(g, v));
        if t == pad_name(view) {
            assert(!reads(g, v, t));
        } else {
            if frontier(g, view).contains(t) {
                rebasing_keeps(padded, dialect, view, padded[t], after[t]);
            } else {
                assert(after[t] == padded[t]);
            }
            assert(!reads(g, v, t));
        }
    }
}

/// In a graph without cycles, no consumer on the frontier reads a View between
/// it and the View that was backed: all of those were inlined.
pub proof fn make_temp_inlines_what_lies_between(
    g: GraphModel,
    dialect: Dialect,
    view: Text,
    after: GraphModel,
    m: Text,
    d: Text,
)
    requires
        temp_made(g, dialect, view, after),
        pad_is_new(g, view),
        acyclic(g),
        frontier(g, view).contains(m),
        reads(after, m, d),
    ensures
        !lies_between(g.insert(pad_name(view), pad_node(view)), view, d),
{
    let padded = g.insert(pad_name(view), pad_node(view));
    padding_keeps_acyclic(g, view);
    if lies_between(padded, view, d) {
        acyclic_grounded(padded, d);
        rebasing_reads(padded, dialect, view, padded[m], after[m], d);
    }
}

proof fn padding_keeps_acyclic(g: GraphModel, view: Text)
    requires
        pad_is_new(g, view),
        acyclic(g),
    ensures
        acyclic(g.insert(pad_name(view), pad_node(view))),
{
    let padded = g.insert(pad_name(view), pad_node(view));
    let rank = choose|rank: spec_fn(Text) -> nat| #[trigger] descends(g, rank);
    let lp = pad_name(view);
    pad_is_another_node(view);
    let next = |t: Text| if t == lp { rank(view) + 1 } else { rank(t) };
    assert forall|a: Text, b: Text| #[trigger] reads(padded, b, a) implies next(a) < next(b) by {
        if b != lp {
            assert(reads(g, b, a));
            assert(!reads(g, b, lp));
        }
    }
    assert(descends(padded, next));
}

/// What is downstream of a View stands above it in any rank.
proof fn downstream_above(g: GraphModel, rank: spec_fn(Text) -> nat, view: Text, m: Text)
    requires
        descends(g, rank),
        crate::walk::downstream(g, view).contains(m),
    ensures
        rank(view) < rank(m),
{
    let s = Set::new(|t: Text| rank(view) < rank(t));
    assert(crate::walk::closed_downstream(g, view, s));
    assert(s.contains(m));
}

/// What a node reads after Views have been inlined into it stands below it.
proof fn inlining_descends(
    g: GraphModel,
    rank: spec_fn(Text) -> nat,
    dialect: Dialect,
    pick: spec_fn(Text) -> bool,
    m: NodeModel,
    steps: Seq<Text>,
    top: nat,
)
    requires
        descends(g, rank),
        inline_order(g, dialect, pick, m, steps),
        forall|v: Text| pick(v) ==> #[trigger] g.contains_key(v),
        forall|d: Text| #[trigger] m.depends_on.contains(d) ==> rank(d) < top,
    ensures
        match inline_all(g, dialect, m, steps) {
            Some(mid) => forall|d: Text| #[trigger] mid.depends_on.contains(d) ==> rank(d) < top,
            None => true,
        },
    decreases steps.len(),
{
    if steps.len() > 0 {
        inlining_descends(g, rank, dialect, pick, m, steps.drop_last(), top);
        if let Some(mid) = inline_all(g, dialect, m, steps) {
            let v = steps.last();
            assert forall|d: Text| #[trigger] mid.depends_on.contains(d) implies rank(d) < top by {
                if g[v].depends_on.contains(d) {
                    assert(g.contains_key(v));
                    assert(reads(g, v, d));
                }
            }
        }
    }
}

/// Backing a View makes no cycle.
pub proof fn make_temp_makes_no_cycle(g: GraphModel, dialect: Dialect, view: Text, after: GraphModel)
    requires
        temp_made(g, dialect, view, after),
        pad_is_new(g, view),
        acyclic(g),
    ensures
        acyclic(after),
        !reads(after, pad_name(view), pad_name(view)),
{
    let padded = g.insert(pad_name(view), pad_node(view));
    let lp = pad_name(view);
    pad_is_another_node(view);
    let rank = choose|rank: spec_fn(Text) -> nat| #[trigger] descends(g, rank);
    // Twice the rank leaves room for the landing pad right above its View.
    let next = |t: Text|
        if t == lp {
            2 * rank(view) + 1
        } else {
            2 * rank(t)
        };
    assert forall|a: Text, b: Text| #[trigger] reads(padded, b, a) implies next(a) < next(b) by {
        if b != lp {
            assert(reads(g, b, a));
            assert(!reads(g, b, lp));
        }
    }
    assert(descends(padded, next));
    make_temp_adds_the_pad(g, dialect, view, after);
    assert forall|a: Text, b: Text| #[trigger] reads(after, b, a) implies next(a) < next(b) by {
        if frontier(g, view).contains(b) {
            downstream_above(g, rank, view, b);
            let m = padded[b];
            assert(b != lp);
            assert forall|d: Text| #[trigger] m.depends_on.contains(d) implies next(d) < next(b) by {
                assert(reads(padded, b, d));
            }
            let pick = between(padded, view);
            let mid = rebased_from(padded, dialect, view, m, after[b]);
            let steps = choose|steps: Seq<Text>|
                #[trigger] inline_order(padded, dialect, pick, m, steps) && inline_all(padded, dialect, m, steps) == Some(mid)
                    && nothing_picked(padded, pick, mid);
            inlining_descends(padded, next, dialect, pick, m, steps, next(b));
            if a != lp {
                assert(mid.depends_on.contains(a));
            }
        } else {
            assert(after[b] == padded[b]);
            assert(reads(padded, b, a));
        }
    }
    assert(descends(after, next));
}

/// What leads on from a node to `view`: `view` itself, or a View downstream of
/// it.
spec fn leads_to(g: GraphModel, view: Text, d: Text) -> bool {
    d == view || (is_view(g, d) && crate::walk::downstream(g, view).contains(d))
}

/// A node downstream of `view` reads something that leads on to it.
proof fn downstream_is_led(g: GraphModel, view: Text, m: Text) -> (d: Text)
    requires
        crate::walk::downstream(g, view).contains(m),
    ensures
        reads(g, m, d),
        leads_to(g, view, d),
{
    let down = crate::walk::downstream(g, view);
    let s = Set::new(|t: Text| down.contains(t) && exists|d: Text| #[trigger] reads(g, t, d) && leads_to(g, view, d));
    crate::walk::downstream_closed(g, view);
    assert forall|t: Text, u: Text|
        #[trigger] reads(g, t, u) && (u == view || (s.contains(u) && is_view(g, u))) implies s.contains(t) by {
        assert(reads(g, t, u) && leads_to(g, view, u));
    }
    assert(crate::walk::closed_downstream(g, view, s));
    assert(s.contains(m));
    choose|d: Text| #[trigger] reads(g, m, d) && leads_to(g, view, d)
}

/// What is downstream of `view` has it among what it reads, with the landing
/// pad in place too.
proof fn downstream_depends(g: GraphModel, view: Text, m: Text)
    requires
        pad_is_new(g, view),
        crate::walk::downstream(g, view).contains(m),
    ensures
        transitive_dep(g.insert(pad_name(view), pad_node(view)), m, view),
{
    let padded = g.insert(pad_name(view), pad_node(view));
    let s = Set::new(|t: Text| transitive_dep(padded, t, view));
    assert forall|t: Text, u: Text|
        #[trigger] reads(g, t, u) && (u == view || (s.contains(u) && is_view(g, u))) implies s.contains(t) by {
        let up = crate::walk::upstream(padded, set![t]);
        crate::walk::upstream_closed(padded, set![t]);
        assert(up.contains(t));
        assert(reads(padded, t, u));
        if u == view {
            assert(up.contains(t) && reads(padded, t, view));
        } else {
            let b = choose|b: Text|
                crate::walk::upstream(padded, set![u]).contains(b) && #[trigger] reads(padded, b, view);
            assert(up.contains(u));
            assert(crate::walk::closed_upstream(padded, set![u], up));
            assert(up.contains(b) && reads(padded, b, view));
        }
    }
    assert(crate::walk::closed_downstream(g, view, s));
    assert(s.contains(m));
}

/// Inlining the Views between leaves a node something that leads on to `view`.
proof fn inlining_keeps_a_lead(
    g: GraphModel,
    dialect: Dialect,
    view: Text,
    m: NodeModel,
    steps: Seq<Text>,
)
    requires
        pad_is_new(g, view),
        inline_order(g.insert(pad_name(view), pad_node(view)), dialect, between(g.insert(pad_name(view), pad_node(view)), view), m, steps),
        exists|d: Text| #[trigger] m.depends_on.contains(d) && leads_to(g, view, d),
    ensures
        match inline_all(g.insert(pad_name(view), pad_node(view)), dialect, m, steps) {
            Some(mid) => exists|d: Text| #[trigger] mid.depends_on.contains(d) && leads_to(g, view, d),
            None => true,
        },
    decreases steps.len(),
{
    let padded = g.insert(pad_name(view), pad_node(view));
    if steps.len() > 0 {
        inlining_keeps_a_lead(g, dialect, view, m, steps.drop_last());
        if let Some(mid) = inline_all(padded, dialect, m, steps) {
            let had = inline_all(padded, dialect, m, steps.drop_last())->Some_0;
            let v = steps.last();
            let d = choose|d: Text| #[trigger] had.depends_on.contains(d) && leads_to(g, view, d);
            if d == v {
                let e = downstream_is_led(g, view, d);
                assert(padded[v] == g[v]);
                assert(mid.depends_on.contains(e));
            } else {
                assert(mid.depends_on.contains(d));
            }
        }
    }
}

/// In a graph without cycles, every consumer on the frontier reads the landing
/// pad once the View has been backed.
pub proof fn make_temp_moves_the_frontier_to_the_pad(
    g: GraphModel,
    dialect: Dialect,
    view: Text,
    after: GraphModel,
    m: Text,
)
    requires
        temp_made(g, dialect, view, after),
        pad_is_new(g, view),
        acyclic(g),
        frontier(g, view).contains(m),
    ensures
        reads(after, m, pad_name(view)),
{
    let padded = g.insert(pad_name(view), pad_node(view));
    assert(padded[m] == g[m]);
    let mid = rebased_from(padded, dialect, view, padded[m], after[m]);
    let pick = between(padded, view);
    let steps = choose|steps: Seq<Text>|
        #[trigger] inline_order(padded, dialect, pick, padded[m], steps) && inline_all(padded, dialect, padded[m], steps) == Some(
            mid,
        ) && nothing_picked(padded, pick, mid);
    let first = downstream_is_led(g, view, m);
    assert(padded[m].depends_on.contains(first));
    inlining_keeps_a_lead(g, dialect, view, padded[m], steps);
    let d = choose|d: Text| #[trigger] mid.depends_on.contains(d) && leads_to(g, view, d);
    if d != view {
        downstream_depends(g, view, d);
        padding_keeps_acyclic(g, view);
        acyclic_grounded(padded, d);
        assert(is_view(padded, d));
        assert(pick(d));
    }
    assert(padded.contains_key(m));
    assert(after.contains_key(m));
}

/// Backing a View a second time changes nothing: the landing pad is in place.
/// That leaves out graphs in which a node of the pad's name is itself a consumer
/// on the View's frontier and does not read the View.
pub proof fn make_temp_twice_is_once(g: GraphModel, dialect: Dialect, view: Text, after: GraphModel)
    requires
        has_pad(g, view) ==> after == g,
        !has_pad(g, view) ==> temp_made(g, dialect, view, after),
        has_pad(g, view) || !frontier(g, view).contains(pad_name(view)),
    ensures
        has_pad(after, view),
{
    if !has_pad(g, view) {
        let padded = g.insert(pad_name(view), pad_node(view));
        assert(padded.contains_key(pad_name(view)));
        assert(after[pad_name(view)] == padded[pad_name(view)]);
        assert(pad_node(view).depends_on.contains(view));
    }
}

/// What stays of the reads of a node while Views are inlined into it: a read
/// that is not picked stays, and one that is picked stays or hands on the reads
/// of its View.
proof fn inlining_hands_on(
    g: GraphModel,
    dialect: Dialect,
    pick: spec_fn(Text) -> bool,
    m: NodeModel,
    steps: Seq<Text>,
    v: Text,
    d: Text,
)
    requires
        inline_order(g, dialect, pick, m, steps),
        inline_all(g, dialect, m, steps) is Some,
        !pick(d),
        reads(g, v, d),
    ensures
        m.depends_on.contains(d) ==> inline_all(g, dialect, m, steps)->0.depends_on.contains(d),
        m.depends_on.contains(v) ==> inline_all(g, dialect, m, steps)->0.depends_on.contains(v) || inline_all(
            g,
            dialect,
            m,
            steps,
        )->0.depends_on.contains(d),
    decreases steps.len(),
{
    if steps.len() > 0 {
        inlining_hands_on(g, dialect, pick, m, steps.drop_last(), v, d);
    }
}

/// Where a View is inlined into a node, the node reads what the View read and
/// the View no more, unless that is inlined too.
pub proof fn an_inlined_view_hands_on_its_reads(
    g: GraphModel,
    dialect: Dialect,
    pick: spec_fn(Text) -> bool,
    m: NodeModel,
    after: NodeModel,
    v: Text,
    d: Text,
)
    requires
        contracted(g, dialect, pick, m, after),
        m.depends_on.contains(v),
        pick(v),
        grounded(g, v),
        reads(g, v, d),
        !pick(d),
    ensures
        !after.depends_on.contains(v),
        after.depends_on.contains(d),
{
    let steps = choose|steps: Seq<Text>|
        #[trigger] inline_order(g, dialect, pick, m, steps) && inline_all(g, dialect, m, steps) == Some(after)
            && nothing_picked(g, pick, after);
    inlining_hands_on(g, dialect, pick, m, steps, v, d);
}

/// What is not picked stays while Views are inlined.
proof fn inlining_leaves(
    g: GraphModel,
    dialect: Dialect,
    pick: spec_fn(Text) -> bool,
    m: NodeModel,
    steps: Seq<Text>,
    d: Text,
)
    requires
        inline_order(g, dialect, pick, m, steps),
        inline_all(g, dialect, m, steps) is Some,
        !pick(d),
        m.depends_on.contains(d),
    ensures
        inline_all(g, dialect, m, steps)->0.depends_on.contains(d),
    decreases steps.len(),
{
    if steps.len() > 0 {
        inlining_leaves(g, dialect, pick, m, steps.drop_last(), d);
    }
}

/// A node still reads whatever it read that is not to be inlined.
pub proof fn contracting_leaves_the_other_reads(
    g: GraphModel,
    dialect: Dialect,
    pick: spec_fn(Text) -> bool,
    m: NodeModel,
    after: NodeModel,
    d: Text,
)
    requires
        contracted(g, dialect, pick, m, after),
        m.depends_on.contains(d),
        !pick(d),
    ensures
        after.depends_on.contains(d),
{
    let steps = choose|steps: Seq<Text>|
        #[trigger] inline_order(g, dialect, pick, m, steps) && inline_all(g, dialect, m, steps) == Some(after)
            && nothing_picked(g, pick, after);
    inlining_leaves(g, dialect, pick, m, steps, d);
}

/// The landing pad is a temporary table that copies the View, reads nothing
/// else, and stands where the View stands: under the View's prefix.
pub proof fn a_pad_copies_its_view(g: GraphModel, dialect: Dialect, view: Text, after: GraphModel)
    requires
        temp_made(g, dialect, view, after),
        pad_is_new(g, view),
    ensures
        after[pad_name(view)].query_text == "SELECT * FROM "@ + view,
        after[pad_name(view)].materialize is TempTable,
        forall|d: Text| #[trigger] after[pad_name(view)].depends_on.contains(d) <==> d == view,
        after[pad_name(view)].id == pad_name(view),
        pad_name(view).len() >= prefix_of(view).len(),
        pad_name(view).take(prefix_of(view).len() as int) == prefix_of(view),
{
    make_temp_adds_the_pad(g, dialect, view, after);
    assert(pad_name(view).take(prefix_of(view).len() as int) =~= prefix_of(view));
}

/// A name without quotes gets `lp_` before it, and one in quotes gets it inside
/// them.
pub proof fn a_pad_is_marked(name: Text)
    requires
        quote_free(name),
    ensures
        pad_name(name) == "lp_"@ + name,
        name.len() > 0 && name != seq!['.'] ==> pad_name(seq!['"'] + name + seq!['"']) == "\"lp_"@ + name + "\""@,
{
    the_last_occurrence_is_the_last(name, part_break(), name.len());
    if last_occurrence(name, part_break(), name.len()) is Some {
        let at = last_occurrence(name, part_break(), name.len())->0 as int;
        assert(name.subrange(at, at + 3)[0] == '"');
        assert(name[at] == '"');
    }
    assert(prefix_of(name) == Seq::<char>::empty());
    assert(base_of(name) =~= name);
    assert(pad_name(name) =~= "lp_"@ + name);
    if name.len() > 0 && name != seq!['.'] {
        let id = seq!['"'] + name + seq!['"'];
        the_last_occurrence_is_the_last(id, part_break(), id.len());
        if last_occurrence(id, part_break(), id.len()) is Some {
            let at = last_occurrence(id, part_break(), id.len())->0 as int;
            let here = id.subrange(at, at + 3);
            assert(here[0] == '"' && here[1] == '.' && here[2] == '"');
            assert(id[at] == '"' && id[at + 2] == '"' && id[at + 1] == '.');
            if at > 0 {
                assert(name[at - 1] == id[at]);
            }
            if at + 2 < id.len() - 1 {
                assert(name[at + 1] == id[at + 2]);
            }
            assert(name =~= seq!['.']);
        }
        assert(prefix_of(id) == Seq::<char>::empty());
        assert(base_of(id) =~= id);
        trimmed_quoted(name);
        assert(pad_name(id) =~= "\"lp_"@ + name + "\""@);
    }
}

} // verus!
