//! Planning one query that computes every Table of a graph.
//!
//! The fused query reproduces all that the Tables read as a chain of common
//! table expressions and emits every Table's rows in one `UNION ALL`. Its
//! columns are a `kind` that tells the Tables apart, followed by the columns
//! of all of them; each branch fills the columns that are not its own with
//! NULL. Each Table then becomes a projection out of it.
//!
//! The plan is a function of the graph alone: the same graph always gives the
//! same text.

use vstd::prelude::*;
use vstd::string::*;

use crate::common::{base_of, prefix_begins, prefix_of, schema_prefix};
use crate::dag::{by_id_at, by_id_position, models, union_texts, Dag, Graph, GraphModel, MaterializeMode, NodeModel};
use crate::order::{list_of, listing};
use crate::sql::{
    bare_table_name, dialect_for_db, id_parts, named_dialect, renamings, rewrite_node_refs, rewritten_refs, unicode_lower,
    Dialect, Renaming,
};
use crate::text::{
    chars_of, contains_text, decimal, decimal_injective, decimal_text, decimal_wide, join, joined, text_eq, texts, Text,
};
use crate::topo::{grounded, stable_topo, stable_topo_builds_dependencies_first, stable_topo_is_grounded, stable_topological_order};
use crate::walk::{closed_upstream, reads, upstream, upstream_closed};

verus! {

/// Whether the engine heeds `MATERIALIZED` on a common table expression.
pub open spec fn heeds_hint(dialect: Dialect) -> bool {
    dialect is DuckDB || dialect is PostgreSQL
}

/// Whether the engine heeds `MATERIALIZED` on a common table expression.
pub fn supports_materialized_hint(dialect: Dialect) -> (r: bool)
    ensures
        r == heeds_hint(dialect),
{
    match dialect {
        Dialect::DuckDB => true,
        Dialect::PostgreSQL => true,
        _ => false,
    }
}

/// A node called `base` in the catalog and schema of `sibling`, quoted where
/// that is.
pub open spec fn beside(sibling: Text, base: Text) -> Text {
    if base_of(sibling).len() > 0 && base_of(sibling)[0] == '"' {
        prefix_of(sibling) + "\""@ + base + "\""@
    } else {
        prefix_of(sibling) + base
    }
}

/// The id of a node called `base` in the catalog and schema of `sibling`.
pub fn fused_node_name(sibling: &str, base: &str) -> (r: String)
    ensures
        r@ == beside(sibling@, base@),
{
    proof {
        prefix_begins(sibling@);
    }
    let prefix = schema_prefix(sibling);
    let skip: usize = prefix.as_str().unicode_len();
    let cs = chars_of(sibling);
    let mut out = prefix;
    if cs.len() > skip && cs[skip] == '"' {
        out.append("\"");
        out.append(base);
        out.append("\"");
    } else {
        out.append(base);
    }
    out
}

/// The `k`-th name that is tried for `base`: `base` itself, then with a number.
pub open spec fn numbered(base: Text, k: nat) -> Text {
    if k <= 1 {
        base
    } else {
        base + "_"@ + decimal(k)
    }
}

/// `name` is the first name for `base` that is not taken.
pub open spec fn is_fresh(base: Text, taken: Set<Text>, name: Text) -> bool {
    exists|k: nat|
        k >= 1 && name == #[trigger] numbered(base, k) && !taken.contains(name) && forall|j: nat|
            1 <= j < k ==> taken.contains(#[trigger] numbered(base, j))
}

/// The names that are tried differ.
pub proof fn numbered_injective(base: Text, j: nat, k: nat)
    requires
        numbered(base, j) == numbered(base, k),
        j >= 1,
        k >= 1,
    ensures
        j == k,
{
    reveal_strlit("_");
    if j >= 2 && k >= 2 {
        let n = base.len() as int + 1;
        assert(numbered(base, j).skip(n) =~= decimal(j));
        assert(numbered(base, k).skip(n) =~= decimal(k));
        decimal_injective(j, k);
    } else if j >= 2 || k >= 2 {
        assert(numbered(base, j).len() == numbered(base, k).len());
    }
}

fn number_name(base: &str, k: u128) -> (r: String)
    ensures
        r@ == numbered(base@, k as nat),
{
    let mut out = base.to_owned();
    if k > 1 {
        out.append("_");
        out.append(decimal_wide(k).as_str());
    }
    out
}

/// The first name for `base` that is not in `taken`.
pub fn fresh_name(base: &str, taken: &Vec<String>) -> (r: String)
    ensures
        is_fresh(base@, texts(taken@).to_set(), r@),
{
    let ghost set = texts(taken@).to_set();
    let ghost mut seen: Set<Text> = Set::empty();
    let count = taken.len();
    let mut k: u128 = 1;
    loop
        invariant
            count == taken@.len(),
            1 <= k <= taken@.len() + 1,
            set == texts(taken@).to_set(),
            seen.finite(),
            seen.len() == k - 1,
            seen.subset_of(set),
            forall|t: Text| #[trigger] seen.contains(t) ==> exists|j: nat| 1 <= j < k && t == #[trigger] numbered(base@, j),
            forall|j: nat| 1 <= j < k ==> set.contains(#[trigger] numbered(base@, j)),
        decreases taken@.len() + 1 - k,
    {
        let name = number_name(base, k);
        if !contains_text(taken, name.as_str()) {
            proof {
                assert(name@ == numbered(base@, k as nat));
            }
            return name;
        }
        proof {
            if seen.contains(name@) {
                let j = choose|j: nat| 1 <= j < k && name@ == #[trigger] numbered(base@, j);
                numbered_injective(base@, j, k as nat);
            }
            let next = seen.insert(name@);
            assert forall|t: Text| #[trigger] next.contains(t) implies exists|j: nat|
                1 <= j < k + 1 && t == #[trigger] numbered(base@, j) by {
                if t == name@ {
                    assert(t == numbered(base@, k as nat));
                } else {
                    assert(seen.contains(t));
                    let j = choose|j: nat| 1 <= j < k && t == #[trigger] numbered(base@, j);
                    assert(1 <= j < k + 1 && t == numbered(base@, j));
                }
            }
            assert forall|j: nat| 1 <= j < k + 1 implies set.contains(#[trigger] numbered(base@, j)) by {
                if j == k {
                    assert(set.contains(name@));
                }
            }
            texts(taken@).lemma_cardinality_of_set();
            vstd::set_lib::lemma_len_subset(next, set);
            seen = next;
        }
        k = k + 1;
    }
}

/// What decides whether a common table expression is emitted `AS
/// MATERIALIZED`.
pub enum MaterializeRule<'a> {
    /// By default a Table that feeds another node; everything else too where
    /// `all_views`, and the Views that several Tables read where `naive`.
    /// `over` names the exact set instead, by ids or bare names.
    Configured { all_views: bool, naive: bool, over: Option<&'a Vec<String>> },
    /// Exactly the nodes of a list.
    Exact(&'a Vec<String>),
}

/// The last part of an id, without its quotes.
pub open spec fn bare(id: Text) -> Text {
    id_parts(id).last()
}

/// `list` names the node, by its id or by its bare name.
pub open spec fn named_in(list: Seq<Text>, id: Text) -> bool {
    exists|k: int| 0 <= k < list.len() && (#[trigger] list[k] == id || bare(list[k]) == bare(id))
}

/// The rule wants the node's expression materialized.
pub open spec fn wanted_by(rule: MaterializeRule, id: Text, intermediate_table: bool, shared_view: bool) -> bool {
    match rule {
        MaterializeRule::Exact(set) => texts(set@).contains(id),
        MaterializeRule::Configured { over: Some(list), .. } => named_in(texts(list@), id),
        MaterializeRule::Configured { all_views, naive, .. } => intermediate_table || all_views || (naive && shared_view),
    }
}

impl<'a> MaterializeRule<'a> {
    /// Whether the expression of `node_id` is emitted `AS MATERIALIZED`.
    pub fn wants(&self, node_id: &str, intermediate_table: bool, shared_view: bool) -> (r: bool)
        ensures
            r == wanted_by(*self, node_id@, intermediate_table, shared_view),
    {
        match self {
            MaterializeRule::Exact(set) => contains_text(set, node_id),
            MaterializeRule::Configured { all_views, naive, over } => match over {
                Some(list) => names_node(list, node_id),
                None => intermediate_table || *all_views || (*naive && shared_view),
            },
        }
    }
}

/// Whether `list` names the node, by its id or by its bare name.
fn names_node(list: &Vec<String>, node_id: &str) -> (r: bool)
    ensures
        r == named_in(texts(list@), node_id@),
{
    let ghost names = texts(list@);
    let own = bare_table_name(node_id);
    let mut i: usize = 0;
    while i < list.len()
        invariant
            i <= list@.len(),
            names == texts(list@),
            own@ == bare(node_id@),
            forall|k: int| 0 <= k < i ==> #[trigger] names[k] != node_id@ && bare(names[k]) != bare(node_id@),
        decreases list@.len() - i,
    {
        proof {
            assert(names[i as int] == list@[i as int]@);
        }
        if text_eq(list[i].as_str(), node_id) || text_eq(bare_table_name(list[i].as_str()).as_str(), own.as_str()) {
            return true;
        }
        i = i + 1;
    }
    false
}

/// Without an override, the switch for every View says all that the one for
/// shared Views says.
pub proof fn all_views_subsumes_naive(id: Text, intermediate_table: bool, shared_view: bool)
    ensures
        wanted_by(
            MaterializeRule::Configured { all_views: false, naive: true, over: None },
            id,
            intermediate_table,
            shared_view,
        ) ==> wanted_by(
            MaterializeRule::Configured { all_views: true, naive: false, over: None },
            id,
            intermediate_table,
            shared_view,
        ),
{
}

/// One expression of the fused query's `WITH` chain.
#[derive(Debug)]
pub struct CtePlan {
    pub node_id: String,
    pub cte_name: String,
    pub materialized: bool,
    /// Whether it is a Table's, and so also a branch of the `UNION ALL`.
    pub is_table: bool,
    /// The nodes of the chain that it reads.
    pub reads: Vec<String>,
    /// How many expressions and branches of the `UNION ALL` read it.
    pub readers: usize,
    /// Whether there is anything to decide: an expression that is read once is
    /// computed once, whatever the hint says.
    pub decidable: bool,
}

/// A column of a Table and its name in the fused relation.
#[derive(Debug)]
pub struct ColumnPlan {
    pub original: String,
    pub fused: String,
}

/// One Table's branch of the `UNION ALL`.
#[derive(Debug)]
pub struct TablePlan {
    pub node_id: String,
    pub kind: usize,
    pub cte_name: String,
    /// The columns, in the order of the node's schema.
    pub columns: Vec<ColumnPlan>,
}

/// What to fuse, and how.
#[derive(Debug)]
pub struct FusionPlan {
    pub fused_id: String,
    /// The `WITH` chain, each expression after those it reads.
    pub ctes: Vec<CtePlan>,
    /// The Tables, in the order of their kinds.
    pub tables: Vec<TablePlan>,
    /// Every column of the fused relation after `kind`.
    pub fused_columns: Vec<String>,
}

/// The names of the original columns.
pub open spec fn originals(columns: Seq<ColumnPlan>) -> Seq<Text> {
    columns.map_values(|c: ColumnPlan| c.original@)
}

/// The names of the columns in the fused relation.
pub open spec fn fused_names(columns: Seq<ColumnPlan>) -> Seq<Text> {
    columns.map_values(|c: ColumnPlan| c.fused@)
}

/// The nodes of a `WITH` chain.
pub open spec fn chain_ids(ctes: Seq<CtePlan>) -> Seq<Text> {
    ctes.map_values(|c: CtePlan| c.node_id@)
}

/// The Tables of a graph.
pub open spec fn table_ids(g: GraphModel) -> Set<Text> {
    Set::new(|id: Text| g.contains_key(id) && g[id].materialize == MaterializeMode::Table)
}

/// How many of the first `n` of `tables` read `id`, directly or not, each
/// reading itself.
pub open spec fn table_readers_of(g: GraphModel, tables: Seq<Text>, id: Text, n: nat) -> nat
    decreases n,
{
    if n == 0 {
        0
    } else {
        table_readers_of(g, tables, id, (n - 1) as nat) + if upstream(g, set![tables[n - 1]]).contains(id) {
            1nat
        } else {
            0
        }
    }
}

/// How many of the first `n` nodes of `closure` read `id` themselves.
pub open spec fn direct_readers(g: GraphModel, closure: Seq<Text>, id: Text, n: nat) -> nat
    decreases n,
{
    if n == 0 {
        0
    } else {
        direct_readers(g, closure, id, (n - 1) as nat) + if reads(g, closure[n - 1], id) {
            1nat
        } else {
            0
        }
    }
}

/// How often the fused query reads the expression of `id`: in the expressions
/// of other nodes, and in its own branch where it is a Table's.
pub open spec fn query_readers(g: GraphModel, closure: Seq<Text>, id: Text, is_table: bool) -> nat {
    direct_readers(g, closure, id, closure.len()) + if is_table {
        1nat
    } else {
        0
    }
}

/// Some node of `closure` reads `id`.
pub open spec fn feeds(g: GraphModel, closure: Set<Text>, id: Text) -> bool {
    exists|b: Text| closure.contains(b) && #[trigger] reads(g, b, id)
}

/// `names` are the names of the expressions of `closure`: each the first for
/// its bare name that those before it leave.
pub open spec fn ctes_named(closure: Seq<Text>, names: Seq<Text>) -> bool {
    &&& names.len() == closure.len()
    &&& forall|i: int|
        0 <= i < closure.len() ==> is_fresh("n_"@ + bare(closure[i]), names.take(i).to_set(), #[trigger] names[i])
}

/// The name that `names` gives the node `id` of `closure`.
pub open spec fn is_name_of(closure: Seq<Text>, names: Seq<Text>, id: Text, name: Text) -> bool {
    exists|i: int| 0 <= i < closure.len() && #[trigger] closure[i] == id && names[i] == name
}

/// The columns of a Table of kind `kind` are named in the fused relation after
/// those of the Tables before it.
pub open spec fn columns_named(kind: nat, schema: Seq<Text>, before: Seq<Text>, names: Seq<Text>) -> bool {
    &&& names.len() == schema.len()
    &&& forall|j: int|
        0 <= j < schema.len() ==> is_fresh(
            "k"@ + decimal(kind) + "_"@ + schema[j],
            (before + names.take(j)).to_set(),
            #[trigger] names[j],
        )
}

/// The columns of the first `n` Tables, in the fused relation.
pub open spec fn all_fused(tables: Seq<TablePlan>, n: nat) -> Seq<Text>
    decreases n,
{
    if n == 0 {
        Seq::<Text>::empty()
    } else {
        all_fused(tables, (n - 1) as nat) + fused_names(tables[n - 1].columns@)
    }
}

/// The branch of the Table `ids[k]`.
pub open spec fn table_planned(
    g: GraphModel,
    ids: Seq<Text>,
    closure: Seq<Text>,
    names: Seq<Text>,
    plans: Seq<TablePlan>,
    k: int,
) -> bool {
    let t = plans[k];
    &&& t.node_id@ == ids[k]
    &&& t.kind == k
    &&& is_name_of(closure, names, ids[k], t.cte_name@)
    &&& g[ids[k]].schema == Some(originals(t.columns@))
    &&& t.columns@.len() > 0
    &&& columns_named(k as nat, originals(t.columns@), all_fused(plans, k as nat), fused_names(t.columns@))
}

/// The expression of the node `id`.
pub open spec fn cte_planned(
    g: GraphModel,
    dialect: Dialect,
    rule: MaterializeRule,
    ids: Seq<Text>,
    closure: Seq<Text>,
    names: Seq<Text>,
    c: CtePlan,
) -> bool {
    let id = c.node_id@;
    let hint = heeds_hint(dialect);
    let set = closure.to_set();
    &&& is_name_of(closure, names, id, c.cte_name@)
    &&& c.is_table == ids.contains(id)
    &&& listing(texts(c.reads@), g[id].depends_on.intersect(set))
    &&& c.readers == query_readers(g, closure, id, c.is_table)
    &&& c.materialized == (hint && wanted_by(
        rule,
        id,
        c.is_table && feeds(g, set, id),
        !c.is_table && table_readers_of(g, ids, id, ids.len()) > 1,
    ))
    &&& c.decidable == (hint && c.readers > 1)
}

/// The `n`-th id that is tried for the fused node beside `sibling`.
pub open spec fn fused_attempt(sibling: Text, n: nat) -> Text {
    beside(sibling, numbered("dee_fused"@, n))
}

/// How many ids are tried.
pub open spec fn attempts() -> nat {
    63
}

/// `id` is the first id tried for the fused node that the graph leaves.
pub open spec fn is_fused_id(g: GraphModel, sibling: Text, id: Text) -> bool {
    exists|n: nat|
        1 <= n <= attempts() && id == #[trigger] fused_attempt(sibling, n) && !g.contains_key(id) && forall|m: nat|
            1 <= m < n ==> g.contains_key(#[trigger] fused_attempt(sibling, m))
}

/// Every id that is tried for the fused node is taken.
pub open spec fn no_fused_id(g: GraphModel, sibling: Text) -> bool {
    forall|n: nat| 1 <= n <= attempts() ==> g.contains_key(#[trigger] fused_attempt(sibling, n))
}

/// The plan of the fusion of the Tables `ids`, which read `closure`.
pub open spec fn plans(
    g: GraphModel,
    dialect: Dialect,
    rule: MaterializeRule,
    ids: Seq<Text>,
    closure: Seq<Text>,
    names: Seq<Text>,
    p: FusionPlan,
) -> bool {
    &&& is_fused_id(g, ids[0], p.fused_id@)
    &&& ctes_named(closure, names)
    &&& p.tables@.len() == ids.len()
    &&& forall|k: int| 0 <= k < ids.len() ==> #[trigger] table_planned(g, ids, closure, names, p.tables@, k)
    &&& texts(p.fused_columns@) == all_fused(p.tables@, p.tables@.len())
    &&& stable_topo(g, closure.to_set(), chain_ids(p.ctes@))
    &&& forall|i: int|
        0 <= i < p.ctes@.len() ==> cte_planned(g, dialect, rule, ids, closure, names, #[trigger] p.ctes@[i])
}

/// The graph can be fused, as far as its shape goes: it sorts, it has Tables to
/// share something, and none of them reads a TempTable.
pub open spec fn fusable(g: GraphModel) -> bool {
    &&& sorts(g)
    &&& !temp_table_upstream(g)
    &&& table_ids(g).len() >= 2
}

/// The plan of the fusion of a graph, which can be fused.
pub open spec fn fusion_of(g: GraphModel, dialect: Dialect, rule: MaterializeRule, p: FusionPlan) -> bool {
    &&& fusable(g)
    &&& p.tables@.len() >= 2
    &&& exists|ids: Seq<Text>, closure: Seq<Text>, names: Seq<Text>|
        #[trigger] listing(ids, table_ids(g)) && #[trigger] listing(closure, upstream(g, table_ids(g))) && #[trigger] plans(
            g,
            dialect,
            rule,
            ids,
            closure,
            names,
            p,
        )
}

/// Every node stands on no cycle and behind none.
pub open spec fn sorts(g: GraphModel) -> bool {
    forall|id: Text| #[trigger] g.contains_key(id) ==> grounded(g, id)
}

/// What is said of a graph that does not sort.
pub open spec fn unsorted_text() -> Text {
    "the graph does not topologically sort, so there is no order to emit CTEs in"@
}

/// What is said of a graph with `n` Tables.
pub open spec fn too_few_text(n: nat) -> Text {
    decimal(n) + " Table node(s); fusion needs at least two to share anything"@
}

/// What is said of a TempTable that a Table reads.
pub open spec fn temp_table_text(id: Text) -> Text {
    "'"@ + id
        + "' is a TempTable upstream of a Table. A materialization search put it there on purpose, and folding it into a CTE would undo that decision"@
}

/// What is said where the fused node can have no id.
pub open spec fn no_id_text() -> Text {
    "could not find a free node ID for the fused node"@
}

/// What is said of a Table whose columns are not known.
pub open spec fn no_schema_text(id: Text) -> Text {
    "'"@ + id + "' has no resolved schema; call resolve_schemas before NodeFusion"@
}

/// What is said of a Table without columns.
pub open spec fn no_columns_text(id: Text) -> Text {
    "'"@ + id + "' resolved to a schema with no columns"@
}

/// Some TempTable stands among what the Tables read.
pub open spec fn temp_table_upstream(g: GraphModel) -> bool {
    exists|id: Text| #[trigger] upstream(g, table_ids(g)).contains(id) && g[id].materialize == MaterializeMode::TempTable
}

/// The columns of the node are known, and there are some.
pub open spec fn has_columns(g: GraphModel, id: Text) -> bool {
    g[id].schema matches Some(columns) && columns.len() > 0
}

/// The first of `ids` whose columns are not known, or that has none, and what
/// is said of it.
pub open spec fn lacks_columns(g: GraphModel, ids: Seq<Text>, why: Text) -> bool {
    exists|k: int|
        0 <= k < ids.len() && !has_columns(g, #[trigger] ids[k]) && (forall|j: int|
            0 <= j < k ==> has_columns(g, #[trigger] ids[j])) && why == match g[ids[k]].schema {
            Some(columns) => no_columns_text(ids[k]),
            None => no_schema_text(ids[k]),
        }
}

/// The graph is not fused, and why: for the first of these reasons that holds.
pub open spec fn not_fusable(g: GraphModel, why: Text) -> bool {
    if !sorts(g) {
        why == unsorted_text()
    } else {
        exists|ids: Seq<Text>|
            #[trigger] listing(ids, table_ids(g)) && (if ids.len() < 2 {
                why == too_few_text(ids.len())
            } else if temp_table_upstream(g) {
                exists|id: Text|
                    #[trigger] upstream(g, table_ids(g)).contains(id) && g[id].materialize == MaterializeMode::TempTable
                        && why == temp_table_text(id)
            } else if no_fused_id(g, ids[0]) {
                why == no_id_text()
            } else {
                lacks_columns(g, ids, why)
            })
    }
}

/// The ids of the places that are marked.
spec fn marked_ids(listed: Seq<NodeModel>, marks: Seq<bool>) -> Set<Text> {
    Set::new(|t: Text| exists|i: int| 0 <= i < listed.len() && #[trigger] marks[i] && listed[i].id == t)
}

/// The ids of the nodes that are marked.
fn list_marked(g: &Graph, marks: &Vec<bool>) -> (r: Vec<String>)
    requires
        g.wf(),
        marks@.len() == g.listed().len(),
    ensures
        listing(texts(r@), marked_ids(g.listed(), marks@)),
{
    let nodes = g.nodes();
    let ghost listed = g.listed();
    let mut out: Vec<String> = Vec::new();
    let mut i: usize = 0;
    while i < nodes.len()
        invariant
            i <= nodes@.len(),
            models(nodes@) == listed,
            marks@.len() == nodes@.len(),
            forall|t: Text|
                texts(out@).contains(t) <==> exists|k: int| 0 <= k < i && #[trigger] marks@[k] && listed[k].id == t,
        decreases nodes@.len() - i,
    {
        let ghost had = texts(out@);
        proof {
            assert(models(nodes@)[i as int] == nodes@[i as int]@);
        }
        if marks[i] {
            out.push(nodes[i].id.clone());
            proof {
                assert(texts(out@) =~= had.push(listed[i as int].id));
                crate::dag::pushed_to_set(had, listed[i as int].id);
            }
        }
        proof {
            assert forall|t: Text|
                texts(out@).contains(t) <==> exists|k: int| 0 <= k < i + 1 && #[trigger] marks@[k] && listed[k].id == t by {
                if marks@[i as int] {
                    assert(texts(out@).contains(t) == texts(out@).to_set().contains(t));
                    assert(had.contains(t) == had.to_set().contains(t));
                }
                if had.contains(t) {
                    let k = choose|k: int| 0 <= k < i && #[trigger] marks@[k] && listed[k].id == t;
                    assert(0 <= k < i + 1 && marks@[k]);
                }
            }
        }
        i = i + 1;
    }
    proof {
        assert(texts(out@).to_set() =~= marked_ids(listed, marks@));
    }
    list_of(&out)
}

/// The Tables of a graph.
fn list_tables(g: &Graph) -> (r: Vec<String>)
    requires
        g.wf(),
    ensures
        listing(texts(r@), table_ids(g@)),
{
    proof {
        g.listed_is_view();
    }
    let nodes = g.nodes();
    let ghost listed = g.listed();
    let mut marks: Vec<bool> = Vec::new();
    let mut i: usize = 0;
    while i < nodes.len()
        invariant
            i <= nodes@.len(),
            models(nodes@) == listed,
            marks@.len() == i,
            forall|k: int| 0 <= k < i ==> #[trigger] marks@[k] == (listed[k].materialize == MaterializeMode::Table),
        decreases nodes@.len() - i,
    {
        proof {
            assert(models(nodes@)[i as int] == nodes@[i as int]@);
        }
        marks.push(nodes[i].materialize == MaterializeMode::Table);
        i = i + 1;
    }
    proof {
        assert(marked_ids(listed, marks@) =~= table_ids(g@)) by {
            assert forall|t: Text| marked_ids(listed, marks@).contains(t) == table_ids(g@).contains(t) by {
                if marked_ids(listed, marks@).contains(t) {
                    let k = choose|k: int| 0 <= k < listed.len() && #[trigger] marks@[k] && listed[k].id == t;
                    by_id_at(listed, k);
                }
                if table_ids(g@).contains(t) {
                    let k = by_id_position(listed, t);
                    assert(marks@[k]);
                }
            }
        }
    }
    list_marked(g, &marks)
}

/// What is upstream of nodes of the graph is in the graph.
pub proof fn upstream_in_graph(g: GraphModel, start: Set<Text>)
    requires
        start.subset_of(g.dom()),
    ensures
        upstream(g, start).subset_of(g.dom()),
{
    assert(closed_upstream(g, start, g.dom()));
}

/// `tables` and every node that they read, directly or not.
pub fn upstream_closure(g: &Graph, tables: &Vec<String>) -> (r: Vec<String>)
    requires
        g.wf(),
    ensures
        listing(texts(r@), upstream(g@, texts(tables@).to_set())),
{
    let marks = g.upstream_marks(tables);
    let ghost listed = g.listed();
    let ghost start = texts(tables@).to_set();
    let marked = list_marked(g, &marks);
    let all = union_texts(&marked, tables);
    proof {
        g.listed_is_view();
        upstream_closed(g@, start);
        assert(closed_upstream(g@, start, start.union(g@.dom())));
        assert(texts(all@).to_set() =~= upstream(g@, start)) by {
            assert forall|t: Text| marked_ids(listed, marks@).union(start).contains(t) == upstream(g@, start).contains(t) by {
                if marked_ids(listed, marks@).contains(t) {
                    let k = choose|k: int| 0 <= k < listed.len() && #[trigger] marks@[k] && listed[k].id == t;
                }
                if upstream(g@, start).contains(t) && !start.contains(t) {
                    assert(g@.dom().contains(t));
                    let k = by_id_position(listed, t);
                    assert(marks@[k]);
                }
            }
        }
    }
    list_of(&all)
}

/// For each node of the listing, how many of `tables` read it.
pub fn table_readers(g: &Graph, tables: &Vec<String>) -> (r: Vec<usize>)
    requires
        g.wf(),
    ensures
        r@.len() == g.listed().len(),
        forall|i: int|
            0 <= i < r@.len() ==> #[trigger] r@[i] == table_readers_of(
                g@,
                texts(tables@),
                g.listed()[i].id,
                tables@.len(),
            ),
{
    let ghost ids = texts(tables@);
    let n = g.num_nodes();
    let total = tables.len();
    let mut counts: Vec<usize> = Vec::new();
    let mut i: usize = 0;
    while i < n
        invariant
            i <= n,
            counts@.len() == i,
            forall|k: int| 0 <= k < i ==> #[trigger] counts@[k] == 0,
        decreases n - i,
    {
        counts.push(0);
        i = i + 1;
    }
    let mut j: usize = 0;
    while j < total
        invariant
            j <= total,
            total == tables@.len(),
            g.wf(),
            n == g.listed().len(),
            ids == texts(tables@),
            counts@.len() == n,
            forall|k: int|
                0 <= k < n ==> #[trigger] counts@[k] == table_readers_of(g@, ids, g.listed()[k].id, j as nat)
                    && counts@[k] <= j,
        decreases tables@.len() - j,
    {
        let mut one: Vec<String> = Vec::new();
        one.push(tables[j].clone());
        let marks = g.upstream_marks(&one);
        let ghost before = counts@;
        proof {
            assert(ids[j as int] == tables@[j as int]@);
            assert(texts(one@).to_set() =~= set![ids[j as int]]) by {
                assert(texts(one@)[0] == ids[j as int]);
            }
        }
        let mut k: usize = 0;
        while k < n
            invariant
                k <= n,
                j < total,
                n == g.listed().len(),
                counts@.len() == n,
                marks@.len() == n,
                before.len() == n,
                forall|m: int| 0 <= m < n ==> #[trigger] before[m] <= j,
                forall|m: int|
                    0 <= m < k ==> #[trigger] counts@[m] == before[m] + if marks@[m] {
                        1int
                    } else {
                        0
                    },
                forall|m: int| k <= m < n ==> #[trigger] counts@[m] == before[m],
            decreases n - k,
        {
            proof {
                assert(before[k as int] <= j);
            }
            if marks[k] {
                let c: usize = counts[k];
                counts.set(k, c + 1);
            }
            k = k + 1;
        }
        proof {
            assert forall|m: int| 0 <= m < n implies #[trigger] counts@[m] == table_readers_of(
                g@,
                ids,
                g.listed()[m].id,
                (j + 1) as nat,
            ) && counts@[m] <= j + 1 by {
                assert(before[m] == table_readers_of(g@, ids, g.listed()[m].id, j as nat));
                assert(marks@[m] == upstream(g@, set![ids[j as int]]).contains(g.listed()[m].id));
            }
        }
        j = j + 1;
    }
    counts
}

/// A name for the expression of each node of `closure`.
fn name_ctes(closure: &Vec<String>) -> (r: Vec<String>)
    ensures
        ctes_named(texts(closure@), texts(r@)),
{
    let ghost ids = texts(closure@);
    let mut names: Vec<String> = Vec::new();
    let mut i: usize = 0;
    while i < closure.len()
        invariant
            i <= closure@.len(),
            ids == texts(closure@),
            names@.len() == i,
            forall|k: int|
                0 <= k < i ==> is_fresh("n_"@ + bare(ids[k]), texts(names@).take(k).to_set(), #[trigger] texts(names@)[k]),
        decreases closure@.len() - i,
    {
        let mut base = "n_".to_owned();
        base.append(bare_table_name(closure[i].as_str()).as_str());
        let name = fresh_name(base.as_str(), &names);
        let ghost had = texts(names@);
        names.push(name);
        proof {
            let now = texts(names@);
            assert(now =~= had.push(name@));
            assert(ids[i as int] == closure@[i as int]@);
            assert forall|k: int| 0 <= k < i + 1 implies is_fresh(
                "n_"@ + bare(ids[k]),
                now.take(k).to_set(),
                #[trigger] now[k],
            ) by {
                assert(now.take(k) =~= had.take(k));
                if k < i {
                    assert(now[k] == had[k]);
                } else {
                    assert(had.take(k) =~= had);
                }
            }
        }
        i = i + 1;
    }
    names
}

/// The name that `names` gives the node `id` of `closure`.
fn name_of(closure: &Vec<String>, names: &Vec<String>, id: &str) -> (r: String)
    requires
        names@.len() == closure@.len(),
        texts(closure@).contains(id@),
    ensures
        is_name_of(texts(closure@), texts(names@), id@, r@),
{
    let ghost ids = texts(closure@);
    let mut i: usize = 0;
    while i < closure.len()
        invariant
            i <= closure@.len() == names@.len(),
            ids == texts(closure@),
            forall|k: int| 0 <= k < i ==> #[trigger] ids[k] != id@,
        decreases closure@.len() - i,
    {
        proof {
            assert(ids[i as int] == closure@[i as int]@);
            assert(texts(names@)[i as int] == names@[i as int]@);
        }
        if text_eq(closure[i].as_str(), id) {
            return names[i].clone();
        }
        i = i + 1;
    }
    proof {
        let k = choose|k: int| 0 <= k < ids.len() && ids[k] == id@;
        assert(ids[k] != id@);
    }
    String::new()
}

/// The columns of a Table and their names in the fused relation, after the
/// columns `taken`.
fn name_columns(kind: usize, schema: &Vec<String>, taken: &mut Vec<String>) -> (r: Vec<ColumnPlan>)
    ensures
        originals(r@) == texts(schema@),
        columns_named(kind as nat, texts(schema@), texts(old(taken)@), fused_names(r@)),
        texts(final(taken)@) == texts(old(taken)@) + fused_names(r@),
{
    let ghost before = texts(taken@);
    let ghost fields = texts(schema@);
    let mut out: Vec<ColumnPlan> = Vec::new();
    let mut j: usize = 0;
    proof {
        assert(before =~= before + fused_names(out@));
    }
    while j < schema.len()
        invariant
            j <= schema@.len(),
            fields == texts(schema@),
            out@.len() == j,
            texts(taken@) == before + fused_names(out@),
            forall|k: int| 0 <= k < j ==> (#[trigger] out@[k]).original@ == fields[k],
            forall|k: int|
                0 <= k < j ==> is_fresh(
                    "k"@ + decimal(kind as nat) + "_"@ + fields[k],
                    (before + fused_names(out@).take(k)).to_set(),
                    #[trigger] fused_names(out@)[k],
                ),
        decreases schema@.len() - j,
    {
        let mut base = "k".to_owned();
        base.append(decimal_text(kind as u64).as_str());
        base.append("_");
        base.append(schema[j].as_str());
        let name = fresh_name(base.as_str(), taken);
        let ghost had = fused_names(out@);
        let ghost entry = ColumnPlan { original: schema@[j as int], fused: name };
        taken.push(name.clone());
        out.push(ColumnPlan { original: schema[j].clone(), fused: name });
        proof {
            let now = fused_names(out@);
            assert(fields[j as int] == schema@[j as int]@);
            assert(now =~= had.push(name@));
            assert(texts(taken@) =~= (before + had).push(name@));
            assert(texts(taken@) =~= before + now);
            assert forall|k: int| 0 <= k < j + 1 implies is_fresh(
                "k"@ + decimal(kind as nat) + "_"@ + fields[k],
                (before + now.take(k)).to_set(),
                #[trigger] now[k],
            ) by {
                assert(now.take(k) =~= had.take(k));
                if k < j {
                    assert(now[k] == had[k]);
                } else {
                    assert(had.take(k) =~= had);
                }
            }
        }
        j = j + 1;
    }
    proof {
        assert(originals(out@) =~= fields);
    }
    out
}

proof fn all_fused_same(a: Seq<TablePlan>, b: Seq<TablePlan>, n: nat)
    requires
        n <= a.len(),
        n <= b.len(),
        forall|k: int| 0 <= k < n ==> a[k] == b[k],
    ensures
        all_fused(a, n) == all_fused(b, n),
    decreases n,
{
    if n > 0 {
        all_fused_same(a, b, (n - 1) as nat);
    }
}

/// The branches of the Tables, and the columns of the fused relation.
fn plan_tables(
    g: &Graph,
    tables: &Vec<String>,
    closure: &Vec<String>,
    names: &Vec<String>,
) -> (r: Result<(Vec<TablePlan>, Vec<String>), String>)
    requires
        g.wf(),
        names@.len() == closure@.len(),
        forall|i: int| 0 <= i < tables@.len() ==> g@.contains_key((#[trigger] tables@[i])@),
        forall|i: int| 0 <= i < tables@.len() ==> texts(closure@).contains((#[trigger] tables@[i])@),
    ensures
        match r {
            Ok((plans, fused)) => {
                &&& plans@.len() == tables@.len()
                &&& forall|k: int|
                    0 <= k < tables@.len() ==> #[trigger] table_planned(
                        g@,
                        texts(tables@),
                        texts(closure@),
                        texts(names@),
                        plans@,
                        k,
                    )
                &&& texts(fused@) == all_fused(plans@, plans@.len())
                &&& forall|k: int| 0 <= k < tables@.len() ==> has_columns(g@, #[trigger] texts(tables@)[k])
            },
            Err(why) => lacks_columns(g@, texts(tables@), why@),
        },
{
    let ghost ids = texts(tables@);
    let ghost all = texts(closure@);
    let ghost called = texts(names@);
    let mut plans: Vec<TablePlan> = Vec::new();
    let mut fused: Vec<String> = Vec::new();
    let mut i: usize = 0;
    proof {
        assert(texts(fused@) =~= all_fused(plans@, 0));
    }
    while i < tables.len()
        invariant
            i <= tables@.len(),
            g.wf(),
            ids == texts(tables@),
            all == texts(closure@),
            called == texts(names@),
            names@.len() == closure@.len(),
            forall|k: int| 0 <= k < tables@.len() ==> g@.contains_key((#[trigger] tables@[k])@),
            forall|k: int| 0 <= k < tables@.len() ==> texts(closure@).contains((#[trigger] tables@[k])@),
            plans@.len() == i,
            forall|k: int| 0 <= k < i ==> #[trigger] table_planned(g@, ids, all, called, plans@, k),
            texts(fused@) == all_fused(plans@, i as nat),
            forall|k: int| 0 <= k < i ==> has_columns(g@, #[trigger] ids[k]),
        decreases tables@.len() - i,
    {
        let id = tables[i].as_str();
        proof {
            assert(ids[i as int] == id@);
            assert(g@.contains_key(tables@[i as int]@));
            assert(texts(closure@).contains(tables@[i as int]@));
        }
        if let Some(node) = g.get(id) {
            let schema = match &node.schema {
                Some(s) => s,
                None => {
                    let mut why = "'".to_owned();
                    why.append(id);
                    why.append("' has no resolved schema; call resolve_schemas before NodeFusion");
                    proof {
                        assert(!has_columns(g@, ids[i as int]));
                    }
                    return Err(why);
                },
            };
            if schema.len() == 0 {
                let mut why = "'".to_owned();
                why.append(id);
                why.append("' resolved to a schema with no columns");
                proof {
                    assert(!has_columns(g@, ids[i as int]));
                }
                return Err(why);
            }
            let ghost before = plans@;
            let columns = name_columns(i, schema, &mut fused);
            let cte_name = name_of(closure, names, id);
            let ghost entry = TablePlan { node_id: tables@[i as int], kind: i, cte_name, columns };
            plans.push(TablePlan { node_id: tables[i].clone(), kind: i, cte_name, columns });
            proof {
                all_fused_same(before, plans@, i as nat);
                assert forall|k: int| 0 <= k < i + 1 implies #[trigger] table_planned(g@, ids, all, called, plans@, k) by {
                    all_fused_same(before, plans@, k as nat);
                    if k < i {
                        assert(plans@[k] == before[k]);
                        assert(table_planned(g@, ids, all, called, before, k));
                    } else {
                        assert(originals(plans@[k].columns@).len() == schema@.len());
                    }
                }
                assert(has_columns(g@, ids[i as int]));
            }
        }
        i = i + 1;
    }
    Ok((plans, fused))
}

/// Whether some node of `closure` reads `id`.
fn feeds_another(g: &Graph, closure: &Vec<String>, id: &str) -> (r: bool)
    requires
        g.wf(),
    ensures
        r == feeds(g@, texts(closure@).to_set(), id@),
{
    let ghost all = texts(closure@);
    let mut i: usize = 0;
    while i < closure.len()
        invariant
            i <= closure@.len(),
            g.wf(),
            all == texts(closure@),
            forall|k: int| 0 <= k < i ==> !reads(g@, #[trigger] all[k], id@),
        decreases closure@.len() - i,
    {
        proof {
            assert(all[i as int] == closure@[i as int]@);
        }
        if let Some(node) = g.get(closure[i].as_str()) {
            if contains_text(&node.depends_on, id) {
                proof {
                    assert(all.to_set().contains(all[i as int]));
                    assert(g@[all[i as int]].depends_on.contains(id@));
                    assert(reads(g@, all[i as int], id@));
                }
                return true;
            }
        }
        i = i + 1;
    }
    proof {
        assert forall|b: Text| all.to_set().contains(b) implies !#[trigger] reads(g@, b, id@) by {
            let k = choose|k: int| 0 <= k < all.len() && all[k] == b;
            assert(!reads(g@, all[k], id@));
        }
    }
    false
}

/// What of `deps` is in `closure`, in lexicographic order.
fn reads_within(deps: &Vec<String>, closure: &Vec<String>) -> (r: Vec<String>)
    ensures
        listing(texts(r@), texts(deps@).to_set().intersect(texts(closure@).to_set())),
{
    let ghost all = texts(deps@);
    let ghost set = texts(closure@).to_set();
    let mut out: Vec<String> = Vec::new();
    let mut i: usize = 0;
    proof {
        assert(texts(out@).to_set() =~= all.take(0).to_set().intersect(set));
    }
    while i < deps.len()
        invariant
            i <= deps@.len(),
            all == texts(deps@),
            set == texts(closure@).to_set(),
            texts(out@).to_set() == all.take(i as int).to_set().intersect(set),
        decreases deps@.len() - i,
    {
        let ghost had = texts(out@);
        proof {
            assert(all[i as int] == deps@[i as int]@);
            assert(all.take(i + 1) =~= all.take(i as int).push(all[i as int]));
            crate::dag::pushed_to_set(all.take(i as int), all[i as int]);
            crate::dag::pushed_to_set(had, all[i as int]);
        }
        if contains_text(closure, deps[i].as_str()) {
            out.push(deps[i].clone());
            proof {
                assert(texts(out@) =~= had.push(all[i as int]));
            }
        }
        proof {
            assert(texts(out@).to_set() =~= all.take(i + 1).to_set().intersect(set));
        }
        i = i + 1;
    }
    proof {
        assert(all.take(deps@.len() as int) =~= all);
    }
    list_of(&out)
}

proof fn direct_readers_bounded(g: GraphModel, closure: Seq<Text>, id: Text, k: int, n: nat)
    requires
        0 <= k < closure.len(),
        n <= closure.len(),
        !reads(g, closure[k], id),
    ensures
        direct_readers(g, closure, id, n) <= n,
        k < n ==> direct_readers(g, closure, id, n) < n,
    decreases n,
{
    if n > 0 {
        direct_readers_bounded(g, closure, id, k, (n - 1) as nat);
    }
}

/// How often the fused query reads the expression of `id`.
fn count_readers(g: &Graph, closure: &Vec<String>, id: &str, is_table: bool) -> (r: usize)
    requires
        g.wf(),
        texts(closure@).contains(id@),
        !reads(g@, id@, id@),
    ensures
        r == query_readers(g@, texts(closure@), id@, is_table),
{
    let ghost all = texts(closure@);
    let ghost own = choose|k: int| 0 <= k < all.len() && all[k] == id@;
    let mut n: usize = 0;
    let mut i: usize = 0;
    while i < closure.len()
        invariant
            i <= closure@.len(),
            g.wf(),
            all == texts(closure@),
            0 <= own < all.len(),
            !reads(g@, all[own], id@),
            n == direct_readers(g@, all, id@, i as nat),
            n <= i,
        decreases closure@.len() - i,
    {
        proof {
            assert(all[i as int] == closure@[i as int]@);
        }
        if let Some(node) = g.get(closure[i].as_str()) {
            if contains_text(&node.depends_on, id) {
                n = n + 1;
            }
        }
        i = i + 1;
    }
    proof {
        direct_readers_bounded(g@, all, id@, own, all.len());
    }
    if is_table {
        n + 1
    } else {
        n
    }
}

/// The `WITH` chain over `closure`.
fn plan_ctes(
    g: &Graph,
    dialect: Dialect,
    rule: &MaterializeRule,
    tables: &Vec<String>,
    closure: &Vec<String>,
    names: &Vec<String>,
) -> (r: Vec<CtePlan>)
    requires
        g.wf(),
        names@.len() == closure@.len(),
    ensures
        stable_topo(g@, texts(closure@).to_set(), chain_ids(r@)),
        forall|i: int|
            0 <= i < r@.len() ==> cte_planned(
                g@,
                dialect,
                *rule,
                texts(tables@),
                texts(closure@),
                texts(names@),
                #[trigger] r@[i],
            ),
{
    let ghost ids = texts(tables@);
    let ghost all = texts(closure@);
    let ghost called = texts(names@);
    let hint = supports_materialized_hint(dialect);
    let counts = table_readers(g, tables);
    let order = stable_topological_order(g, closure);
    let ghost topo = texts(order@);
    proof {
        stable_topo_builds_dependencies_first(g@, all.to_set(), topo);
    }
    let mut ctes: Vec<CtePlan> = Vec::new();
    let mut i: usize = 0;
    while i < order.len()
        invariant
            i <= order@.len(),
            g.wf(),
            ids == texts(tables@),
            all == texts(closure@),
            called == texts(names@),
            topo == texts(order@),
            names@.len() == closure@.len(),
            hint == heeds_hint(dialect),
            counts@.len() == g.listed().len(),
            forall|k: int|
                0 <= k < counts@.len() ==> #[trigger] counts@[k] == table_readers_of(
                    g@,
                    ids,
                    g.listed()[k].id,
                    ids.len(),
                ),
            forall|k: int|
                0 <= k < topo.len() ==> all.to_set().contains(#[trigger] topo[k]) && g@.contains_key(topo[k]),
            topo.no_duplicates(),
            forall|k: int, a: Text|
                0 <= k < topo.len() && #[trigger] reads(g@, topo[k], a) && all.to_set().contains(a) ==> topo.take(k).contains(
                    a,
                ),
            ctes@.len() == i,
            forall|k: int| 0 <= k < i ==> (#[trigger] ctes@[k]).node_id@ == topo[k],
            forall|k: int|
                0 <= k < i ==> cte_planned(g@, dialect, *rule, ids, all, called, #[trigger] ctes@[k]),
        decreases order@.len() - i,
    {
        let id = order[i].as_str();
        proof {
            assert(topo[i as int] == id@);
            assert(all.to_set().contains(topo[i as int]));
        }
        let at = g.position(id);
        let found = g.get(id);
        if let Some(at) = at {
            if let Some(node) = found {
                let is_table = contains_text(tables, id);
                let reached = counts[at];
                proof {
                    if reads(g@, id@, id@) {
                        let before = topo.take(i as int);
                        assert(before.contains(id@));
                        let k = choose|k: int| 0 <= k < before.len() && before[k] == id@;
                        assert(topo[k] == topo[i as int]);
                    }
                }
                let readers = count_readers(g, closure, id, is_table);
                let intermediate = is_table && feeds_another(g, closure, id);
                let reads = reads_within(&node.depends_on, closure);
                let cte_name = name_of(closure, names, id);
                let materialized = hint && rule.wants(id, intermediate, !is_table && reached > 1);
                let entry = CtePlan {
                    node_id: order[i].clone(),
                    cte_name,
                    materialized,
                    is_table,
                    reads,
                    readers,
                    decidable: hint && readers > 1,
                };
                proof {
                    assert(reached == table_readers_of(g@, ids, id@, ids.len()));
                    assert(cte_planned(g@, dialect, *rule, ids, all, called, entry));
                }
                ctes.push(entry);
            }
        }
        i = i + 1;
    }
    proof {
        assert(chain_ids(ctes@) =~= topo);
    }
    ctes
}

/// The first id for the fused node beside `sibling` that the graph leaves.
fn choose_fused_id(g: &Graph, sibling: &str) -> (r: Option<String>)
    requires
        g.wf(),
    ensures
        match r {
            Some(id) => is_fused_id(g@, sibling@, id@),
            None => no_fused_id(g@, sibling@),
        },
{
    let mut n: u128 = 1;
    while n <= 63
        invariant
            1 <= n <= 64,
            g.wf(),
            forall|m: nat| 1 <= m < n ==> g@.contains_key(#[trigger] fused_attempt(sibling@, m)),
        decreases 64 - n,
    {
        let name = fused_node_name(sibling, number_name("dee_fused", n).as_str());
        proof {
            assert(name@ == fused_attempt(sibling@, n as nat));
        }
        if g.position(name.as_str()).is_none() {
            return Some(name);
        }
        n = n + 1;
    }
    None
}

/// Whether every node of the graph stands on no cycle and behind none.
fn graph_sorts(g: &Graph) -> (r: bool)
    requires
        g.wf(),
    ensures
        r == sorts(g@),
{
    let order = g.topological_sort();
    let ghost topo = texts(order@);
    let nodes = g.nodes();
    let ghost listed = g.listed();
    proof {
        g.listed_is_view();
    }
    let mut i: usize = 0;
    while i < nodes.len()
        invariant
            i <= nodes@.len(),
            models(nodes@) == listed,
            listed == g.listed(),
            g.wf(),
            topo == texts(order@),
            stable_topo(g@, g@.dom(), topo),
            forall|k: int| 0 <= k < i ==> topo.contains((#[trigger] listed[k]).id),
        decreases nodes@.len() - i,
    {
        proof {
            assert(models(nodes@)[i as int] == nodes@[i as int]@);
        }
        if !contains_text(&order, nodes[i].id.as_str()) {
            proof {
                g.listed_is_view();
                by_id_at(listed, i as int);
                stable_topo_is_grounded(g@, topo, listed[i as int].id);
                assert(g@.contains_key(listed[i as int].id));
            }
            return false;
        }
        i = i + 1;
    }
    proof {
        assert forall|id: Text| #[trigger] g@.contains_key(id) implies grounded(g@, id) by {
            let k = by_id_position(listed, id);
            assert(topo.contains(listed[k].id));
            stable_topo_is_grounded(g@, topo, id);
        }
    }
    true
}

/// What to fuse, or why the graph is not fused.
pub fn plan_fusion(dag: &Dag, rule: &MaterializeRule) -> (r: Result<FusionPlan, String>)
    requires
        dag.wf(),
    ensures
        match r {
            Ok(p) => fusion_of(dag.nodes@, named_dialect(unicode_lower(dag.db@)), *rule, p),
            Err(why) => not_fusable(dag.nodes@, why@),
        },
{
    let g = &dag.nodes;
    let dialect = dialect_for_db(dag.db.as_str());
    if !graph_sorts(g) {
        return Err("the graph does not topologically sort, so there is no order to emit CTEs in".to_owned());
    }
    let tables = list_tables(g);
    let ghost ids = texts(tables@);
    proof {
        ids.unique_seq_to_set();
    }
    if tables.len() < 2 {
        let mut why = decimal_text(tables.len() as u64);
        why.append(" Table node(s); fusion needs at least two to share anything");
        proof {
            assert(listing(ids, table_ids(g@)));
        }
        return Err(why);
    }
    let closure = upstream_closure(g, &tables);
    let ghost all = texts(closure@);
    proof {
        upstream_in_graph(g@, table_ids(g@));
        upstream_closed(g@, table_ids(g@));
    }
    let mut i: usize = 0;
    while i < closure.len()
        invariant
            i <= closure@.len(),
            g.wf(),
            g@ == dag.nodes@,
            ids.len() >= 2,
            sorts(g@),
            listing(ids, table_ids(g@)),
            all == texts(closure@),
            listing(all, upstream(g@, table_ids(g@))),
            upstream(g@, table_ids(g@)).subset_of(g@.dom()),
            forall|k: int| 0 <= k < i ==> g@[#[trigger] all[k]].materialize != MaterializeMode::TempTable,
        decreases closure@.len() - i,
    {
        proof {
            assert(all[i as int] == closure@[i as int]@);
            assert(all.to_set().contains(all[i as int]));
        }
        if let Some(node) = g.get(closure[i].as_str()) {
            if node.materialize == MaterializeMode::TempTable {
                let mut why = "'".to_owned();
                why.append(closure[i].as_str());
                why.append(
                    "' is a TempTable upstream of a Table. A materialization search put it there on purpose, and folding it into a CTE would undo that decision",
                );
                proof {
                    assert(upstream(g@, table_ids(g@)).contains(all[i as int]));
                    assert(listing(ids, table_ids(g@)));
                }
                return Err(why);
            }
        }
        i = i + 1;
    }
    proof {
        assert forall|id: Text| #[trigger] upstream(g@, table_ids(g@)).contains(id) implies g@[id].materialize
            != MaterializeMode::TempTable by {
            assert(all.to_set().contains(id));
            let k = choose|k: int| 0 <= k < all.len() && all[k] == id;
            assert(g@[all[k]].materialize != MaterializeMode::TempTable);
        }
        assert(ids[0] == tables@[0]@);
    }
    let fused_id = match choose_fused_id(g, tables[0].as_str()) {
        Some(id) => id,
        None => {
            proof {
                assert(listing(ids, table_ids(g@)));
            }
            return Err("could not find a free node ID for the fused node".to_owned());
        },
    };
    let names = name_ctes(&closure);
    let ghost called = texts(names@);
    proof {
        assert forall|k: int| 0 <= k < tables@.len() implies g@.contains_key((#[trigger] tables@[k])@) && texts(
            closure@,
        ).contains(tables@[k]@) by {
            assert(ids[k] == tables@[k]@);
            assert(ids.to_set().contains(ids[k]));
            assert(upstream(g@, table_ids(g@)).contains(ids[k]));
            assert(all.to_set().contains(ids[k]));
        }
    }
    let (plans_of, fused_columns) = match plan_tables(g, &tables, &closure, &names) {
        Ok(x) => x,
        Err(why) => {
            proof {
                assert(listing(ids, table_ids(g@)));
                assert(!no_fused_id(g@, ids[0])) by {
                    let n = choose|n: nat|
                        1 <= n <= attempts() && fused_id@ == #[trigger] fused_attempt(ids[0], n) && !g@.contains_key(fused_id@);
                }
            }
            return Err(why);
        },
    };
    let ctes = plan_ctes(g, dialect, rule, &tables, &closure, &names);
    let p = FusionPlan { fused_id, ctes, tables: plans_of, fused_columns };
    proof {
        assert(plans(g@, dialect, *rule, ids, all, called, p));
        assert(fusion_of(g@, dialect, *rule, p));
    }
    Ok(p)
}

impl FusionPlan {
    /// The nodes whose expressions a search may decide about, in the order of
    /// the chain.
    pub fn decidable(&self) -> (r: Vec<String>)
        ensures
            texts(r@) == decidable_of(self.ctes@, self.ctes@.len()),
    {
        let mut out: Vec<String> = Vec::new();
        let mut i: usize = 0;
        proof {
            assert(texts(out@) =~= decidable_of(self.ctes@, 0));
        }
        while i < self.ctes.len()
            invariant
                i <= self.ctes@.len(),
                texts(out@) == decidable_of(self.ctes@, i as nat),
            decreases self.ctes@.len() - i,
        {
            let ghost had = texts(out@);
            if self.ctes[i].decidable {
                out.push(self.ctes[i].node_id.clone());
                proof {
                    assert(texts(out@) =~= had.push(self.ctes@[i as int].node_id@));
                }
            }
            i = i + 1;
        }
        out
    }

    /// The nodes whose expressions are marked `AS MATERIALIZED`, in the order
    /// of the chain.
    pub fn materialized_set(&self) -> (r: Vec<String>)
        ensures
            texts(r@) == materialized_of(self.ctes@, self.ctes@.len()),
    {
        let mut out: Vec<String> = Vec::new();
        let mut i: usize = 0;
        proof {
            assert(texts(out@) =~= materialized_of(self.ctes@, 0));
        }
        while i < self.ctes.len()
            invariant
                i <= self.ctes@.len(),
                texts(out@) == materialized_of(self.ctes@, i as nat),
            decreases self.ctes@.len() - i,
        {
            let ghost had = texts(out@);
            if self.ctes[i].materialized {
                out.push(self.ctes[i].node_id.clone());
                proof {
                    assert(texts(out@) =~= had.push(self.ctes@[i as int].node_id@));
                }
            }
            i = i + 1;
        }
        out
    }
}

/// Those of the first `n` nodes of the chain that can be decided about.
pub open spec fn decidable_of(ctes: Seq<CtePlan>, n: nat) -> Seq<Text>
    decreases n,
{
    if n == 0 {
        Seq::<Text>::empty()
    } else if ctes[n - 1].decidable {
        decidable_of(ctes, (n - 1) as nat).push(ctes[n - 1].node_id@)
    } else {
        decidable_of(ctes, (n - 1) as nat)
    }
}

/// Those of the first `n` nodes of the chain that are materialized.
pub open spec fn materialized_of(ctes: Seq<CtePlan>, n: nat) -> Seq<Text>
    decreases n,
{
    if n == 0 {
        Seq::<Text>::empty()
    } else if ctes[n - 1].materialized {
        materialized_of(ctes, (n - 1) as nat).push(ctes[n - 1].node_id@)
    } else {
        materialized_of(ctes, (n - 1) as nat)
    }
}

/// The new names of the chain's nodes inside the fused query.
pub open spec fn chain_names(ctes: Seq<CtePlan>) -> Seq<(Text, Text)> {
    ctes.map_values(|c: CtePlan| (c.node_id@, c.cte_name@))
}

/// The node reads a node of the chain.
pub open spec fn names_fused(node: NodeModel, ctes: Seq<CtePlan>) -> bool {
    exists|k: int| 0 <= k < ctes.len() && node.depends_on.contains((#[trigger] ctes[k]).node_id@)
}

/// The body of a node's expression: its query, with what it reads of the chain
/// renamed. A query that reads nothing of it stays as it is.
pub open spec fn cte_body(g: GraphModel, dialect: Dialect, ctes: Seq<CtePlan>, id: Text) -> Option<Text> {
    if !g.contains_key(id) {
        None
    } else if names_fused(g[id], ctes) {
        rewritten_refs(g[id].query_text, chain_names(ctes), dialect)
    } else {
        Some(g[id].query_text)
    }
}

/// The text of an expression with this body.
pub open spec fn cte_sql(c: CtePlan, body: Text) -> Text {
    c.cte_name@ + (if c.materialized {
        " AS MATERIALIZED ("@
    } else {
        " AS ("@
    }) + body + ")"@
}

/// The texts of the first `n` expressions of the chain.
pub open spec fn chain_sql(g: GraphModel, dialect: Dialect, ctes: Seq<CtePlan>, n: nat) -> Seq<Text>
    decreases n,
{
    if n == 0 {
        Seq::<Text>::empty()
    } else {
        chain_sql(g, dialect, ctes, (n - 1) as nat).push(
            cte_sql(ctes[n - 1], cte_body(g, dialect, ctes, ctes[n - 1].node_id@)->0),
        )
    }
}

/// How many of the first `n` bodies stay as they are.
pub open spec fn verbatim_count(g: GraphModel, ctes: Seq<CtePlan>, n: nat) -> nat
    decreases n,
{
    if n == 0 {
        0
    } else {
        verbatim_count(g, ctes, (n - 1) as nat) + if names_fused(g[ctes[n - 1].node_id@], ctes) {
            0nat
        } else {
            1
        }
    }
}

/// The column that the fused column `f` stands for, by the last of `columns`
/// from `from` on that does.
pub open spec fn original_of(columns: Seq<ColumnPlan>, f: Text, from: nat) -> Option<Text>
    decreases columns.len() - from,
{
    if from >= columns.len() {
        None
    } else {
        match original_of(columns, f, from + 1) {
            Some(o) => Some(o),
            None => if columns[from as int].fused@ == f {
                Some(columns[from as int].original@)
            } else {
                None
            },
        }
    }
}

/// What a Table's branch selects for the fused column `f`.
pub open spec fn branch_column(t: TablePlan, f: Text) -> Text {
    match original_of(t.columns@, f, 0) {
        Some(o) => "\""@ + o + "\" AS \""@ + f + "\""@,
        None => "NULL AS \""@ + f + "\""@,
    }
}

/// What a Table's branch selects.
pub open spec fn branch_columns(t: TablePlan, fused: Seq<Text>) -> Seq<Text> {
    seq![decimal(t.kind as nat) + " AS kind"@] + fused.map_values(|f: Text| branch_column(t, f))
}

/// A Table's branch.
pub open spec fn branch_sql(t: TablePlan, fused: Seq<Text>) -> Text {
    "SELECT "@ + joined(branch_columns(t, fused), ", "@) + " FROM "@ + t.cte_name@
}

/// The branches of the Tables.
pub open spec fn branches_sql(tables: Seq<TablePlan>, fused: Seq<Text>) -> Seq<Text> {
    tables.map_values(|t: TablePlan| branch_sql(t, fused))
}

/// The fused query.
pub open spec fn fused_text(g: GraphModel, dialect: Dialect, p: FusionPlan) -> Text {
    "WITH "@ + joined(chain_sql(g, dialect, p.ctes@, p.ctes@.len()), ",\n     "@) + "\n"@ + joined(
        branches_sql(p.tables@, texts(p.fused_columns@)),
        "\nUNION ALL\n"@,
    )
}

/// What is said of a node that the graph does not hold.
pub open spec fn vanished_text(id: Text) -> Text {
    "'"@ + id + "' vanished from the graph"@
}

/// What is said of a query that cannot be rewritten.
pub open spec fn unreadable_text(id: Text) -> Text {
    "'"@ + id
        + "' reads a node that would become a CTE, but its query cannot be rewritten at the AST level -- the parser does not cover it, and substituting the reference textually could change what the query means"@
}

/// Every body can be written.
pub open spec fn can_build(g: GraphModel, dialect: Dialect, p: FusionPlan) -> bool {
    forall|i: int| 0 <= i < p.ctes@.len() ==> cte_body(g, dialect, p.ctes@, (#[trigger] p.ctes@[i]).node_id@) is Some
}

/// The first body that cannot be written, and what is said of it.
pub open spec fn cannot_build_because(g: GraphModel, dialect: Dialect, p: FusionPlan, why: Text) -> bool {
    exists|i: int| {
        &&& 0 <= i < p.ctes@.len()
        &&& cte_body(g, dialect, p.ctes@, (#[trigger] p.ctes@[i]).node_id@) is None
        &&& forall|j: int|
            0 <= j < i ==> cte_body(g, dialect, p.ctes@, (#[trigger] p.ctes@[j]).node_id@) is Some
        &&& why == if g.contains_key(p.ctes@[i].node_id@) {
            unreadable_text(p.ctes@[i].node_id@)
        } else {
            vanished_text(p.ctes@[i].node_id@)
        }
    }
}

/// The fused query, and how many of its bodies were used as they are.
#[derive(Debug)]
pub struct FusedSql {
    pub sql: String,
    pub verbatim_bodies: usize,
}

/// Whether the node reads a node of the chain.
fn reads_chain(deps: &Vec<String>, ctes: &Vec<CtePlan>) -> (r: bool)
    ensures
        r == exists|k: int| 0 <= k < ctes@.len() && texts(deps@).contains((#[trigger] ctes@[k]).node_id@),
{
    let mut i: usize = 0;
    while i < ctes.len()
        invariant
            i <= ctes@.len(),
            forall|k: int| 0 <= k < i ==> !texts(deps@).contains((#[trigger] ctes@[k]).node_id@),
        decreases ctes@.len() - i,
    {
        if contains_text(deps, ctes[i].node_id.as_str()) {
            return true;
        }
        i = i + 1;
    }
    false
}

/// The new names of the chain's nodes inside the fused query.
fn chain_mapping(ctes: &Vec<CtePlan>) -> (r: Vec<Renaming>)
    ensures
        renamings(r@) == chain_names(ctes@),
{
    let mut out: Vec<Renaming> = Vec::new();
    let mut i: usize = 0;
    while i < ctes.len()
        invariant
            i <= ctes@.len(),
            out@.len() == i,
            forall|k: int|
                0 <= k < i ==> (#[trigger] out@[k]).node_id@ == ctes@[k].node_id@ && out@[k].new_name@ == ctes@[k].cte_name@,
        decreases ctes@.len() - i,
    {
        out.push(Renaming { node_id: ctes[i].node_id.clone(), new_name: ctes[i].cte_name.clone() });
        i = i + 1;
    }
    proof {
        assert(renamings(out@) =~= chain_names(ctes@));
    }
    out
}

/// The column that the fused column `f` stands for.
fn lookup_original<'a>(columns: &'a Vec<ColumnPlan>, f: &str) -> (r: Option<&'a str>)
    ensures
        match r {
            Some(o) => original_of(columns@, f@, 0) == Some(o@),
            None => original_of(columns@, f@, 0) is None,
        },
{
    let mut i: usize = columns.len();
    while i > 0
        invariant
            i <= columns@.len(),
            original_of(columns@, f@, i as nat) is None,
        decreases i,
    {
        i = i - 1;
        if text_eq(columns[i].fused.as_str(), f) {
            proof {
                original_stands(columns@, f@, i as nat);
            }
            return Some(columns[i].original.as_str());
        }
    }
    None
}

proof fn original_stands(columns: Seq<ColumnPlan>, f: Text, from: nat)
    requires
        original_of(columns, f, from) is Some,
    ensures
        original_of(columns, f, 0) == original_of(columns, f, from),
    decreases from,
{
    if from > 0 {
        assert(original_of(columns, f, (from - 1) as nat) == original_of(columns, f, from));
        original_stands(columns, f, (from - 1) as nat);
    }
}

/// A Table's branch.
fn write_branch(t: &TablePlan, fused: &Vec<String>) -> (r: String)
    ensures
        r@ == branch_sql(*t, texts(fused@)),
{
    let ghost all = texts(fused@);
    let ghost want = branch_columns(*t, all);
    let mut projection: Vec<String> = Vec::new();
    let mut kind = decimal_text(t.kind as u64);
    kind.append(" AS kind");
    projection.push(kind);
    let mut i: usize = 0;
    proof {
        assert(texts(projection@) =~= want.take(1));
    }
    while i < fused.len()
        invariant
            i <= fused@.len(),
            all == texts(fused@),
            want == branch_columns(*t, all),
            want.len() == 1 + all.len(),
            texts(projection@) == want.take(i + 1),
        decreases fused@.len() - i,
    {
        let f = fused[i].as_str();
        let ghost had = texts(projection@);
        proof {
            assert(all[i as int] == f@);
            assert(want[i + 1] == branch_column(*t, all[i as int]));
        }
        let mut column = match lookup_original(&t.columns, f) {
            Some(original) => {
                let mut c = "\"".to_owned();
                c.append(original);
                c.append("\" AS \"");
                c
            },
            None => "NULL AS \"".to_owned(),
        };
        column.append(f);
        column.append("\"");
        proof {
            assert(column@ == branch_column(*t, f@));
        }
        projection.push(column);
        proof {
            assert(texts(projection@) =~= had.push(column@));
            assert(want.take(i + 2) =~= want.take(i + 1).push(want[i + 1]));
        }
        i = i + 1;
    }
    proof {
        assert(want.take(want.len() as int) =~= want);
    }
    let mut out = "SELECT ".to_owned();
    out.append(join(&projection, ", ").as_str());
    out.append(" FROM ");
    out.append(t.cte_name.as_str());
    out
}

/// The fused query of a plan, or which node stands in the way and why.
pub fn build_fused_sql(dag: &Dag, plan: &FusionPlan, dialect: Dialect) -> (r: Result<FusedSql, String>)
    requires
        dag.wf(),
    ensures
        match r {
            Ok(f) => {
                &&& can_build(dag.nodes@, dialect, *plan)
                &&& f.sql@ == fused_text(dag.nodes@, dialect, *plan)
                &&& f.verbatim_bodies == verbatim_count(dag.nodes@, plan.ctes@, plan.ctes@.len())
            },
            Err(why) => cannot_build_because(dag.nodes@, dialect, *plan, why@),
        },
{
    let g = &dag.nodes;
    let ctes = &plan.ctes;
    let mapping = chain_mapping(ctes);
    let mut verbatim: usize = 0;
    let mut written: Vec<String> = Vec::new();
    let mut i: usize = 0;
    proof {
        assert(texts(written@) =~= chain_sql(g@, dialect, ctes@, 0));
    }
    while i < ctes.len()
        invariant
            i <= ctes@.len(),
            g.wf(),
            g@ == dag.nodes@,
            ctes@ == plan.ctes@,
            renamings(mapping@) == chain_names(ctes@),
            texts(written@) == chain_sql(g@, dialect, ctes@, i as nat),
            verbatim == verbatim_count(g@, ctes@, i as nat),
            verbatim <= i,
            forall|k: int| 0 <= k < i ==> cte_body(g@, dialect, ctes@, (#[trigger] ctes@[k]).node_id@) is Some,
        decreases ctes@.len() - i,
    {
        let id = ctes[i].node_id.as_str();
        let node = match g.get(id) {
            Some(n) => n,
            None => {
                let mut why = "'".to_owned();
                why.append(id);
                why.append("' vanished from the graph");
                proof {
                    assert(cte_body(g@, dialect, ctes@, ctes@[i as int].node_id@) is None);
                }
                return Err(why);
            },
        };
        let named = reads_chain(&node.depends_on, ctes);
        proof {
            assert(g@[id@].depends_on == texts(node.depends_on@).to_set());
            assert(named == names_fused(g@[id@], ctes@)) by {
                if named {
                    let k = choose|k: int|
                        0 <= k < ctes@.len() && texts(node.depends_on@).contains((#[trigger] ctes@[k]).node_id@);
                    assert(g@[id@].depends_on.contains(ctes@[k].node_id@));
                }
                if names_fused(g@[id@], ctes@) {
                    let k = choose|k: int|
                        0 <= k < ctes@.len() && g@[id@].depends_on.contains((#[trigger] ctes@[k]).node_id@);
                    assert(texts(node.depends_on@).contains(ctes@[k].node_id@));
                }
            }
        }
        let body = if named {
            match rewrite_node_refs(node.query_text.as_str(), &mapping, dialect) {
                Some(b) => b,
                None => {
                    let mut why = "'".to_owned();
                    why.append(id);
                    why.append(
                        "' reads a node that would become a CTE, but its query cannot be rewritten at the AST level -- the parser does not cover it, and substituting the reference textually could change what the query means",
                    );
                    proof {
                        assert(cte_body(g@, dialect, ctes@, ctes@[i as int].node_id@) is None);
                    }
                    return Err(why);
                },
            }
        } else {
            verbatim = verbatim + 1;
            node.query_text.clone()
        };
        let mut text = ctes[i].cte_name.clone();
        if ctes[i].materialized {
            text.append(" AS MATERIALIZED (");
        } else {
            text.append(" AS (");
        }
        text.append(body.as_str());
        text.append(")");
        let ghost had = texts(written@);
        proof {
            assert(cte_body(g@, dialect, ctes@, id@) == Some(body@));
            assert(text@ == cte_sql(ctes@[i as int], body@));
        }
        written.push(text);
        proof {
            assert(texts(written@) =~= had.push(text@));
        }
        i = i + 1;
    }
    let mut branches: Vec<String> = Vec::new();
    let ghost fused = texts(plan.fused_columns@);
    let mut j: usize = 0;
    while j < plan.tables.len()
        invariant
            j <= plan.tables@.len(),
            fused == texts(plan.fused_columns@),
            branches@.len() == j,
            forall|k: int| 0 <= k < j ==> (#[trigger] branches@[k])@ == branch_sql(plan.tables@[k], fused),
        decreases plan.tables@.len() - j,
    {
        branches.push(write_branch(&plan.tables[j], &plan.fused_columns));
        j = j + 1;
    }
    proof {
        assert(texts(branches@) =~= branches_sql(plan.tables@, fused));
    }
    let mut sql = "WITH ".to_owned();
    sql.append(join(&written, ",\n     ").as_str());
    sql.append("\n");
    sql.append(join(&branches, "\nUNION ALL\n").as_str());
    Ok(FusedSql { sql, verbatim_bodies: verbatim })
}

/// What a Table's query becomes: its columns out of the fused node, under
/// their own names.
pub open spec fn projection_text(t: TablePlan, fused_id: Text) -> Text {
    "SELECT "@ + joined(
        t.columns@.map_values(|c: ColumnPlan| "\""@ + c.fused@ + "\" AS \""@ + c.original@ + "\""@),
        ", "@,
    ) + " FROM "@ + fused_id + " WHERE kind = "@ + decimal(t.kind as nat)
}

/// What a Table's query becomes.
pub fn table_projection(t: &TablePlan, fused_id: &str) -> (r: String)
    ensures
        r@ == projection_text(*t, fused_id@),
{
    let mut parts: Vec<String> = Vec::new();
    let ghost want = t.columns@.map_values(|c: ColumnPlan| "\""@ + c.fused@ + "\" AS \""@ + c.original@ + "\""@);
    let mut i: usize = 0;
    while i < t.columns.len()
        invariant
            i <= t.columns@.len(),
            parts@.len() == i,
            want == t.columns@.map_values(|c: ColumnPlan| "\""@ + c.fused@ + "\" AS \""@ + c.original@ + "\""@),
            forall|k: int| 0 <= k < i ==> (#[trigger] parts@[k])@ == want[k],
        decreases t.columns@.len() - i,
    {
        let mut c = "\"".to_owned();
        c.append(t.columns[i].fused.as_str());
        c.append("\" AS \"");
        c.append(t.columns[i].original.as_str());
        c.append("\"");
        proof {
            assert(c@ == want[i as int]);
        }
        parts.push(c);
        i = i + 1;
    }
    proof {
        assert(texts(parts@) =~= want);
    }
    let mut out = "SELECT ".to_owned();
    out.append(join(&parts, ", ").as_str());
    out.append(" FROM ");
    out.append(fused_id);
    out.append(" WHERE kind = ");
    out.append(decimal_text(t.kind as u64).as_str());
    out
}

/// The fused node.
pub open spec fn fused_node(g: GraphModel, dialect: Dialect, p: FusionPlan) -> NodeModel {
    NodeModel {
        id: p.fused_id@,
        query_text: fused_text(g, dialect, p),
        materialize: MaterializeMode::TempTable,
        depends_on: Set::<Text>::empty(),
        schema: None,
    }
}

/// `g` with the queries of the first `n` Tables replaced by projections out of
/// the fused node.
pub open spec fn projected(g: GraphModel, p: FusionPlan, n: nat) -> GraphModel
    decreases n,
{
    if n == 0 {
        g
    } else {
        let before = projected(g, p, (n - 1) as nat);
        let t = p.tables@[n - 1];
        before.insert(
            t.node_id@,
            (NodeModel {
                query_text: projection_text(t, p.fused_id@),
                depends_on: set![p.fused_id@],
                ..before[t.node_id@]
            }),
        )
    }
}

/// The graph after the fusion.
pub open spec fn fused_graph(g: GraphModel, dialect: Dialect, p: FusionPlan) -> GraphModel {
    projected(g.insert(p.fused_id@, fused_node(g, dialect, p)), p, p.tables@.len())
}

pub proof fn projected_keeps(g: GraphModel, p: FusionPlan, n: nat)
    requires
        n <= p.tables@.len(),
        forall|k: int| 0 <= k < p.tables@.len() ==> g.contains_key((#[trigger] p.tables@[k]).node_id@),
    ensures
        projected(g, p, n).dom() == g.dom(),
        forall|id: Text| #[trigger]
            g.contains_key(id) ==> projected(g, p, n)[id].id == g[id].id && projected(g, p, n)[id].materialize
                == g[id].materialize && projected(g, p, n)[id].schema == g[id].schema,
        forall|id: Text|
            #![trigger projected(g, p, n)[id]]
            g.contains_key(id) && (forall|k: int| 0 <= k < n ==> (#[trigger] p.tables@[k]).node_id@ != id) ==> projected(
                g,
                p,
                n,
            )[id] == g[id],
        forall|k: int|
            0 <= k < n ==> projected(g, p, n)[(#[trigger] p.tables@[k]).node_id@].depends_on == set![p.fused_id@],
    decreases n,
{
    if n > 0 {
        projected_keeps(g, p, (n - 1) as nat);
        let before = projected(g, p, (n - 1) as nat);
        let t = p.tables@[n - 1];
        assert(g.contains_key(t.node_id@));
        assert(projected(g, p, n).dom() =~= g.dom());
        assert forall|id: Text|
            #![trigger projected(g, p, n)[id]]
            g.contains_key(id) && (forall|k: int| 0 <= k < n ==> (#[trigger] p.tables@[k]).node_id@ != id) implies projected(
            g,
            p,
            n,
        )[id] == g[id] by {
            assert(p.tables@[n - 1].node_id@ != id);
            assert(before[id] == g[id]);
        }
        assert forall|k: int| 0 <= k < n implies projected(g, p, n)[(#[trigger] p.tables@[k]).node_id@].depends_on
            == set![p.fused_id@] by {
            if p.tables@[k].node_id@ != t.node_id@ {
                assert(before[p.tables@[k].node_id@].depends_on == set![p.fused_id@]);
            }
        }
    }
}

/// Puts the fused node into the graph and turns the Tables into projections
/// out of it.
pub(crate) fn install(dag: &mut Dag, plan: &FusionPlan, sql: String, Ghost(dialect): Ghost<Dialect>)
    requires
        old(dag).wf(),
        sql@ == fused_text(old(dag).nodes@, dialect, *plan),
        forall|k: int|
            0 <= k < plan.tables@.len() ==> old(dag).nodes@.contains_key((#[trigger] plan.tables@[k]).node_id@),
    ensures
        final(dag).wf(),
        final(dag).nodes@ == fused_graph(old(dag).nodes@, dialect, *plan),
        final(dag).db == old(dag).db,
        final(dag).sources == old(dag).sources,
        final(dag).max_parallelism == old(dag).max_parallelism,
{
    let ghost g = dag.nodes@;
    let none: Vec<String> = Vec::new();
    let node = crate::dag::TransformNode {
        id: plan.fused_id.clone(),
        query_text: sql,
        materialize: MaterializeMode::TempTable,
        depends_on: none,
        schema: None,
    };
    proof {
        assert(texts(none@).to_set() =~= Set::<Text>::empty());
        assert(node@ =~= fused_node(g, dialect, *plan));
    }
    dag.nodes.add_node_unchecked(node);
    let ghost start = g.insert(plan.fused_id@, fused_node(g, dialect, *plan));
    let mut i: usize = 0;
    while i < plan.tables.len()
        invariant
            i <= plan.tables@.len(),
            dag.nodes.wf(),
            dag.nodes@ == projected(start, *plan, i as nat),
            start == g.insert(plan.fused_id@, fused_node(g, dialect, *plan)),
            forall|k: int| 0 <= k < plan.tables@.len() ==> g.contains_key((#[trigger] plan.tables@[k]).node_id@),
            dag.db == old(dag).db,
            dag.sources == old(dag).sources,
            dag.max_parallelism == old(dag).max_parallelism,
        decreases plan.tables@.len() - i,
    {
        let t = &plan.tables[i];
        proof {
            assert(g.contains_key(plan.tables@[i as int].node_id@));
            projected_keeps(start, *plan, i as nat);
            assert(start.contains_key(t.node_id@));
            assert(dag.nodes@.dom().contains(t.node_id@));
        }
        let mut deps: Vec<String> = Vec::new();
        deps.push(plan.fused_id.clone());
        proof {
            assert(texts(deps@).to_set() =~= set![plan.fused_id@]) by {
                assert(texts(deps@)[0] == plan.fused_id@);
            }
        }
        let query = table_projection(t, plan.fused_id.as_str());
        dag.nodes.rewrite_node(t.node_id.as_str(), query, deps);
        i = i + 1;
    }
}

proof fn readers_of_taken(g: GraphModel, a: Seq<Text>, b: Seq<Text>, id: Text, n: nat)
    requires
        n <= a.len(),
        n <= b.len(),
        forall|i: int| 0 <= i < n ==> a[i] == b[i],
    ensures
        direct_readers(g, a, id, n) == direct_readers(g, b, id, n),
        table_readers_of(g, a, id, n) == table_readers_of(g, b, id, n),
    decreases n,
{
    if n > 0 {
        readers_of_taken(g, a, b, id, (n - 1) as nat);
    }
}

/// Every node of the closure that reads another counts as a reader of it, and
/// every Table that reaches it as one of its Tables; a Table's own branch reads
/// its expression too.
pub proof fn every_expression_that_reads_counts(g: GraphModel, nodes: Seq<Text>, node: Text, id: Text)
    ensures
        direct_readers(g, nodes.push(node), id, nodes.len() + 1) == direct_readers(g, nodes, id, nodes.len()) + (if reads(
            g,
            node,
            id,
        ) {
            1int
        } else {
            0
        }),
        table_readers_of(g, nodes.push(node), id, nodes.len() + 1) == table_readers_of(g, nodes, id, nodes.len()) + (
        if upstream(g, set![node]).contains(id) {
            1int
        } else {
            0
        }),
        direct_readers(g, nodes, id, 0) == 0 && table_readers_of(g, nodes, id, 0) == 0,
        query_readers(g, nodes, id, true) == query_readers(g, nodes, id, false) + 1,
        query_readers(g, nodes, id, false) == direct_readers(g, nodes, id, nodes.len()),
{
    let more = nodes.push(node);
    readers_of_taken(g, nodes, more, id, nodes.len());
    assert(more[nodes.len() as int] == node);
}

proof fn ctes_taken(a: Seq<CtePlan>, b: Seq<CtePlan>, n: nat)
    requires
        n <= a.len(),
        n <= b.len(),
        forall|i: int| 0 <= i < n ==> a[i] == b[i],
    ensures
        decidable_of(a, n) == decidable_of(b, n),
        materialized_of(a, n) == materialized_of(b, n),
    decreases n,
{
    if n > 0 {
        ctes_taken(a, b, (n - 1) as nat);
    }
}

/// Every expression that can be decided about is listed, and every one that is
/// materialized, in the order of the chain.
pub proof fn every_decision_is_listed(ctes: Seq<CtePlan>, c: CtePlan)
    ensures
        decidable_of(ctes.push(c), ctes.len() + 1) == (if c.decidable {
            decidable_of(ctes, ctes.len()).push(c.node_id@)
        } else {
            decidable_of(ctes, ctes.len())
        }),
        materialized_of(ctes.push(c), ctes.len() + 1) == (if c.materialized {
            materialized_of(ctes, ctes.len()).push(c.node_id@)
        } else {
            materialized_of(ctes, ctes.len())
        }),
        decidable_of(ctes, 0).len() == 0 && materialized_of(ctes, 0).len() == 0,
{
    let more = ctes.push(c);
    ctes_taken(ctes, more, ctes.len());
    assert(more[ctes.len() as int] == c);
}

/// Without settings only a Table that another expression reads is materialized;
/// with them every View is, or those that reach more than one Table; and a list
/// decides by name alone. An engine that does not heed the hint has none.
pub proof fn what_a_rule_materializes(
    g: GraphModel,
    dialect: Dialect,
    ids: Seq<Text>,
    closure: Seq<Text>,
    names: Seq<Text>,
    c: CtePlan,
    all_views: bool,
    naive: bool,
)
    requires
        cte_planned(g, dialect, MaterializeRule::Configured { all_views, naive, over: None }, ids, closure, names, c),
    ensures
        !(dialect is DuckDB || dialect is PostgreSQL) ==> !c.materialized && !c.decidable,
        c.decidable ==> c.readers >= 2,
        (dialect is DuckDB || dialect is PostgreSQL) && c.readers >= 2 ==> c.decidable,
        (dialect is DuckDB || dialect is PostgreSQL) && all_views ==> c.materialized,
        c.is_table && (dialect is DuckDB || dialect is PostgreSQL) && (exists|b: Text|
            closure.contains(b) && #[trigger] reads(g, b, c.node_id@)) ==> c.materialized,
        !c.is_table && !all_views && !naive ==> !c.materialized,
        !c.is_table && naive && !all_views && (dialect is DuckDB || dialect is PostgreSQL) ==> (c.materialized <==> table_readers_of(
            g,
            ids,
            c.node_id@,
            ids.len(),
        ) >= 2),
        c.is_table <==> ids.contains(c.node_id@),
        forall|r: Text| texts(c.reads@).contains(r) <==> g[c.node_id@].depends_on.contains(r) && closure.contains(r),
{
    let set = closure.to_set();
    let listed = texts(c.reads@);
    assert forall|r: Text| listed.contains(r) <==> g[c.node_id@].depends_on.contains(r) && closure.contains(r) by {
        assert(listed.to_set().contains(r) == listed.contains(r));
        assert(set.contains(r) == closure.contains(r));
    }
    if exists|b: Text| closure.contains(b) && #[trigger] reads(g, b, c.node_id@) {
        let b = choose|b: Text| closure.contains(b) && #[trigger] reads(g, b, c.node_id@);
        assert(set.contains(b) && reads(g, b, c.node_id@));
    }
}

/// Every column of every Table has its column in the fused relation.
pub proof fn every_column_is_fused(tables: Seq<TablePlan>, n: nat, k: int, j: int)
    requires
        0 <= k < n <= tables.len(),
        0 <= j < tables[k].columns@.len(),
    ensures
        all_fused(tables, n).contains(tables[k].columns@[j].fused@),
        all_fused(tables, n).len() >= tables[k].columns@.len(),
    decreases n,
{
    let rest = all_fused(tables, (n - 1) as nat);
    let own = fused_names(tables[n - 1].columns@);
    let all = all_fused(tables, n);
    let name = tables[k].columns@[j].fused@;
    if k == n - 1 {
        assert(own[j] == name);
        assert(all[rest.len() + j] == name);
    } else {
        every_column_is_fused(tables, (n - 1) as nat, k, j);
        let w = choose|w: int| 0 <= w < rest.len() && rest[w] == name;
        assert(all[w] == name);
    }
}

/// A Table's branch gives a fused column that is its own the value of the column
/// it stands for, and NULL to every other.
pub proof fn a_branch_fills_its_own_columns(t: TablePlan, j: int, other: Text)
    requires
        0 <= j < t.columns@.len(),
        forall|i: int| j < i < t.columns@.len() ==> (#[trigger] t.columns@[i]).fused@ != t.columns@[j].fused@,
        forall|i: int| 0 <= i < t.columns@.len() ==> (#[trigger] t.columns@[i]).fused@ != other,
    ensures
        branch_column(t, t.columns@[j].fused@) == "\""@ + t.columns@[j].original@ + "\" AS \""@ + t.columns@[j].fused@ + "\""@,
        branch_column(t, other) == "NULL AS \""@ + other + "\""@,
        branch_columns(t, seq![t.columns@[j].fused@, other]).len() == 3,
        branch_columns(t, seq![t.columns@[j].fused@, other])[0] == decimal(t.kind as nat) + " AS kind"@,
{
    last_original(t.columns@, t.columns@[j].fused@, 0, j);
    no_original(t.columns@, other, 0);
}

proof fn last_original(columns: Seq<ColumnPlan>, f: Text, from: nat, j: int)
    requires
        from <= j < columns.len(),
        columns[j].fused@ == f,
        forall|i: int| j < i < columns.len() ==> (#[trigger] columns[i]).fused@ != f,
    ensures
        original_of(columns, f, from) == Some(columns[j].original@),
    decreases columns.len() - from,
{
    if from < j {
        last_original(columns, f, from + 1, j);
    } else {
        no_original(columns, f, from + 1);
    }
}

proof fn no_original(columns: Seq<ColumnPlan>, f: Text, from: nat)
    requires
        forall|i: int| from <= i < columns.len() ==> (#[trigger] columns[i]).fused@ != f,
    ensures
        original_of(columns, f, from) is None,
    decreases columns.len() - from,
{
    if from < columns.len() {
        no_original(columns, f, from + 1);
        assert(columns[from as int].fused@ != f);
    }
}

/// The fused query has every expression of the chain, in its order and under its
/// own name and mark.
pub proof fn every_expression_is_in_the_query(g: GraphModel, dialect: Dialect, ctes: Seq<CtePlan>, n: nat, i: int)
    requires
        0 <= i < n <= ctes.len(),
    ensures
        chain_sql(g, dialect, ctes, n).len() == n,
        ctes[i].materialized ==> chain_sql(g, dialect, ctes, n)[i] == ctes[i].cte_name@ + " AS MATERIALIZED ("@ + cte_body(
            g,
            dialect,
            ctes,
            ctes[i].node_id@,
        )->0 + ")"@,
        !ctes[i].materialized ==> chain_sql(g, dialect, ctes, n)[i] == ctes[i].cte_name@ + " AS ("@ + cte_body(
            g,
            dialect,
            ctes,
            ctes[i].node_id@,
        )->0 + ")"@,
    decreases n,
{
    chain_length(g, dialect, ctes, n);
    chain_length(g, dialect, ctes, (n - 1) as nat);
    if i < n - 1 {
        every_expression_is_in_the_query(g, dialect, ctes, (n - 1) as nat, i);
    }
}

proof fn chain_length(g: GraphModel, dialect: Dialect, ctes: Seq<CtePlan>, n: nat)
    ensures
        chain_sql(g, dialect, ctes, n).len() == n,
    decreases n,
{
    if n > 0 {
        chain_length(g, dialect, ctes, (n - 1) as nat);
    }
}

/// A body that reads nothing of the chain stands as it was written, and only
/// such bodies are counted as such.
pub proof fn a_body_is_left_where_it_reads_nothing(g: GraphModel, dialect: Dialect, ctes: Seq<CtePlan>, id: Text, n: nat)
    requires
        g.contains_key(id),
        0 < n <= ctes.len(),
    ensures
        (forall|k: int| 0 <= k < ctes.len() ==> !g[id].depends_on.contains((#[trigger] ctes[k]).node_id@)) ==> cte_body(
            g,
            dialect,
            ctes,
            id,
        ) == Some(g[id].query_text),
        verbatim_count(g, ctes, n) == verbatim_count(g, ctes, (n - 1) as nat) + (if exists|k: int|
            0 <= k < ctes.len() && g[ctes[n - 1].node_id@].depends_on.contains((#[trigger] ctes[k]).node_id@) {
            0int
        } else {
            1
        }),
        verbatim_count(g, ctes, 0) == 0,
{
}

/// A fresh name is not taken.
proof fn a_fresh_name_is_not_taken(base: Text, taken: Set<Text>, name: Text)
    requires
        is_fresh(base, taken, name),
    ensures
        !taken.contains(name),
        !taken.contains(base) ==> name == base,
{
    let k = choose|k: nat|
        k >= 1 && name == #[trigger] numbered(base, k) && !taken.contains(name) && forall|j: nat|
            1 <= j < k ==> taken.contains(#[trigger] numbered(base, j));
    if k > 1 {
        assert(taken.contains(numbered(base, 1)));
    }
}

/// No two expressions of the fused query have the same name, and one whose bare
/// name no other has keeps it, marked.
pub proof fn expressions_have_names_of_their_own(closure: Seq<Text>, names: Seq<Text>, i: int, j: int)
    requires
        ctes_named(closure, names),
        0 <= i < j < closure.len(),
    ensures
        names[i] != names[j],
        !names.take(j).contains("n_"@ + bare(closure[j])) ==> names[j] == "n_"@ + bare(closure[j]),
        names[0] == "n_"@ + bare(closure[0]),
{
    let before = names.take(j);
    a_fresh_name_is_not_taken("n_"@ + bare(closure[j]), before.to_set(), names[j]);
    assert(before[i] == names[i]);
    assert(before.to_set().contains(names[i]));
    assert(names.take(0) =~= Seq::<Text>::empty());
    a_fresh_name_is_not_taken("n_"@ + bare(closure[0]), names.take(0).to_set(), names[0]);
}

/// No two columns of the fused relation have the same name, and a column's name
/// tells its Table's number and its own name where no other column has that.
pub proof fn columns_have_names_of_their_own(
    kind: nat,
    schema: Seq<Text>,
    before: Seq<Text>,
    names: Seq<Text>,
    i: int,
    j: int,
)
    requires
        columns_named(kind, schema, before, names),
        0 <= j < schema.len(),
    ensures
        0 <= i < j ==> names[i] != names[j],
        !before.contains(names[j]),
        !(before + names.take(j)).contains("k"@ + decimal(kind) + "_"@ + schema[j]) ==> names[j] == "k"@ + decimal(kind)
            + "_"@ + schema[j],
{
    let taken = before + names.take(j);
    a_fresh_name_is_not_taken("k"@ + decimal(kind) + "_"@ + schema[j], taken.to_set(), names[j]);
    if 0 <= i < j {
        assert(taken[before.len() + i] == names[i]);
        assert(taken.to_set().contains(names[i]));
    }
    if before.contains(names[j]) {
        let k = choose|k: int| 0 <= k < before.len() && before[k] == names[j];
        assert(taken[k] == names[j]);
        assert(taken.to_set().contains(names[j]));
    }
}

/// A fused column stands for the column that it was made of, and a name that is
/// no fused column's stands for none.
pub proof fn a_fused_column_stands_for_its_original(columns: Seq<ColumnPlan>, from: nat, i: int, f: Text)
    requires
        from <= columns.len(),
        forall|a: int, b: int|
            0 <= a < b < columns.len() ==> (#[trigger] columns[a]).fused@ != (#[trigger] columns[b]).fused@,
    ensures
        from <= i < columns.len() ==> original_of(columns, columns[i].fused@, from) == Some(columns[i].original@),
        (forall|k: int| from <= k < columns.len() ==> (#[trigger] columns[k]).fused@ != f) ==> original_of(
            columns,
            f,
            from,
        ) is None,
    decreases columns.len() - from,
{
    if from < columns.len() {
        a_fused_column_stands_for_its_original(columns, from + 1, i, f);
        if i == from {
            a_fused_column_stands_for_its_original(columns, from + 1, i, columns[i].fused@);
        }
    }
}

/// The id of the fused node is new to the graph, and there is none exactly
/// where nothing is left to try.
pub proof fn a_fused_node_is_new(g: GraphModel, sibling: Text, id: Text)
    requires
        is_fused_id(g, sibling, id),
    ensures
        !g.contains_key(id),
        !no_fused_id(g, sibling),
        !g.contains_key(fused_attempt(sibling, 1)) ==> id == fused_attempt(sibling, 1),
{
    let n = choose|n: nat|
        1 <= n <= attempts() && id == #[trigger] fused_attempt(sibling, n) && !g.contains_key(id) && forall|m: nat|
            1 <= m < n ==> g.contains_key(#[trigger] fused_attempt(sibling, m));
    if n > 1 {
        assert(g.contains_key(fused_attempt(sibling, 1)));
    }
}

/// A Table's branch is told from the others by its number, reads the Table's
/// own expression, and has the Table's own columns.
pub proof fn a_table_has_a_branch_of_its_own(
    g: GraphModel,
    ids: Seq<Text>,
    closure: Seq<Text>,
    names: Seq<Text>,
    plans: Seq<TablePlan>,
    k: int,
    m: int,
)
    requires
        ctes_named(closure, names),
        table_planned(g, ids, closure, names, plans, k),
        table_planned(g, ids, closure, names, plans, m),
        ids[k] != ids[m],
    ensures
        plans[k].node_id@ == ids[k],
        plans[k].cte_name@ != plans[m].cte_name@,
        k != m ==> plans[k].kind != plans[m].kind,
        g[ids[k]].schema == Some(originals(plans[k].columns@)),
        plans[k].columns@.len() > 0,
{
    let i = choose|i: int| 0 <= i < closure.len() && #[trigger] closure[i] == ids[k] && names[i] == plans[k].cte_name@;
    let j = choose|j: int| 0 <= j < closure.len() && #[trigger] closure[j] == ids[m] && names[j] == plans[m].cte_name@;
    if i < j {
        expressions_have_names_of_their_own(closure, names, i, j);
    } else {
        expressions_have_names_of_their_own(closure, names, j, i);
    }
}

/// The search decides only where the engine heeds the hint, and only about what
/// is read more than once; where it does not heed it nothing is materialized.
pub proof fn only_what_is_read_twice_is_decided(
    g: GraphModel,
    dialect: Dialect,
    rule: MaterializeRule,
    ids: Seq<Text>,
    closure: Seq<Text>,
    names: Seq<Text>,
    c: CtePlan,
    a: Text,
)
    requires
        cte_planned(g, dialect, rule, ids, closure, names, c),
    ensures
        dialect is DuckDB || dialect is PostgreSQL ==> (c.decidable <==> c.readers >= 2),
        !(dialect is DuckDB || dialect is PostgreSQL) ==> !c.decidable && !c.materialized,
        c.is_table <==> ids.contains(c.node_id@),
        c.is_table ==> c.readers >= 1,
        texts(c.reads@).contains(a) <==> g[c.node_id@].depends_on.contains(a) && closure.contains(a),
{
    let reads = texts(c.reads@);
    assert(reads.to_set().contains(a) == reads.contains(a));
    assert(closure.to_set().contains(a) == closure.contains(a));
}

} // verus!
