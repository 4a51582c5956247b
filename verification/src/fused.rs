//! What holds of every fusion.

use vstd::prelude::*;

use crate::dag::{GraphModel, MaterializeMode};
use crate::fusion::{
    all_fused, branch_columns, branch_sql, branches_sql, can_build, chain_ids, chain_names, chain_sql, columns_named, cte_body,
    cte_planned, ctes_named, direct_readers, feeds, fused_attempt, fused_graph, fused_names, fused_node, fused_text, fusion_of, has_columns, heeds_hint,
    is_fresh, is_fused_id, is_name_of, lacks_columns, names_fused, no_fused_id, no_id_text, not_fusable, numbered, original_of, originals, plans, projected, projection_text,
    sorts, table_ids, table_planned, temp_table_upstream, too_few_text, ColumnPlan, CtePlan, FusionPlan,
    MaterializeRule, TablePlan,
};
use crate::order::{listing, listing_unique};
use crate::sql::Dialect;
use crate::text::{texts, Text};
use crate::topo::{closed_ground, grounded, stable_topo_builds_dependencies_first, stable_topo_unique};
use crate::walk::{reads, upstream, upstream_closed};

verus! {

/// A base has one first name that is not taken.
proof fn fresh_unique(base: Text, taken: Set<Text>, a: Text, b: Text)
    requires
        is_fresh(base, taken, a),
        is_fresh(base, taken, b),
    ensures
        a == b,
{
    let j = choose|k: nat|
        k >= 1 && a == #[trigger] numbered(base, k) && !taken.contains(a) && forall|i: nat|
            1 <= i < k ==> taken.contains(#[trigger] numbered(base, i));
    let k = choose|k: nat|
        k >= 1 && b == #[trigger] numbered(base, k) && !taken.contains(b) && forall|i: nat|
            1 <= i < k ==> taken.contains(#[trigger] numbered(base, i));
    if j < k {
        assert(taken.contains(numbered(base, j)));
    } else if k < j {
        assert(taken.contains(numbered(base, k)));
    }
}

proof fn cte_names_unique(closure: Seq<Text>, a: Seq<Text>, b: Seq<Text>, n: int)
    requires
        ctes_named(closure, a),
        ctes_named(closure, b),
        0 <= n <= closure.len(),
    ensures
        a.take(n) == b.take(n),
    decreases n,
{
    if n > 0 {
        cte_names_unique(closure, a, b, n - 1);
        assert(is_fresh("n_"@ + crate::fusion::bare(closure[n - 1]), a.take(n - 1).to_set(), a[n - 1]));
        assert(is_fresh("n_"@ + crate::fusion::bare(closure[n - 1]), b.take(n - 1).to_set(), b[n - 1]));
        fresh_unique("n_"@ + crate::fusion::bare(closure[n - 1]), a.take(n - 1).to_set(), a[n - 1], b[n - 1]);
        assert(a.take(n) =~= a.take(n - 1).push(a[n - 1]));
        assert(b.take(n) =~= b.take(n - 1).push(b[n - 1]));
    } else {
        assert(a.take(0) =~= b.take(0));
    }
}

proof fn column_names_unique(kind: nat, schema: Seq<Text>, before: Seq<Text>, a: Seq<Text>, b: Seq<Text>, n: int)
    requires
        columns_named(kind, schema, before, a),
        columns_named(kind, schema, before, b),
        0 <= n <= schema.len(),
    ensures
        a.take(n) == b.take(n),
    decreases n,
{
    if n > 0 {
        column_names_unique(kind, schema, before, a, b, n - 1);
        let base = "k"@ + crate::text::decimal(kind) + "_"@ + schema[n - 1];
        let taken = (before + a.take(n - 1)).to_set();
        assert(is_fresh(base, taken, a[n - 1]));
        assert(is_fresh(base, (before + b.take(n - 1)).to_set(), b[n - 1]));
        fresh_unique(base, taken, a[n - 1], b[n - 1]);
        assert(a.take(n) =~= a.take(n - 1).push(a[n - 1]));
        assert(b.take(n) =~= b.take(n - 1).push(b[n - 1]));
    } else {
        assert(a.take(0) =~= b.take(0));
    }
}

/// Two Tables are planned alike.
pub open spec fn same_table(a: TablePlan, b: TablePlan) -> bool {
    &&& a.node_id@ == b.node_id@
    &&& a.kind == b.kind
    &&& a.cte_name@ == b.cte_name@
    &&& originals(a.columns@) == originals(b.columns@)
    &&& fused_names(a.columns@) == fused_names(b.columns@)
}

/// Two expressions are planned alike.
pub open spec fn same_cte(a: CtePlan, b: CtePlan) -> bool {
    &&& a.node_id@ == b.node_id@
    &&& a.cte_name@ == b.cte_name@
    &&& a.materialized == b.materialized
    &&& a.is_table == b.is_table
    &&& texts(a.reads@) == texts(b.reads@)
    &&& a.readers == b.readers
    &&& a.decidable == b.decidable
}

/// Two plans say the same.
pub open spec fn same_plan(p: FusionPlan, q: FusionPlan) -> bool {
    &&& p.fused_id@ == q.fused_id@
    &&& p.ctes@.len() == q.ctes@.len()
    &&& forall|i: int| 0 <= i < p.ctes@.len() ==> same_cte(#[trigger] p.ctes@[i], q.ctes@[i])
    &&& p.tables@.len() == q.tables@.len()
    &&& forall|k: int| 0 <= k < p.tables@.len() ==> same_table(#[trigger] p.tables@[k], q.tables@[k])
    &&& texts(p.fused_columns@) == texts(q.fused_columns@)
}

proof fn name_unique(closure: Seq<Text>, names: Seq<Text>, id: Text, a: Text, b: Text)
    requires
        closure.no_duplicates(),
        is_name_of(closure, names, id, a),
        is_name_of(closure, names, id, b),
    ensures
        a == b,
{
    let i = choose|i: int| 0 <= i < closure.len() && #[trigger] closure[i] == id && names[i] == a;
    let j = choose|j: int| 0 <= j < closure.len() && #[trigger] closure[j] == id && names[j] == b;
    assert(i == j);
}

proof fn tables_unique(
    g: GraphModel,
    ids: Seq<Text>,
    closure: Seq<Text>,
    names: Seq<Text>,
    a: Seq<TablePlan>,
    b: Seq<TablePlan>,
    n: nat,
)
    requires
        closure.no_duplicates(),
        a.len() == ids.len(),
        b.len() == ids.len(),
        n <= ids.len(),
        forall|k: int| 0 <= k < ids.len() ==> #[trigger] table_planned(g, ids, closure, names, a, k),
        forall|k: int| 0 <= k < ids.len() ==> #[trigger] table_planned(g, ids, closure, names, b, k),
    ensures
        forall|k: int| 0 <= k < n ==> same_table(#[trigger] a[k], b[k]),
        all_fused(a, n) == all_fused(b, n),
    decreases n,
{
    if n > 0 {
        tables_unique(g, ids, closure, names, a, b, (n - 1) as nat);
        let k = n - 1;
        assert(table_planned(g, ids, closure, names, a, k));
        assert(table_planned(g, ids, closure, names, b, k));
        name_unique(closure, names, ids[k], a[k].cte_name@, b[k].cte_name@);
        let schema = originals(a[k].columns@);
        let x = fused_names(a[k].columns@);
        let y = fused_names(b[k].columns@);
        column_names_unique(k as nat, schema, all_fused(a, k as nat), x, y, schema.len() as int);
        assert(x.take(schema.len() as int) =~= x);
        assert(y.take(schema.len() as int) =~= y);
    }
}

/// A graph, a dialect and a rule have one plan.
pub proof fn fusion_is_determined(g: GraphModel, dialect: Dialect, rule: MaterializeRule, p: FusionPlan, q: FusionPlan)
    requires
        fusion_of(g, dialect, rule, p),
        fusion_of(g, dialect, rule, q),
    ensures
        same_plan(p, q),
{
    let (ids, closure, names) = choose|ids: Seq<Text>, closure: Seq<Text>, names: Seq<Text>|
        #[trigger] listing(ids, table_ids(g)) && #[trigger] listing(closure, upstream(g, table_ids(g))) && #[trigger] plans(
            g,
            dialect,
            rule,
            ids,
            closure,
            names,
            p,
        );
    let (ids2, closure2, names2) = choose|ids: Seq<Text>, closure: Seq<Text>, names: Seq<Text>|
        #[trigger] listing(ids, table_ids(g)) && #[trigger] listing(closure, upstream(g, table_ids(g))) && #[trigger] plans(
            g,
            dialect,
            rule,
            ids,
            closure,
            names,
            q,
        );
    listing_unique(ids, ids2, table_ids(g));
    listing_unique(closure, closure2, upstream(g, table_ids(g)));
    cte_names_unique(closure, names, names2, closure.len() as int);
    assert(names.take(closure.len() as int) =~= names);
    assert(names2.take(closure.len() as int) =~= names2);
    fused_id_unique(g, ids[0], p.fused_id@, q.fused_id@);
    tables_unique(g, ids, closure, names, p.tables@, q.tables@, ids.len());
    stable_topo_unique(g, closure.to_set(), chain_ids(p.ctes@), chain_ids(q.ctes@));
    assert(p.ctes@.len() == q.ctes@.len()) by {
        assert(chain_ids(p.ctes@).len() == chain_ids(q.ctes@).len());
    }
    assert forall|i: int| 0 <= i < p.ctes@.len() implies same_cte(#[trigger] p.ctes@[i], q.ctes@[i]) by {
        let a = p.ctes@[i];
        let b = q.ctes@[i];
        assert(chain_ids(p.ctes@)[i] == a.node_id@);
        assert(chain_ids(q.ctes@)[i] == b.node_id@);
        assert(cte_planned(g, dialect, rule, ids, closure, names, a));
        assert(cte_planned(g, dialect, rule, ids, closure, names, b));
        name_unique(closure, names, a.node_id@, a.cte_name@, b.cte_name@);
        listing_unique(
            texts(a.reads@),
            texts(b.reads@),
            g[a.node_id@].depends_on.intersect(closure.to_set()),
        );
    }
}

proof fn fused_id_unique(g: GraphModel, sibling: Text, a: Text, b: Text)
    requires
        is_fused_id(g, sibling, a),
        is_fused_id(g, sibling, b),
    ensures
        a == b,
{
    let j = choose|n: nat|
        1 <= n <= crate::fusion::attempts() && a == #[trigger] fused_attempt(sibling, n) && !g.contains_key(a) && forall|
            m: nat,
        |
            1 <= m < n ==> g.contains_key(#[trigger] fused_attempt(sibling, m));
    let k = choose|n: nat|
        1 <= n <= crate::fusion::attempts() && b == #[trigger] fused_attempt(sibling, n) && !g.contains_key(b) && forall|
            m: nat,
        |
            1 <= m < n ==> g.contains_key(#[trigger] fused_attempt(sibling, m));
    if j < k {
        assert(g.contains_key(fused_attempt(sibling, j)));
    } else if k < j {
        assert(g.contains_key(fused_attempt(sibling, k)));
    }
}

proof fn same_bodies(g: GraphModel, dialect: Dialect, a: Seq<CtePlan>, b: Seq<CtePlan>, id: Text)
    requires
        a.len() == b.len(),
        forall|i: int| 0 <= i < a.len() ==> same_cte(#[trigger] a[i], b[i]),
    ensures
        cte_body(g, dialect, a, id) == cte_body(g, dialect, b, id),
{
    assert(chain_names(a) =~= chain_names(b)) by {
        assert forall|i: int| 0 <= i < a.len() implies chain_names(a)[i] == chain_names(b)[i] by {
            assert(same_cte(a[i], b[i]));
        }
    }
    if g.contains_key(id) {
        if names_fused(g[id], a) {
            let k = choose|k: int| 0 <= k < a.len() && g[id].depends_on.contains((#[trigger] a[k]).node_id@);
            assert(same_cte(a[k], b[k]));
            assert(g[id].depends_on.contains(b[k].node_id@));
        }
        if names_fused(g[id], b) {
            let k = choose|k: int| 0 <= k < b.len() && g[id].depends_on.contains((#[trigger] b[k]).node_id@);
            assert(same_cte(a[k], b[k]));
            assert(g[id].depends_on.contains(a[k].node_id@));
        }
    }
}

proof fn same_chain(g: GraphModel, dialect: Dialect, a: Seq<CtePlan>, b: Seq<CtePlan>, n: nat)
    requires
        n <= a.len() == b.len(),
        forall|i: int| 0 <= i < a.len() ==> same_cte(#[trigger] a[i], b[i]),
    ensures
        chain_sql(g, dialect, a, n) == chain_sql(g, dialect, b, n),
    decreases n,
{
    if n > 0 {
        same_chain(g, dialect, a, b, (n - 1) as nat);
        assert(same_cte(a[n - 1], b[n - 1]));
        same_bodies(g, dialect, a, b, a[n - 1].node_id@);
    }
}

proof fn same_original(a: Seq<ColumnPlan>, b: Seq<ColumnPlan>, f: Text, from: nat)
    requires
        originals(a) == originals(b),
        fused_names(a) == fused_names(b),
    ensures
        original_of(a, f, from) == original_of(b, f, from),
    decreases a.len() - from,
{
    assert(originals(a).len() == a.len());
    assert(originals(b).len() == b.len());
    if from < a.len() {
        same_original(a, b, f, from + 1);
        assert(originals(a)[from as int] == a[from as int].original@);
        assert(originals(b)[from as int] == b[from as int].original@);
        assert(fused_names(a)[from as int] == a[from as int].fused@);
        assert(fused_names(b)[from as int] == b[from as int].fused@);
    }
}

/// The fused query is a function of the graph, the dialect and the rule.
pub proof fn fused_text_is_determined(g: GraphModel, dialect: Dialect, rule: MaterializeRule, p: FusionPlan, q: FusionPlan)
    requires
        fusion_of(g, dialect, rule, p),
        fusion_of(g, dialect, rule, q),
    ensures
        fused_text(g, dialect, p) == fused_text(g, dialect, q),
{
    fusion_is_determined(g, dialect, rule, p, q);
    same_chain(g, dialect, p.ctes@, q.ctes@, p.ctes@.len());
    let fused = texts(p.fused_columns@);
    let a = branches_sql(p.tables@, fused);
    let b = branches_sql(q.tables@, fused);
    assert forall|k: int| 0 <= k < a.len() implies a[k] == b[k] by {
        let s = p.tables@[k];
        let t = q.tables@[k];
        assert(same_table(s, t));
        assert forall|f: Text| crate::fusion::branch_column(s, f) == crate::fusion::branch_column(t, f) by {
            same_original(s.columns@, t.columns@, f, 0);
        }
        assert(branch_columns(s, fused) =~= branch_columns(t, fused)) by {
            assert forall|i: int| 0 <= i < branch_columns(s, fused).len() implies branch_columns(s, fused)[i]
                == branch_columns(t, fused)[i] by {
                if i > 0 {
                    let f = fused[i - 1];
                    assert(crate::fusion::branch_column(s, f) == crate::fusion::branch_column(t, f));
                }
            }
        }
        assert(branch_sql(s, fused) == branch_sql(t, fused));
    }
    assert(a =~= b);
}

/// A graph that there is a reason not to fuse has no plan.
pub proof fn refused_has_no_plan(g: GraphModel, dialect: Dialect, rule: MaterializeRule, why: Text, p: FusionPlan)
    requires
        not_fusable(g, why),
    ensures
        !fusion_of(g, dialect, rule, p),
{
    if fusion_of(g, dialect, rule, p) {
        let (ids, closure, names) = choose|ids: Seq<Text>, closure: Seq<Text>, names: Seq<Text>|
            #[trigger] listing(ids, table_ids(g)) && #[trigger] listing(closure, upstream(g, table_ids(g))) && #[trigger] plans(
                g,
                dialect,
                rule,
                ids,
                closure,
                names,
                p,
            );
        let other = choose|other: Seq<Text>|
            #[trigger] listing(other, table_ids(g)) && (if other.len() < 2 {
                why == too_few_text(other.len())
            } else if no_fused_id(g, other[0]) {
                why == no_id_text()
            } else {
                lacks_columns(g, other, why)
            });
        listing_unique(ids, other, table_ids(g));
        let n = choose|n: nat|
            1 <= n <= crate::fusion::attempts() && p.fused_id@ == #[trigger] fused_attempt(ids[0], n) && !g.contains_key(
                p.fused_id@,
            );
        assert(g.contains_key(fused_attempt(ids[0], n)) || !no_fused_id(g, ids[0]));
        let k = choose|k: int|
            0 <= k < ids.len() && !has_columns(g, #[trigger] ids[k]);
        assert(table_planned(g, ids, closure, names, p.tables@, k));
    }
}

/// Whether the fused query can be written is a function of the graph, the
/// dialect and the rule.
pub proof fn building_is_determined(g: GraphModel, dialect: Dialect, rule: MaterializeRule, p: FusionPlan, q: FusionPlan)
    requires
        fusion_of(g, dialect, rule, p),
        fusion_of(g, dialect, rule, q),
        can_build(g, dialect, p),
    ensures
        can_build(g, dialect, q),
{
    fusion_is_determined(g, dialect, rule, p, q);
    assert forall|i: int| 0 <= i < q.ctes@.len() implies cte_body(
        g,
        dialect,
        q.ctes@,
        (#[trigger] q.ctes@[i]).node_id@,
    ) is Some by {
        assert(same_cte(p.ctes@[i], q.ctes@[i]));
        same_bodies(g, dialect, p.ctes@, q.ctes@, p.ctes@[i].node_id@);
    }
}

/// A Table that feeds another node of the fused query is read more than once:
/// by its own branch and by that node's expression. So what the default
/// rule materializes is the search's to decide about.
pub proof fn default_is_decidable(g: GraphModel, dialect: Dialect, p: FusionPlan, i: int)
    requires
        fusion_of(g, dialect, MaterializeRule::Configured { all_views: false, naive: false, over: None }, p),
        0 <= i < p.ctes@.len(),
        p.ctes@[i].materialized,
    ensures
        p.ctes@[i].is_table,
        p.ctes@[i].decidable,
{
    let rule = MaterializeRule::Configured { all_views: false, naive: false, over: None };
    let (ids, closure, names) = choose|ids: Seq<Text>, closure: Seq<Text>, names: Seq<Text>|
        #[trigger] listing(ids, table_ids(g)) && #[trigger] listing(closure, upstream(g, table_ids(g))) && #[trigger] plans(
            g,
            dialect,
            rule,
            ids,
            closure,
            names,
            p,
        );
    let c = p.ctes@[i];
    let id = c.node_id@;
    assert(cte_planned(g, dialect, rule, ids, closure, names, c));
    assert(c.is_table && feeds(g, closure.to_set(), id));
    let b = choose|b: Text| closure.to_set().contains(b) && #[trigger] reads(g, b, id);
    let k = choose|k: int| 0 <= k < closure.len() && closure[k] == b;
    a_reader_counts(g, closure, id, k, closure.len());
}

proof fn a_reader_counts(g: GraphModel, closure: Seq<Text>, id: Text, k: int, n: nat)
    requires
        0 <= k < n <= closure.len(),
        reads(g, closure[k], id),
    ensures
        direct_readers(g, closure, id, n) >= 1,
    decreases n,
{
    if k < n - 1 {
        a_reader_counts(g, closure, id, k, (n - 1) as nat);
    }
}

/// Naming a set outright materializes exactly its nodes.
pub proof fn exact_rule_is_exact(g: GraphModel, dialect: Dialect, set: &Vec<String>, p: FusionPlan, i: int)
    requires
        fusion_of(g, dialect, MaterializeRule::Exact(set), p),
        heeds_hint(dialect),
        0 <= i < p.ctes@.len(),
    ensures
        p.ctes@[i].materialized == texts(set@).contains(p.ctes@[i].node_id@),
{
    let rule = MaterializeRule::Exact(set);
    let (ids, closure, names) = choose|ids: Seq<Text>, closure: Seq<Text>, names: Seq<Text>|
        #[trigger] listing(ids, table_ids(g)) && #[trigger] listing(closure, upstream(g, table_ids(g))) && #[trigger] plans(
            g,
            dialect,
            rule,
            ids,
            closure,
            names,
            p,
        );
    assert(cte_planned(g, dialect, rule, ids, closure, names, p.ctes@[i]));
}

/// An expression is defined after every expression that it reads.
pub proof fn ctes_are_defined_before_they_are_read(
    g: GraphModel,
    dialect: Dialect,
    rule: MaterializeRule,
    p: FusionPlan,
    i: int,
    a: Text,
)
    requires
        fusion_of(g, dialect, rule, p),
        0 <= i < p.ctes@.len(),
        texts(p.ctes@[i].reads@).contains(a),
    ensures
        chain_ids(p.ctes@).take(i).contains(a),
{
    let (ids, closure, names) = choose|ids: Seq<Text>, closure: Seq<Text>, names: Seq<Text>|
        #[trigger] listing(ids, table_ids(g)) && #[trigger] listing(closure, upstream(g, table_ids(g))) && #[trigger] plans(
            g,
            dialect,
            rule,
            ids,
            closure,
            names,
            p,
        );
    let order = chain_ids(p.ctes@);
    stable_topo_builds_dependencies_first(g, closure.to_set(), order);
    assert(cte_planned(g, dialect, rule, ids, closure, names, p.ctes@[i]));
    assert(order[i] == p.ctes@[i].node_id@);
    assert(texts(p.ctes@[i].reads@).to_set().contains(a));
    assert(g.contains_key(order[i]));
    assert(reads(g, order[i], a));
}

proof fn fused_so_far_distinct(
    g: GraphModel,
    ids: Seq<Text>,
    closure: Seq<Text>,
    names: Seq<Text>,
    tables: Seq<TablePlan>,
    n: nat,
)
    requires
        tables.len() == ids.len(),
        n <= ids.len(),
        forall|k: int| 0 <= k < ids.len() ==> #[trigger] table_planned(g, ids, closure, names, tables, k),
    ensures
        all_fused(tables, n).no_duplicates(),
    decreases n,
{
    if n > 0 {
        fused_so_far_distinct(g, ids, closure, names, tables, (n - 1) as nat);
        let k = n - 1;
        assert(table_planned(g, ids, closure, names, tables, k));
        let before = all_fused(tables, k as nat);
        let own = fused_names(tables[k].columns@);
        let all = before + own;
        assert forall|x: int, y: int| 0 <= x < y < all.len() implies #[trigger] all[x] != #[trigger] all[y] by {
            if y >= before.len() {
                let j = y - before.len();
                assert(is_fresh(
                    "k"@ + crate::text::decimal(k as nat) + "_"@ + originals(tables[k].columns@)[j],
                    (before + own.take(j)).to_set(),
                    own[j],
                ));
                assert((before + own.take(j))[x] == all[x]);
                assert((before + own.take(j)).contains(all[x]));
                assert((before + own.take(j)).to_set().contains(all[x]));
                assert(all[y] == own[j]);
            } else {
                assert(before[x] != before[y]);
            }
        }
        assert(all.no_duplicates());
    }
}

/// No two columns of the fused relation share a name, so each belongs to one
/// Table.
pub proof fn fused_columns_are_distinct(g: GraphModel, dialect: Dialect, rule: MaterializeRule, p: FusionPlan)
    requires
        fusion_of(g, dialect, rule, p),
    ensures
        texts(p.fused_columns@).no_duplicates(),
{
    let (ids, closure, names) = choose|ids: Seq<Text>, closure: Seq<Text>, names: Seq<Text>|
        #[trigger] listing(ids, table_ids(g)) && #[trigger] listing(closure, upstream(g, table_ids(g))) && #[trigger] plans(
            g,
            dialect,
            rule,
            ids,
            closure,
            names,
            p,
        );
    fused_so_far_distinct(g, ids, closure, names, p.tables@, p.tables@.len());
}

/// No node has two expressions in the chain.
pub proof fn chain_nodes_are_distinct(g: GraphModel, dialect: Dialect, rule: MaterializeRule, p: FusionPlan)
    requires
        fusion_of(g, dialect, rule, p),
    ensures
        chain_ids(p.ctes@).no_duplicates(),
{
    let (ids, closure, names) = choose|ids: Seq<Text>, closure: Seq<Text>, names: Seq<Text>|
        #[trigger] listing(ids, table_ids(g)) && #[trigger] listing(closure, upstream(g, table_ids(g))) && #[trigger] plans(
            g,
            dialect,
            rule,
            ids,
            closure,
            names,
            p,
        );
    stable_topo_builds_dependencies_first(g, closure.to_set(), chain_ids(p.ctes@));
}

/// No two expressions of the chain share a name.
pub proof fn cte_names_are_distinct(
    g: GraphModel,
    dialect: Dialect,
    rule: MaterializeRule,
    p: FusionPlan,
    i: int,
    j: int,
)
    requires
        fusion_of(g, dialect, rule, p),
        0 <= i < j < p.ctes@.len(),
    ensures
        p.ctes@[i].cte_name@ != p.ctes@[j].cte_name@,
{
    let (ids, closure, names) = choose|ids: Seq<Text>, closure: Seq<Text>, names: Seq<Text>|
        #[trigger] listing(ids, table_ids(g)) && #[trigger] listing(closure, upstream(g, table_ids(g))) && #[trigger] plans(
            g,
            dialect,
            rule,
            ids,
            closure,
            names,
            p,
        );
    let a = p.ctes@[i];
    let b = p.ctes@[j];
    assert(cte_planned(g, dialect, rule, ids, closure, names, a));
    assert(cte_planned(g, dialect, rule, ids, closure, names, b));
    stable_topo_builds_dependencies_first(g, closure.to_set(), chain_ids(p.ctes@));
    assert(chain_ids(p.ctes@)[i] == a.node_id@ && chain_ids(p.ctes@)[j] == b.node_id@);
    let x = choose|x: int| 0 <= x < closure.len() && #[trigger] closure[x] == a.node_id@ && names[x] == a.cte_name@;
    let y = choose|y: int| 0 <= y < closure.len() && #[trigger] closure[y] == b.node_id@ && names[y] == b.cte_name@;
    let (lo, hi) = if x < y {
        (x, y)
    } else {
        (y, x)
    };
    assert(is_fresh("n_"@ + crate::fusion::bare(closure[hi]), names.take(hi).to_set(), names[hi]));
    assert(names.take(hi)[lo] == names[lo]);
    assert(names.take(hi).contains(names[lo]));
}

/// The Tables of a plan are those of the graph, and its fused node is new.
pub proof fn tables_of_plan(g: GraphModel, dialect: Dialect, rule: MaterializeRule, p: FusionPlan)
    requires
        fusion_of(g, dialect, rule, p),
    ensures
        !g.contains_key(p.fused_id@),
        forall|k: int| 0 <= k < p.tables@.len() ==> table_ids(g).contains((#[trigger] p.tables@[k]).node_id@),
        forall|id: Text|
            table_ids(g).contains(id) ==> exists|k: int|
                0 <= k < p.tables@.len() && (#[trigger] p.tables@[k]).node_id@ == id,
{
    let (ids, closure, names) = choose|ids: Seq<Text>, closure: Seq<Text>, names: Seq<Text>|
        #[trigger] listing(ids, table_ids(g)) && #[trigger] listing(closure, upstream(g, table_ids(g))) && #[trigger] plans(
            g,
            dialect,
            rule,
            ids,
            closure,
            names,
            p,
        );
    assert forall|k: int| 0 <= k < p.tables@.len() implies table_ids(g).contains((#[trigger] p.tables@[k]).node_id@) by {
        assert(table_planned(g, ids, closure, names, p.tables@, k));
        assert(ids.contains(ids[k]));
        assert(ids.to_set().contains(ids[k]));
    }
    assert forall|id: Text| table_ids(g).contains(id) implies exists|k: int|
        0 <= k < p.tables@.len() && (#[trigger] p.tables@[k]).node_id@ == id by {
        assert(ids.to_set().contains(id));
        let k = choose|k: int| 0 <= k < ids.len() && ids[k] == id;
        assert(table_planned(g, ids, closure, names, p.tables@, k));
        assert(p.tables@[k].node_id@ == id);
    }
}

/// The shape of a fused graph: the fused node is new and reads nothing; every
/// Table reads the fused node alone, and keeps its schema; every other node
/// stays as it was.
pub proof fn fused_graph_shape(g: GraphModel, dialect: Dialect, rule: MaterializeRule, p: FusionPlan)
    requires
        fusion_of(g, dialect, rule, p),
    ensures
        ({
            let after = fused_graph(g, dialect, p);
            &&& !g.contains_key(p.fused_id@)
            &&& after.dom() == g.dom().insert(p.fused_id@)
            &&& after[p.fused_id@] == fused_node(g, dialect, p)
            &&& forall|id: Text| #[trigger]
                table_ids(g).contains(id) ==> after[id].depends_on == set![p.fused_id@] && after[id].schema == g[id].schema
                    && after[id].materialize == MaterializeMode::Table && after[id].id == g[id].id
            &&& forall|id: Text| #[trigger] g.contains_key(id) && !table_ids(g).contains(id) ==> after[id] == g[id]
        }),
{
    let after = fused_graph(g, dialect, p);
    let start = g.insert(p.fused_id@, fused_node(g, dialect, p));
    tables_of_plan(g, dialect, rule, p);
    assert forall|k: int| 0 <= k < p.tables@.len() implies start.contains_key((#[trigger] p.tables@[k]).node_id@) by {
        assert(table_ids(g).contains(p.tables@[k].node_id@));
    }
    crate::fusion::projected_keeps(start, p, p.tables@.len());
    assert(after.dom() =~= g.dom().insert(p.fused_id@));
    assert(after[p.fused_id@] == fused_node(g, dialect, p)) by {
        assert(start.contains_key(p.fused_id@));
        assert forall|k: int| 0 <= k < p.tables@.len() implies (#[trigger] p.tables@[k]).node_id@ != p.fused_id@ by {
            assert(table_ids(g).contains(p.tables@[k].node_id@));
        }
        assert(projected(start, p, p.tables@.len())[p.fused_id@] == start[p.fused_id@]);
    }
    assert forall|id: Text| #[trigger] table_ids(g).contains(id) implies after[id].depends_on == set![p.fused_id@]
        && after[id].schema == g[id].schema && after[id].materialize == MaterializeMode::Table && after[id].id == g[id].id by {
        let k = choose|k: int| 0 <= k < p.tables@.len() && (#[trigger] p.tables@[k]).node_id@ == id;
        assert(projected(start, p, p.tables@.len())[p.tables@[k].node_id@].depends_on == set![p.fused_id@]);
        assert(start.contains_key(id));
        assert(start[id] == g[id]);
    }
    assert forall|id: Text| #[trigger] g.contains_key(id) && !table_ids(g).contains(id) implies after[id] == g[id] by {
        assert forall|k: int| 0 <= k < p.tables@.len() implies (#[trigger] p.tables@[k]).node_id@ != id by {
            assert(table_ids(g).contains(p.tables@[k].node_id@));
        }
        assert(start.contains_key(id));
        assert(projected(start, p, p.tables@.len())[id] == start[id]);
    }
}

proof fn projected_same(g: GraphModel, p: FusionPlan, q: FusionPlan, n: nat)
    requires
        same_plan(p, q),
        n <= p.tables@.len(),
    ensures
        projected(g, p, n) == projected(g, q, n),
    decreases n,
{
    if n > 0 {
        projected_same(g, p, q, (n - 1) as nat);
        let s = p.tables@[n - 1];
        let t = q.tables@[n - 1];
        assert(same_table(s, t));
        let f = |c: ColumnPlan| "\""@ + c.fused@ + "\" AS \""@ + c.original@ + "\""@;
        assert(s.columns@.map_values(f) =~= t.columns@.map_values(f)) by {
            assert(originals(s.columns@).len() == s.columns@.len());
            assert(originals(t.columns@).len() == t.columns@.len());
            assert forall|i: int| 0 <= i < s.columns@.len() implies s.columns@.map_values(f)[i] == t.columns@.map_values(f)[i] by {
                assert(originals(s.columns@)[i] == s.columns@[i].original@);
                assert(originals(t.columns@)[i] == t.columns@[i].original@);
                assert(fused_names(s.columns@)[i] == s.columns@[i].fused@);
                assert(fused_names(t.columns@)[i] == t.columns@[i].fused@);
            }
        }
        assert(projection_text(s, p.fused_id@) == projection_text(t, q.fused_id@));
    }
}

/// What fusing makes of a graph is a function of the graph, the dialect and the
/// rule.
pub proof fn fused_graph_is_determined(g: GraphModel, dialect: Dialect, rule: MaterializeRule, p: FusionPlan, q: FusionPlan)
    requires
        fusion_of(g, dialect, rule, p),
        fusion_of(g, dialect, rule, q),
    ensures
        fused_graph(g, dialect, p) == fused_graph(g, dialect, q),
{
    fusion_is_determined(g, dialect, rule, p, q);
    fused_text_is_determined(g, dialect, rule, p, q);
    projected_same(g.insert(p.fused_id@, fused_node(g, dialect, p)), p, q, p.tables@.len());
}

/// Fusing makes no cycle.
pub proof fn fusing_makes_no_cycle(g: GraphModel, dialect: Dialect, rule: MaterializeRule, p: FusionPlan)
    requires
        sorts(g),
        fusion_of(g, dialect, rule, p),
    ensures
        sorts(fused_graph(g, dialect, p)),
{
    let after = fused_graph(g, dialect, p);
    fused_graph_shape(g, dialect, rule, p);
    assert forall|id: Text| #[trigger] after.contains_key(id) implies grounded(after, id) by {
        assert forall|s: Set<Text>| #[trigger] closed_ground(after, s) implies s.contains(id) by {
            assert(after.contains_key(p.fused_id@));
            assert(s.contains(p.fused_id@)) by {
                assert(forall|a: Text| !reads(after, p.fused_id@, a));
            }
            assert(closed_ground(g, s)) by {
                assert forall|x: Text|
                    g.contains_key(x) && (forall|a: Text| reads(g, x, a) && g.contains_key(a) ==> #[trigger] s.contains(a)) implies #[trigger] s.contains(
                    x,
                ) by {
                    assert(after.contains_key(x));
                    assert forall|a: Text| reads(after, x, a) && after.contains_key(a) implies #[trigger] s.contains(a) by {
                        if table_ids(g).contains(x) {
                            assert(set![p.fused_id@].contains(a));
                        } else {
                            assert(reads(g, x, a));
                            if a != p.fused_id@ {
                                assert(g.contains_key(a));
                            }
                        }
                    }
                }
            }
            if id != p.fused_id@ {
                assert(g.contains_key(id));
                assert(grounded(g, id));
            }
        }
    }
}

/// Where every node reads nodes of the graph alone, it does so after fusing.
pub proof fn fusing_keeps_reads_inside(g: GraphModel, dialect: Dialect, rule: MaterializeRule, p: FusionPlan, b: Text, a: Text)
    requires
        fusion_of(g, dialect, rule, p),
        forall|x: Text, y: Text| #[trigger] reads(g, x, y) ==> g.contains_key(y),
        reads(fused_graph(g, dialect, p), b, a),
    ensures
        fused_graph(g, dialect, p).contains_key(a),
{
    let after = fused_graph(g, dialect, p);
    fused_graph_shape(g, dialect, rule, p);
    assert(after.dom().contains(b));
    if b == p.fused_id@ {
    } else if table_ids(g).contains(b) {
        assert(set![p.fused_id@].contains(a));
        assert(after.dom().contains(p.fused_id@));
    } else {
        assert(g.contains_key(b));
        assert(reads(g, b, a));
        assert(after.dom().contains(a));
    }
}

/// A fused graph is not fused again: its Tables read a TempTable.
pub proof fn fusing_twice_is_refused(g: GraphModel, dialect: Dialect, rule: MaterializeRule, p: FusionPlan)
    requires
        fusion_of(g, dialect, rule, p),
    ensures
        temp_table_upstream(fused_graph(g, dialect, p)),
{
    let after = fused_graph(g, dialect, p);
    fused_graph_shape(g, dialect, rule, p);
    tables_of_plan(g, dialect, rule, p);
    let t = p.tables@[0].node_id@;
    assert(table_ids(g).contains(t));
    assert(after.dom().contains(t));
    assert(table_ids(after).contains(t));
    upstream_closed(after, table_ids(after));
    assert(upstream(after, table_ids(after)).contains(t));
    assert(set![p.fused_id@].contains(p.fused_id@));
    assert(reads(after, t, p.fused_id@));
    assert(after.dom().contains(p.fused_id@));
    assert(upstream(after, table_ids(after)).contains(p.fused_id@));
}

} // verus!
