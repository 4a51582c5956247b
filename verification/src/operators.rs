//! Ranking Views by the operators of their plans: what an operator takes in
//! the plans of the tables is laid at the door of every View whose own plan
//! has the same operator.

use vstd::prelude::*;

use crate::dag::{models, Dag, MaterializeMode, NodeModel};
use crate::order::{order_positions, stable_order};
use crate::plan::{cap64, PlanNode};
use crate::ranking::{find_plan, make_row, plain_row, plan_in, rank_rows, rankable, ranked, row_models, NodeRankingRow, NodeStat, RowModel};
use crate::text::{at_most, decimal, decimal_text, text_eq, text_le, text_le_antisymmetric, text_le_total, text_le_transitive, texts, Text};

verus! {

/// What operators of different plans are matched by: the name and the rows
/// that were expected.
pub type KeyModel = (Text, u64);

/// An operator's name and the rows it was expected to emit.
#[derive(Debug)]
pub struct OpKey {
    pub name: String,
    pub cardinality: u64,
}

impl View for OpKey {
    type V = KeyModel;

    open spec fn view(&self) -> KeyModel {
        (self.name@, self.cardinality)
    }
}

impl OpKey {
    /// A copy of the key.
    pub fn copy(&self) -> (r: OpKey)
        ensures
            r@ == self@,
    {
        OpKey { name: self.name.clone(), cardinality: self.cardinality }
    }
}

/// Whether two keys are the same.
fn same_key(a: &OpKey, b: &OpKey) -> (r: bool)
    ensures
        r == (a@ == b@),
{
    a.cardinality == b.cardinality && text_eq(a.name.as_str(), b.name.as_str())
}

/// An operator of a plan, and the time it took.
#[derive(Debug)]
pub struct OpUse {
    pub key: OpKey,
    /// In nanoseconds.
    pub time: u64,
}

impl View for OpUse {
    type V = (KeyModel, u64);

    open spec fn view(&self) -> (KeyModel, u64) {
        (self.key@, self.time)
    }
}

/// The operators of a list.
pub open spec fn use_models(s: Seq<OpUse>) -> Seq<(KeyModel, u64)> {
    s.map_values(|u: OpUse| u@)
}

/// What an operator is matched by.
pub open spec fn key_of(n: PlanNode) -> KeyModel {
    (
        n.operator@,
        match n.estimated_cardinality {
            Some(c) => c,
            None => 0,
        },
    )
}

/// What an operator took.
pub open spec fn time_of(n: PlanNode) -> u64 {
    match n.exclusive_time {
        Some(t) => t,
        None => 0,
    }
}

/// The operators of a plan, each before those below it.
pub open spec fn uses_in(roots: Seq<PlanNode>) -> Seq<(KeyModel, u64)>
    decreases roots, roots.len(),
{
    if roots.len() == 0 {
        Seq::<(KeyModel, u64)>::empty()
    } else {
        uses_in(roots.drop_last()) + uses_at(roots.last())
    }
}

/// An operator and those below it.
pub open spec fn uses_at(n: PlanNode) -> Seq<(KeyModel, u64)>
    decreases n,
{
    seq![(key_of(n), time_of(n))] + uses_in(n.children@)
}

fn collect_below(n: &PlanNode, out: &mut Vec<OpUse>)
    ensures
        use_models(final(out)@) == use_models(old(out)@) + uses_at(*n),
    decreases n,
{
    let ghost before = use_models(out@);
    let key = OpKey {
        name: n.operator.clone(),
        cardinality: match n.estimated_cardinality {
            Some(c) => c,
            None => 0,
        },
    };
    let time: u64 = match n.exclusive_time {
        Some(t) => t,
        None => 0,
    };
    out.push(OpUse { key, time });
    let ghost first = (key_of(*n), time_of(*n));
    let mut i: usize = 0;
    proof {
        assert(n.children@.take(0) =~= Seq::<PlanNode>::empty());
        assert(use_models(out@) =~= before + seq![first] + uses_in(n.children@.take(0)));
    }
    while i < n.children.len()
        invariant
            i <= n.children@.len(),
            use_models(out@) == before + seq![first] + uses_in(n.children@.take(i as int)),
        decreases n.children@.len() - i,
    {
        proof {
            let t = n.children@.take(i + 1);
            assert(t.drop_last() =~= n.children@.take(i as int));
            assert(t.last() == n.children@[i as int]);
        }
        collect_below(&n.children[i], out);
        proof {
            assert(use_models(out@) =~= before + seq![first] + uses_in(n.children@.take(i + 1)));
        }
        i = i + 1;
    }
    proof {
        assert(n.children@.take(n.children@.len() as int) =~= n.children@);
        assert(use_models(out@) =~= before + (seq![first] + uses_in(n.children@)));
    }
}

/// Adds the operators of a plan to a list.
pub fn collect_operators(roots: &Vec<PlanNode>, out: &mut Vec<OpUse>)
    ensures
        use_models(final(out)@) == use_models(old(out)@) + uses_in(roots@),
{
    let ghost before = use_models(out@);
    let mut i: usize = 0;
    proof {
        assert(roots@.take(0) =~= Seq::<PlanNode>::empty());
        assert(use_models(out@) =~= before + uses_in(roots@.take(0)));
    }
    while i < roots.len()
        invariant
            i <= roots@.len(),
            use_models(out@) == before + uses_in(roots@.take(i as int)),
        decreases roots@.len() - i,
    {
        proof {
            let t = roots@.take(i + 1);
            assert(t.drop_last() =~= roots@.take(i as int));
            assert(t.last() == roots@[i as int]);
        }
        collect_below(&roots[i], out);
        proof {
            assert(use_models(out@) =~= before + uses_in(roots@.take(i + 1)));
        }
        i = i + 1;
    }
    proof {
        assert(roots@.take(roots@.len() as int) =~= roots@);
    }
}

/// The operators in the plans of the tables among the first `n` nodes.
pub open spec fn table_uses(listed: Seq<NodeModel>, stats: Seq<NodeStat>, n: nat) -> Seq<(KeyModel, u64)>
    decreases n,
{
    if n == 0 {
        Seq::<(KeyModel, u64)>::empty()
    } else {
        let rest = table_uses(listed, stats, (n - 1) as nat);
        match plan_in(stats, listed[n - 1].id) {
            Some(roots) => if listed[n - 1].materialize == MaterializeMode::Table {
                rest + uses_in(roots)
            } else {
                rest
            },
            None => rest,
        }
    }
}

/// The operators in the plans of a run's tables.
pub fn operators_of_tables(dag: &Dag, stats: &Vec<NodeStat>) -> (r: Vec<OpUse>)
    requires
        dag.wf(),
    ensures
        use_models(r@) == table_uses(dag.nodes.listed(), stats@, dag.nodes.listed().len()),
{
    let nodes = dag.nodes.nodes();
    let ghost listed = dag.nodes.listed();
    let mut out: Vec<OpUse> = Vec::new();
    let mut i: usize = 0;
    proof {
        assert(use_models(out@) =~= table_uses(listed, stats@, 0));
    }
    while i < nodes.len()
        invariant
            i <= nodes@.len(),
            models(nodes@) == listed,
            use_models(out@) == table_uses(listed, stats@, i as nat),
        decreases nodes@.len() - i,
    {
        let n = &nodes[i];
        proof {
            assert(models(nodes@)[i as int] == n@);
        }
        if n.materialize == MaterializeMode::Table {
            if let Some(roots) = find_plan(stats, n.id.as_str()) {
                collect_operators(roots, &mut out);
            }
        }
        i = i + 1;
    }
    out
}

/// `key` is the key of one of the operators.
pub open spec fn has_key(uses: Seq<(KeyModel, u64)>, key: KeyModel) -> bool {
    exists|i: int| 0 <= i < uses.len() && (#[trigger] uses[i]).0 == key
}

/// How often `key` occurs among the first `n` operators.
pub open spec fn key_count(uses: Seq<(KeyModel, u64)>, key: KeyModel, n: nat) -> nat
    decreases n,
{
    if n == 0 {
        0
    } else {
        key_count(uses, key, (n - 1) as nat) + if uses[n - 1].0 == key {
            1nat
        } else {
            0
        }
    }
}

/// What `key` takes among the first `n` operators together.
pub open spec fn key_time(uses: Seq<(KeyModel, u64)>, key: KeyModel, n: nat) -> nat
    decreases n,
{
    if n == 0 {
        0
    } else {
        key_time(uses, key, (n - 1) as nat) + if uses[n - 1].0 == key {
            uses[n - 1].1 as nat
        } else {
            0
        }
    }
}

/// An operator of the tables' plans: how often it occurs there and what it
/// takes on average.
#[derive(Debug)]
pub struct OperatorStat {
    pub key: OpKey,
    /// In nanoseconds.
    pub average: u64,
    pub occurrences: usize,
}

/// By name, then by the rows expected.
pub open spec fn key_le(a: KeyModel, b: KeyModel) -> bool {
    if a.0 == b.0 {
        a.1 <= b.1
    } else {
        text_le(a.0, b.0)
    }
}

/// `list` are the operators among `uses`, each key once and in order, with its
/// occurrences and its average time.
pub open spec fn are_operator_stats(uses: Seq<(KeyModel, u64)>, list: Seq<OperatorStat>) -> bool {
    &&& forall|i: int|
        0 <= i < list.len() ==> has_key(uses, (#[trigger] list[i]).key@) && list[i].occurrences == key_count(
            uses,
            list[i].key@,
            uses.len(),
        ) && list[i].average == key_time(uses, list[i].key@, uses.len()) / key_count(uses, list[i].key@, uses.len())
    &&& forall|key: KeyModel| #[trigger] has_key(uses, key) ==> stat_listed(list, key)
    &&& forall|i: int, j: int|
        0 <= i < j < list.len() ==> (#[trigger] list[i]).key@ != (#[trigger] list[j]).key@ && key_le(
            list[i].key@,
            list[j].key@,
        )
}

/// `key` is among the operators.
pub open spec fn stat_listed(list: Seq<OperatorStat>, key: KeyModel) -> bool {
    exists|i: int| 0 <= i < list.len() && (#[trigger] list[i]).key@ == key
}

proof fn key_bounds(uses: Seq<(KeyModel, u64)>, key: KeyModel, n: nat)
    requires
        n <= uses.len(),
    ensures
        key_count(uses, key, n) <= n,
        key_time(uses, key, n) <= u64::MAX * key_count(uses, key, n),
        forall|i: int| 0 <= i < n && (#[trigger] uses[i]).0 == key ==> key_count(uses, key, n) > 0,
    decreases n,
{
    if n > 0 {
        key_bounds(uses, key, (n - 1) as nat);
        let c = key_count(uses, key, (n - 1) as nat);
        assert(u64::MAX * c + u64::MAX == u64::MAX * (c + 1)) by (nonlinear_arith);
    }
}

/// What one operator takes on average.
fn one_stat(uses: &Vec<OpUse>, key: &OpKey) -> (r: OperatorStat)
    requires
        has_key(use_models(uses@), key@),
    ensures
        r.key@ == key@,
        r.occurrences == key_count(use_models(uses@), key@, uses@.len()),
        r.average == key_time(use_models(uses@), key@, uses@.len()) / key_count(use_models(uses@), key@, uses@.len()),
{
    let ghost all = use_models(uses@);
    let mut count: usize = 0;
    let mut total: u128 = 0;
    let mut i: usize = 0;
    while i < uses.len()
        invariant
            i <= uses@.len(),
            all == use_models(uses@),
            count <= i,
            count == key_count(all, key@, i as nat),
            total == key_time(all, key@, i as nat),
        decreases uses@.len() - i,
    {
        proof {
            assert(all[i as int] == uses@[i as int]@);
            key_bounds(all, key@, i as nat);
            assert(u64::MAX * count + u64::MAX <= u128::MAX) by (nonlinear_arith)
                requires
                    count < usize::MAX,
                    usize::MAX <= u64::MAX,
            ;
        }
        if same_key(&uses[i].key, key) {
            count = count + 1;
            total = total + uses[i].time as u128;
        }
        i = i + 1;
    }
    proof {
        key_bounds(all, key@, all.len());
        let k = choose|k: int| 0 <= k < all.len() && (#[trigger] all[k]).0 == key@;
        assert(count > 0);
        assert(total / count as u128 <= u64::MAX) by (nonlinear_arith)
            requires
                total <= u64::MAX * count,
                count > 0,
        ;
    }
    let average: u128 = total / count as u128;
    OperatorStat { key: key.copy(), average: average as u64, occurrences: count }
}

/// Whether a key is among the operators met so far.
fn is_met(list: &Vec<OperatorStat>, key: &OpKey) -> (r: bool)
    ensures
        r == stat_listed(list@, key@),
{
    let mut i: usize = 0;
    while i < list.len()
        invariant
            i <= list@.len(),
            forall|k: int| 0 <= k < i ==> (#[trigger] list@[k]).key@ != key@,
        decreases list@.len() - i,
    {
        if same_key(&list[i].key, key) {
            return true;
        }
        i = i + 1;
    }
    false
}

/// The stat is right for its key.
spec fn right_stat(uses: Seq<(KeyModel, u64)>, s: OperatorStat) -> bool {
    has_key(uses, s.key@) && s.occurrences == key_count(uses, s.key@, uses.len()) && s.average == key_time(
        uses,
        s.key@,
        uses.len(),
    ) / key_count(uses, s.key@, uses.len())
}

proof fn still_met(list: Seq<OperatorStat>, s: OperatorStat, key: KeyModel)
    requires
        stat_listed(list, key) || s.key@ == key,
    ensures
        stat_listed(list.push(s), key),
{
    let more = list.push(s);
    if stat_listed(list, key) {
        let k = choose|k: int| 0 <= k < list.len() && (#[trigger] list[k]).key@ == key;
        assert(more[k].key@ == key);
    } else {
        assert(more[list.len() as int].key@ == key);
    }
}

/// The operators in the order in which they are met.
fn meet_operators(uses: &Vec<OpUse>) -> (r: Vec<OperatorStat>)
    ensures
        forall|i: int| 0 <= i < r@.len() ==> right_stat(use_models(uses@), #[trigger] r@[i]),
        forall|key: KeyModel| #[trigger] has_key(use_models(uses@), key) ==> stat_listed(r@, key),
        forall|i: int, j: int| 0 <= i < j < r@.len() ==> (#[trigger] r@[i]).key@ != (#[trigger] r@[j]).key@,
{
    let ghost all = use_models(uses@);
    let mut list: Vec<OperatorStat> = Vec::new();
    let mut i: usize = 0;
    while i < uses.len()
        invariant
            i <= uses@.len(),
            all == use_models(uses@),
            forall|k: int| 0 <= k < list@.len() ==> right_stat(all, #[trigger] list@[k]),
            forall|k: int| 0 <= k < i ==> stat_listed(list@, (#[trigger] all[k]).0),
            forall|k: int, j: int| 0 <= k < j < list@.len() ==> (#[trigger] list@[k]).key@ != (#[trigger] list@[j]).key@,
        decreases uses@.len() - i,
    {
        proof {
            assert(all[i as int] == uses@[i as int]@);
        }
        if !is_met(&list, &uses[i].key) {
            let ghost had = list@;
            let s = one_stat(uses, &uses[i].key);
            proof {
                assert(right_stat(all, s));
                assert forall|k: int| 0 <= k <= i implies stat_listed(had.push(s), (#[trigger] all[k]).0) by {
                    still_met(had, s, all[k].0);
                }
                assert forall|k: int, j: int| 0 <= k < j < had.push(s).len() implies (#[trigger] had.push(s)[k]).key@
                    != (#[trigger] had.push(s)[j]).key@ by {
                    if j == had.len() {
                        assert(had[k].key@ != s.key@);
                    }
                }
            }
            list.push(s);
        }
        i = i + 1;
    }
    proof {
        assert forall|key: KeyModel| #[trigger] has_key(all, key) implies stat_listed(list@, key) by {
            let k = choose|k: int| 0 <= k < all.len() && (#[trigger] all[k]).0 == key;
            assert(stat_listed(list@, all[k].0));
        }
    }
    list
}

/// The keys of operators.
spec fn keys_of(list: Seq<OperatorStat>) -> Seq<KeyModel> {
    list.map_values(|s: OperatorStat| s.key@)
}

proof fn key_order_holds(items: Seq<KeyModel>)
    ensures
        crate::order::orders(items, |a: KeyModel, b: KeyModel| key_le(a, b)),
{
    let le = |a: KeyModel, b: KeyModel| key_le(a, b);
    assert forall|i: int, j: int| 0 <= i < items.len() && 0 <= j < items.len() implies #[trigger] le(items[i], items[j])
        || le(items[j], items[i]) by {
        text_le_total(items[i].0, items[j].0);
    }
    assert forall|i: int, j: int, k: int|
        0 <= i < items.len() && 0 <= j < items.len() && 0 <= k < items.len() && #[trigger] le(items[i], items[j])
            && #[trigger] le(items[j], items[k]) implies le(items[i], items[k]) by {
        if items[i].0 != items[j].0 && items[j].0 != items[k].0 {
            text_le_transitive(items[i].0, items[j].0, items[k].0);
            if items[i].0 == items[k].0 {
                text_le_antisymmetric(items[i].0, items[j].0);
            }
        }
    }
}

/// The operators in the plans of a run's tables, each with its average time
/// over its occurrences.
pub fn operator_stats(uses: &Vec<OpUse>) -> (r: Vec<OperatorStat>)
    ensures
        are_operator_stats(use_models(uses@), r@),
{
    let ghost all = use_models(uses@);
    let list = meet_operators(uses);
    let ghost items = keys_of(list@);
    let ghost le = |a: KeyModel, b: KeyModel| key_le(a, b);
    proof {
        key_order_holds(items);
    }
    let before = |a: usize, b: usize| -> (r: bool)
        requires
            a < list@.len(),
            b < list@.len(),
        ensures
            r == key_le(list@[a as int].key@, list@[b as int].key@),
        {
            let x = &list[a].key;
            let y = &list[b].key;
            if text_eq(x.name.as_str(), y.name.as_str()) {
                x.cardinality <= y.cardinality
            } else {
                at_most(x.name.as_str(), y.name.as_str())
            }
        };
    proof {
        assert forall|a: usize, b: usize, r: bool|
            a < list@.len() && b < list@.len() && call_ensures(before, (a, b), r) implies r == le(
            items[a as int],
            items[b as int],
        ) by {
            assert(items[a as int] == list@[a as int].key@);
            assert(items[b as int] == list@[b as int].key@);
        }
    }
    let p = order_positions::<KeyModel, _>(Ghost(items), Ghost(le), list.len(), before);
    let mut out: Vec<OperatorStat> = Vec::new();
    let mut i: usize = 0;
    while i < p.len()
        invariant
            i <= p@.len(),
            all == use_models(uses@),
            items == keys_of(list@),
            stable_order(p@, items, le),
            forall|k: int| 0 <= k < list@.len() ==> right_stat(all, #[trigger] list@[k]),
            out@.len() == i,
            forall|k: int| 0 <= k < i ==> right_stat(all, #[trigger] out@[k]) && out@[k].key@ == items[p@[k] as int],
        decreases p@.len() - i,
    {
        let s = &list[p[i]];
        proof {
            assert(items[p@[i as int] as int] == s.key@);
            assert(right_stat(all, *s));
        }
        out.push(OperatorStat { key: s.key.copy(), average: s.average, occurrences: s.occurrences });
        i = i + 1;
    }
    proof {
        assert forall|i: int| 0 <= i < out@.len() implies has_key(all, (#[trigger] out@[i]).key@) && out@[i].occurrences
            == key_count(all, out@[i].key@, all.len()) && out@[i].average == key_time(all, out@[i].key@, all.len())
            / key_count(all, out@[i].key@, all.len()) by {
            assert(right_stat(all, out@[i]));
        }
        assert forall|key: KeyModel| #[trigger] has_key(all, key) implies stat_listed(out@, key) by {
            assert(stat_listed(list@, key));
            let k = choose|k: int| 0 <= k < list@.len() && (#[trigger] list@[k]).key@ == key;
            assert(p@.contains(k as usize));
            let m = choose|m: int| 0 <= m < p@.len() && p@[m] == k as usize;
            assert(out@[m].key@ == items[k]);
        }
        assert forall|i: int, j: int| 0 <= i < j < out@.len() implies (#[trigger] out@[i]).key@ != (
        #[trigger] out@[j]).key@ && key_le(out@[i].key@, out@[j].key@) by {
            let a = p@[i] as int;
            let b = p@[j] as int;
            assert(p@[i] != p@[j]);
            assert(le(items[a], items[b]));
            if a < b {
                assert(list@[a].key@ != list@[b].key@);
            } else {
                assert(list@[b].key@ != list@[a].key@);
            }
        }
    }
    out
}

/// The View's own plan has the operator.
pub open spec fn traces(stats: Seq<NodeStat>, n: NodeModel, key: KeyModel) -> bool {
    n.materialize == MaterializeMode::View && match plan_in(stats, n.id) {
        Some(roots) => has_key(uses_in(roots), key),
        None => false,
    }
}

/// Those of the first `n` nodes that are Views whose own plan has the operator.
pub open spec fn traced_views(listed: Seq<NodeModel>, stats: Seq<NodeStat>, key: KeyModel, n: nat) -> Seq<Text>
    decreases n,
{
    if n == 0 {
        Seq::<Text>::empty()
    } else {
        let rest = traced_views(listed, stats, key, (n - 1) as nat);
        if traces(stats, listed[n - 1], key) {
            rest.push(listed[n - 1].id)
        } else {
            rest
        }
    }
}

/// Whether a key is among operators.
fn holds_key(uses: &Vec<OpUse>, key: &OpKey) -> (r: bool)
    ensures
        r == has_key(use_models(uses@), key@),
{
    let ghost all = use_models(uses@);
    let mut i: usize = 0;
    while i < uses.len()
        invariant
            i <= uses@.len(),
            all == use_models(uses@),
            forall|k: int| 0 <= k < i ==> (#[trigger] all[k]).0 != key@,
        decreases uses@.len() - i,
    {
        proof {
            assert(all[i as int] == uses@[i as int]@);
        }
        if same_key(&uses[i].key, key) {
            return true;
        }
        i = i + 1;
    }
    false
}

/// The Views whose own plans have the operator.
pub fn find_traced_views(dag: &Dag, key: &OpKey, stats: &Vec<NodeStat>) -> (r: Vec<String>)
    requires
        dag.wf(),
    ensures
        texts(r@) == traced_views(dag.nodes.listed(), stats@, key@, dag.nodes.listed().len()),
{
    let nodes = dag.nodes.nodes();
    let ghost listed = dag.nodes.listed();
    let mut out: Vec<String> = Vec::new();
    let mut i: usize = 0;
    proof {
        assert(texts(out@) =~= traced_views(listed, stats@, key@, 0));
    }
    while i < nodes.len()
        invariant
            i <= nodes@.len(),
            models(nodes@) == listed,
            texts(out@) == traced_views(listed, stats@, key@, i as nat),
        decreases nodes@.len() - i,
    {
        let n = &nodes[i];
        let ghost had = texts(out@);
        proof {
            assert(models(nodes@)[i as int] == n@);
        }
        if n.materialize == MaterializeMode::View {
            if let Some(roots) = find_plan(stats, n.id.as_str()) {
                let mut own: Vec<OpUse> = Vec::new();
                collect_operators(roots, &mut own);
                proof {
                    assert(use_models(own@) =~= uses_in(roots@));
                }
                if holds_key(&own, key) {
                    out.push(n.id.clone());
                    proof {
                        assert(texts(out@) =~= had.push(n@.id));
                    }
                }
            }
        }
        i = i + 1;
    }
    out
}

/// One operator of the table that is shown.
#[derive(Debug)]
pub struct OperatorRankingRow {
    pub rank: usize,
    pub operator: String,
    /// In nanoseconds.
    pub average: u64,
    pub table_occurrences: usize,
    pub traced_views: Vec<String>,
}

/// An operator in words.
pub open spec fn key_text(key: KeyModel) -> Text {
    key.0 + "(cardinality="@ + decimal(key.1 as nat) + ")"@
}

/// The rows show the operators of `list`, in its order.
pub open spec fn shows_operators(
    listed: Seq<NodeModel>,
    stats: Seq<NodeStat>,
    list: Seq<OperatorStat>,
    rows: Seq<OperatorRankingRow>,
) -> bool {
    &&& rows.len() == list.len()
    &&& forall|i: int|
        0 <= i < rows.len() ==> {
            let row = #[trigger] rows[i];
            &&& row.rank == i + 1
            &&& row.operator@ == key_text(list[i].key@)
            &&& row.average == list[i].average
            &&& row.table_occurrences == list[i].occurrences
            &&& texts(row.traced_views@) == traced_views(listed, stats, list[i].key@, listed.len())
        }
}

/// The table of operators.
pub fn build_operator_table(dag: &Dag, stats: &Vec<NodeStat>, list: &Vec<OperatorStat>) -> (r: Vec<OperatorRankingRow>)
    requires
        dag.wf(),
    ensures
        shows_operators(dag.nodes.listed(), stats@, list@, r@),
{
    let mut out: Vec<OperatorRankingRow> = Vec::new();
    let count: usize = list.len();
    let mut i: usize = 0;
    while i < count
        invariant
            i <= count,
            count == list@.len(),
            dag.wf(),
            out@.len() == i,
            shows_operators(dag.nodes.listed(), stats@, list@.take(i as int), out@),
        decreases count - i,
    {
        let s = &list[i];
        let mut operator = s.key.name.clone();
        operator.append("(cardinality=");
        operator.append(decimal_text(s.key.cardinality).as_str());
        operator.append(")");
        proof {
            assert(operator@ =~= key_text(s.key@));
        }
        out.push(
            OperatorRankingRow {
                rank: i + 1,
                operator,
                average: s.average,
                table_occurrences: s.occurrences,
                traced_views: find_traced_views(dag, &s.key, stats),
            },
        );
        i = i + 1;
    }
    proof {
        assert(list@.take(list@.len() as int) =~= list@);
    }
    out
}

/// What the first `n` of `items` come to whose operators the View's plan has.
pub open spec fn traced_total(items: Seq<(KeyModel, u64)>, own: Seq<(KeyModel, u64)>, n: nat) -> nat
    decreases n,
{
    if n == 0 {
        0
    } else {
        traced_total(items, own, (n - 1) as nat) + if has_key(own, items[n - 1].0) {
            items[n - 1].1 as nat
        } else {
            0
        }
    }
}

/// Some item's operator is in the View's plan.
pub open spec fn any_traced(items: Seq<(KeyModel, u64)>, own: Seq<(KeyModel, u64)>) -> bool {
    exists|i: int| 0 <= i < items.len() && has_key(own, (#[trigger] items[i]).0)
}

/// Twice the rows that the first root of a plan was expected to make.
pub open spec fn expected_rows(roots: Seq<PlanNode>) -> Option<u128> {
    if roots.len() == 0 {
        None
    } else {
        match roots[0].estimated_cardinality {
            Some(n) => Some((2 * n) as u128),
            None => None,
        }
    }
}

/// The rankable Views among the first `n` nodes to which an item can be traced.
pub open spec fn traced_rows(
    listed: Seq<NodeModel>,
    stats: Seq<NodeStat>,
    items: Seq<(KeyModel, u64)>,
    normalize: bool,
    n: nat,
) -> Seq<RowModel>
    decreases n,
{
    if n == 0 {
        Seq::<RowModel>::empty()
    } else {
        let rest = traced_rows(listed, stats, items, normalize, (n - 1) as nat);
        let v = listed[n - 1];
        match plan_in(stats, v.id) {
            Some(roots) => if rankable(listed, v) && any_traced(items, uses_in(roots)) {
                rest.push(
                    plain_row(
                        v.id,
                        cap64(traced_total(items, uses_in(roots), items.len())),
                        expected_rows(roots),
                        normalize,
                    ),
                )
            } else {
                rest
            },
            None => rest,
        }
    }
}

/// What of `items` can be traced to a plan; None where nothing can.
fn trace_total(items: &Vec<OpUse>, own: &Vec<OpUse>) -> (r: Option<u64>)
    ensures
        r is Some == any_traced(use_models(items@), use_models(own@)),
        r matches Some(t) ==> t == cap64(traced_total(use_models(items@), use_models(own@), items@.len())),
{
    let ghost all = use_models(items@);
    let ghost of = use_models(own@);
    let mut any = false;
    let mut total: u128 = 0;
    let mut i: usize = 0;
    while i < items.len()
        invariant
            i <= items@.len(),
            all == use_models(items@),
            of == use_models(own@),
            total == traced_total(all, of, i as nat),
            total <= u64::MAX * i,
            any == exists|k: int| 0 <= k < i && has_key(of, (#[trigger] all[k]).0),
        decreases items@.len() - i,
    {
        proof {
            assert(all[i as int] == items@[i as int]@);
            assert(u64::MAX * i + u64::MAX == u64::MAX * (i + 1)) by (nonlinear_arith);
            assert(u64::MAX * (i + 1) <= u128::MAX) by (nonlinear_arith)
                requires
                    i < usize::MAX,
                    usize::MAX <= u64::MAX,
            ;
        }
        if holds_key(own, &items[i].key) {
            proof {
                assert(has_key(of, all[i as int].0));
            }
            any = true;
            total = total + items[i].time as u128;
        }
        i = i + 1;
    }
    if !any {
        return None;
    }
    if total <= u64::MAX as u128 {
        Some(total as u64)
    } else {
        Some(u64::MAX)
    }
}

/// Ranks Views by what of `items` can be traced to each.
pub fn build_node_table(dag: &Dag, stats: &Vec<NodeStat>, items: &Vec<OpUse>, normalize: bool) -> (r: Vec<NodeRankingRow>)
    requires
        dag.wf(),
    ensures
        ranked(
            r@,
            traced_rows(dag.nodes.listed(), stats@, use_models(items@), normalize, dag.nodes.listed().len()),
        ),
{
    let g = &dag.nodes;
    let nodes = g.nodes();
    let ghost listed = g.listed();
    let ghost all = use_models(items@);
    let mut rows: Vec<NodeRankingRow> = Vec::new();
    let mut i: usize = 0;
    proof {
        assert(row_models(rows@) =~= traced_rows(listed, stats@, all, normalize, 0));
    }
    while i < nodes.len()
        invariant
            i <= nodes@.len(),
            g.wf(),
            listed == g.listed(),
            models(nodes@) == listed,
            all == use_models(items@),
            row_models(rows@) == traced_rows(listed, stats@, all, normalize, i as nat),
        decreases nodes@.len() - i,
    {
        let n = &nodes[i];
        let ghost had = row_models(rows@);
        proof {
            assert(models(nodes@)[i as int] == n@);
        }
        if n.materialize == MaterializeMode::View && g.is_branch_point(n.id.as_str()) {
            if let Some(roots) = find_plan(stats, n.id.as_str()) {
                let mut own: Vec<OpUse> = Vec::new();
                collect_operators(roots, &mut own);
                proof {
                    assert(use_models(own@) =~= uses_in(roots@));
                }
                if let Some(total) = trace_total(items, &own) {
                    let rows_expected: Option<u128> = if roots.len() == 0 {
                        None
                    } else {
                        match roots[0].estimated_cardinality {
                            Some(c) => Some(2 * (c as u128)),
                            None => None,
                        }
                    };
                    let row = make_row(n.id.as_str(), total, rows_expected, normalize);
                    let ghost model = row@;
                    rows.push(row);
                    proof {
                        assert(row_models(rows@) =~= had.push(model));
                    }
                }
            }
        }
        i = i + 1;
    }
    rank_rows(&rows)
}

/// The operators of a list with their averages.
pub open spec fn averages(list: Seq<OperatorStat>) -> Seq<(KeyModel, u64)> {
    list.map_values(|s: OperatorStat| (s.key@, s.average))
}

/// `items` is what a run's Views are charged with: every operator of the
/// tables' plans with the time it took, or each operator once with its average.
pub open spec fn is_charged(
    listed: Seq<NodeModel>,
    stats: Seq<NodeStat>,
    downstream: bool,
    items: Seq<(KeyModel, u64)>,
) -> bool {
    let uses = table_uses(listed, stats, listed.len());
    if downstream {
        items == uses
    } else {
        exists|list: Seq<OperatorStat>| #[trigger] are_operator_stats(uses, list) && items == averages(list)
    }
}

/// What a run's Views are charged with.
pub fn charge(dag: &Dag, stats: &Vec<NodeStat>, downstream: bool) -> (r: Vec<OpUse>)
    requires
        dag.wf(),
    ensures
        is_charged(dag.nodes.listed(), stats@, downstream, use_models(r@)),
{
    let uses = operators_of_tables(dag, stats);
    if downstream {
        return uses;
    }
    let list = operator_stats(&uses);
    let mut out: Vec<OpUse> = Vec::new();
    let mut i: usize = 0;
    while i < list.len()
        invariant
            i <= list@.len(),
            out@.len() == i,
            forall|k: int| 0 <= k < i ==> (#[trigger] out@[k])@ == averages(list@)[k],
        decreases list@.len() - i,
    {
        out.push(OpUse { key: list[i].key.copy(), time: list[i].average });
        i = i + 1;
    }
    proof {
        assert(use_models(out@) =~= averages(list@));
        assert(are_operator_stats(use_models(uses@), list@));
    }
    out
}

/// Views by the operators of their plans.
pub fn ranking_by_signature(dag: &Dag, stats: &Vec<NodeStat>, downstream: bool, normalize: bool) -> (r: Vec<NodeRankingRow>)
    requires
        dag.wf(),
    ensures
        signature_ranking(dag.nodes.listed(), stats@, downstream, normalize, r@),
{
    let items = charge(dag, stats, downstream);
    let r = build_node_table(dag, stats, &items, normalize);
    proof {
        let all = use_models(items@);
        let listed = dag.nodes.listed();
        assert(is_charged(listed, stats@, downstream, all));
        assert(ranked(r@, traced_rows(listed, stats@, all, normalize, listed.len())));
    }
    r
}

/// `rows` is the ranking of Views by the operators of their plans.
pub open spec fn signature_ranking(
    listed: Seq<NodeModel>,
    stats: Seq<NodeStat>,
    downstream: bool,
    normalize: bool,
    rows: Seq<NodeRankingRow>,
) -> bool {
    exists|items: Seq<(KeyModel, u64)>|
        #[trigger] is_charged(listed, stats, downstream, items) && ranked(
            rows,
            traced_rows(listed, stats, items, normalize, listed.len()),
        )
}

/// Every operator of a plan is listed, an operator before those below it.
pub proof fn every_operator_is_listed(a: Seq<PlanNode>, b: Seq<PlanNode>, n: PlanNode)
    ensures
        uses_in(a + b) == uses_in(a) + uses_in(b),
        uses_in(seq![n]) == seq![(key_of(n), time_of(n))] + uses_in(n.children@),
        uses_in(Seq::<PlanNode>::empty()).len() == 0,
        key_of(n).0 == n.operator@,
        n.estimated_cardinality is Some ==> key_of(n).1 == n.estimated_cardinality->0,
        n.exclusive_time is Some ==> time_of(n) == n.exclusive_time->0,
        n.exclusive_time is None ==> time_of(n) == 0,
    decreases b.len(),
{
    assert(seq![n].drop_last() =~= Seq::<PlanNode>::empty());
    assert(uses_in(Seq::<PlanNode>::empty()) =~= Seq::<(KeyModel, u64)>::empty());
    assert(seq![n].last() == n);
    assert(uses_in(seq![n]) =~= uses_at(n));
    if b.len() == 0 {
        assert(a + b =~= a);
        assert(uses_in(a) + uses_in(b) =~= uses_in(a));
    } else {
        every_operator_is_listed(a, b.drop_last(), n);
        assert((a + b).drop_last() =~= a + b.drop_last());
        assert((a + b).last() == b.last());
        assert(uses_in(a + b) =~= uses_in(a) + uses_in(b));
    }
}

proof fn uses_taken(a: Seq<(KeyModel, u64)>, b: Seq<(KeyModel, u64)>, key: KeyModel, n: nat)
    requires
        n <= a.len(),
        n <= b.len(),
        forall|i: int| 0 <= i < n ==> a[i] == b[i],
    ensures
        key_count(a, key, n) == key_count(b, key, n),
        key_time(a, key, n) == key_time(b, key, n),
    decreases n,
{
    if n > 0 {
        uses_taken(a, b, key, (n - 1) as nat);
    }
}

/// Every use of an operator counts: one more with its key counts once and adds
/// its time, one with another key adds nothing.
pub proof fn every_use_counts(uses: Seq<(KeyModel, u64)>, use_: (KeyModel, u64), key: KeyModel)
    ensures
        key_count(uses.push(use_), key, uses.len() + 1) == key_count(uses, key, uses.len()) + (if use_.0 == key {
            1int
        } else {
            0
        }),
        key_time(uses.push(use_), key, uses.len() + 1) == key_time(uses, key, uses.len()) + (if use_.0 == key {
            use_.1 as int
        } else {
            0
        }),
        key_count(uses, key, 0) == 0 && key_time(uses, key, 0) == 0,
{
    let more = uses.push(use_);
    uses_taken(uses, more, key, uses.len());
    assert(more[uses.len() as int] == use_);
}

/// An operator's average is its time over how often it occurs, rounded down, and
/// every operator of the plans is listed once.
pub proof fn an_average_is_time_over_uses(uses: Seq<(KeyModel, u64)>, list: Seq<OperatorStat>, i: int, k: int)
    requires
        are_operator_stats(uses, list),
        0 <= i < list.len(),
        0 <= k < uses.len(),
    ensures
        list[i].occurrences > 0,
        list[i].average * list[i].occurrences <= key_time(uses, list[i].key@, uses.len()) < (list[i].average + 1)
            * list[i].occurrences,
        stat_listed(list, uses[k].0),
{
    let key = list[i].key@;
    let w = choose|w: int| 0 <= w < uses.len() && (#[trigger] uses[w]).0 == key;
    occurs(uses, key, uses.len(), w);
    let t = key_time(uses, key, uses.len()) as int;
    let c = key_count(uses, key, uses.len()) as int;
    assert(t / c * c <= t < (t / c + 1) * c) by (nonlinear_arith)
        requires
            c > 0,
    ;
    assert(has_key(uses, uses[k].0));
}

proof fn occurs(uses: Seq<(KeyModel, u64)>, key: KeyModel, n: nat, w: int)
    requires
        0 <= w < n <= uses.len(),
        uses[w].0 == key,
    ensures
        key_count(uses, key, n) > 0,
    decreases n,
{
    if w < n - 1 {
        occurs(uses, key, (n - 1) as nat, w);
    }
}

/// Every Table's plan counts: its operators come after those of the nodes
/// before it. Nothing else's does.
pub proof fn every_tables_plan_is_used(listed: Seq<NodeModel>, stats: Seq<NodeStat>, n: nat, roots: Seq<PlanNode>)
    requires
        0 < n <= listed.len(),
    ensures
        listed[n - 1].materialize == MaterializeMode::Table && plan_in(stats, listed[n - 1].id) == Some(roots) ==> table_uses(
            listed,
            stats,
            n,
        ) == table_uses(listed, stats, (n - 1) as nat) + uses_in(roots),
        listed[n - 1].materialize != MaterializeMode::Table || plan_in(stats, listed[n - 1].id) is None ==> table_uses(
            listed,
            stats,
            n,
        ) == table_uses(listed, stats, (n - 1) as nat),
        table_uses(listed, stats, 0).len() == 0,
{
}

proof fn items_taken(a: Seq<(KeyModel, u64)>, b: Seq<(KeyModel, u64)>, own: Seq<(KeyModel, u64)>, n: nat)
    requires
        n <= a.len(),
        n <= b.len(),
        forall|i: int| 0 <= i < n ==> a[i] == b[i],
    ensures
        traced_total(a, own, n) == traced_total(b, own, n),
    decreases n,
{
    if n > 0 {
        items_taken(a, b, own, (n - 1) as nat);
    }
}

/// A View is charged with every item whose operator its plan has: one more adds
/// its time, and one that the plan does not have adds nothing.
pub proof fn every_traced_item_is_charged(items: Seq<(KeyModel, u64)>, item: (KeyModel, u64), own: Seq<(KeyModel, u64)>)
    ensures
        traced_total(items.push(item), own, items.len() + 1) == traced_total(items, own, items.len()) + (if has_key(
            own,
            item.0,
        ) {
            item.1 as int
        } else {
            0
        }),
        traced_total(items, own, 0) == 0,
{
    let more = items.push(item);
    items_taken(items, more, own, items.len());
    assert(more[items.len() as int] == item);
}

/// Every rankable View to which an item can be traced is ranked at what the
/// traced items come to.
pub proof fn every_traced_view_is_ranked(
    listed: Seq<NodeModel>,
    stats: Seq<NodeStat>,
    items: Seq<(KeyModel, u64)>,
    normalize: bool,
    n: nat,
    i: int,
    roots: Seq<PlanNode>,
) -> (k: int)
    requires
        0 <= i < n <= listed.len(),
        plan_in(stats, listed[i].id) == Some(roots),
        rankable(listed, listed[i]),
        any_traced(items, uses_in(roots)),
        traced_total(items, uses_in(roots), items.len()) <= u64::MAX,
    ensures
        0 <= k < traced_rows(listed, stats, items, normalize, n).len(),
        traced_rows(listed, stats, items, normalize, n)[k].node == listed[i].id,
        traced_rows(listed, stats, items, normalize, n)[k].total == traced_total(items, uses_in(roots), items.len()),
    decreases n,
{
    let rest = traced_rows(listed, stats, items, normalize, (n - 1) as nat);
    if i < n - 1 {
        every_traced_view_is_ranked(listed, stats, items, normalize, (n - 1) as nat, i, roots)
    } else {
        rest.len() as int
    }
}

/// The Views named beside an operator are those whose own plans have it.
pub proof fn every_tracing_view_is_named(listed: Seq<NodeModel>, stats: Seq<NodeStat>, key: KeyModel, n: nat, id: Text)
    requires
        n <= listed.len(),
    ensures
        traced_views(listed, stats, key, n).contains(id) <==> exists|i: int|
            0 <= i < n && (#[trigger] listed[i]).id == id && traces(stats, listed[i], key),
    decreases n,
{
    if n > 0 {
        every_tracing_view_is_named(listed, stats, key, (n - 1) as nat, id);
        let rest = traced_views(listed, stats, key, (n - 1) as nat);
        let all = traced_views(listed, stats, key, n);
        if rest.contains(id) {
            let k = choose|k: int| 0 <= k < rest.len() && rest[k] == id;
            assert(all[k] == id);
            let i = choose|i: int| 0 <= i < n - 1 && (#[trigger] listed[i]).id == id && traces(stats, listed[i], key);
            assert(0 <= i < n && listed[i].id == id);
        }
        if traces(stats, listed[n - 1], key) && listed[n - 1].id == id {
            assert(all[rest.len() as int] == id);
        }
        if all.contains(id) {
            let k = choose|k: int| 0 <= k < all.len() && all[k] == id;
            if k < rest.len() {
                assert(rest[k] == id);
            } else {
                assert(listed[n - 1].id == id);
            }
        }
        if exists|i: int| 0 <= i < n && (#[trigger] listed[i]).id == id && traces(stats, listed[i], key) {
            let i = choose|i: int| 0 <= i < n && (#[trigger] listed[i]).id == id && traces(stats, listed[i], key);
            if i < n - 1 {
                assert(0 <= i < n - 1 && listed[i].id == id);
            }
        }
    }
}

/// Charged downstream, a View answers for every use of an operator in the
/// tables' plans; otherwise for each operator once, at its average.
pub proof fn uses_or_operators_are_charged(
    listed: Seq<NodeModel>,
    stats: Seq<NodeStat>,
    downstream: bool,
    items: Seq<(KeyModel, u64)>,
    i: int,
    j: int,
)
    requires
        is_charged(listed, stats, downstream, items),
        0 <= i < j < items.len(),
    ensures
        downstream ==> items == table_uses(listed, stats, listed.len()),
        !downstream ==> items[i].0 != items[j].0,
        !downstream ==> items[i].1 == key_time(
            table_uses(listed, stats, listed.len()),
            items[i].0,
            table_uses(listed, stats, listed.len()).len(),
        ) / key_count(
            table_uses(listed, stats, listed.len()),
            items[i].0,
            table_uses(listed, stats, listed.len()).len(),
        ),
{
    if !downstream {
        let uses = table_uses(listed, stats, listed.len());
        let list = choose|list: Seq<OperatorStat>|
            #[trigger] are_operator_stats(uses, list) && items == averages(list);
        assert(items[i].0 == list[i].key@);
        assert(items[j].0 == list[j].key@);
        assert(items[i].1 == list[i].average);
    }
}

/// The rows of operators are numbered from one on, each with the operator, the
/// average and the occurrences that stand there.
pub proof fn operators_are_numbered_from_one(
    listed: Seq<NodeModel>,
    stats: Seq<NodeStat>,
    list: Seq<OperatorStat>,
    rows: Seq<OperatorRankingRow>,
    i: int,
)
    requires
        shows_operators(listed, stats, list, rows),
        0 <= i < list.len(),
    ensures
        rows.len() == list.len(),
        rows[0].rank == 1,
        i + 1 < rows.len() ==> rows[i + 1].rank == rows[i].rank + 1,
        rows[i].average == list[i].average,
        rows[i].table_occurrences == list[i].occurrences,
        rows[i].operator@ == list[i].key@.0 + "(cardinality="@ + decimal(list[i].key@.1 as nat) + ")"@,
{
}

} // verus!
