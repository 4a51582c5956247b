//! Which combinations of Views to price, in what order, and when to stop.
//!
//! What a combination is worth is measured outside, as a set: costs do not
//! add, because the Views of a combination tend to be nested in one another.
//! This module is the search around those measurements. Costs are whole
//! numbers of the cost model's unit.

use vstd::prelude::*;

use crate::dag::{Dag, NodeModel};
use crate::levels::{height, height_of};
use crate::order::{order_positions, orders, picked, stable_order, stably_sorted};
use crate::text::{
    at_most, copy_texts, list_at_most, list_le, list_le_total, list_le_transitive, text_le, text_le_antisymmetric,
    text_le_total, text_le_transitive, texts, Text,
};

verus! {

/// What the priced combinations are ordered by.
#[derive(Debug, Clone, Copy, PartialEq, Eq, Structural)]
pub enum HmpObjective {
    /// The duplicate computation a combination removes, most first.
    QueryTime,
    /// The wall clock it is predicted to take, least first.
    Makespan,
}

/// The name of an objective.
pub open spec fn objective_name(o: HmpObjective) -> Text {
    match o {
        HmpObjective::QueryTime => "query_time"@,
        HmpObjective::Makespan => "makespan"@,
    }
}

impl HmpObjective {
    /// The objective's name.
    pub fn as_str(self) -> (r: &'static str)
        ensures
            r@ == objective_name(self),
    {
        match self {
            HmpObjective::QueryTime => "query_time",
            HmpObjective::Makespan => "makespan",
        }
    }
}

/// What one combination was measured at.
#[derive(Debug, Clone, Copy, PartialEq, Eq, Structural)]
pub struct Scored {
    /// Net duplicate computation that it removes.
    pub cost: i64,
    /// Predicted wall clock, where there is one; lower is better.
    pub makespan: Option<i64>,
    /// How many members lie on one dependency chain.
    pub stages: usize,
}

/// A combination and what materializing all of it is estimated to remove.
#[derive(Debug)]
pub struct CostedCombo {
    /// Members, consumer-most first.
    pub combo: Vec<String>,
    pub cost: i64,
    pub makespan: Option<i64>,
    pub stages: usize,
}

/// A priced combination, as the specifications see it.
#[verifier::ext_equal]
pub struct ComboModel {
    pub combo: Seq<Text>,
    pub cost: i64,
    pub makespan: Option<i64>,
    pub stages: usize,
}

impl View for CostedCombo {
    type V = ComboModel;

    open spec fn view(&self) -> ComboModel {
        ComboModel { combo: texts(self.combo@), cost: self.cost, makespan: self.makespan, stages: self.stages }
    }
}

/// A list of priced combinations, as the specifications see it.
pub open spec fn combo_models(s: Seq<CostedCombo>) -> Seq<ComboModel> {
    s.map_values(|c: CostedCombo| c@)
}

/// The increasing lists of `k` numbers from `start` up to `n`, in
/// lexicographic order.
pub open spec fn index_combos(n: nat, start: nat, k: nat) -> Seq<Seq<usize>>
    decreases n - start,
{
    if k == 0 {
        seq![Seq::<usize>::empty()]
    } else if start >= n {
        Seq::<Seq<usize>>::empty()
    } else {
        led_by(start as usize, index_combos(n, start + 1, (k - 1) as nat)) + index_combos(n, start + 1, k)
    }
}

/// Each list with `first` put before it.
pub open spec fn led_by(first: usize, lists: Seq<Seq<usize>>) -> Seq<Seq<usize>> {
    lists.map_values(|l: Seq<usize>| seq![first] + l)
}

/// `c` is an increasing list of `k` numbers from `start` up to `n`.
pub open spec fn increasing(c: Seq<usize>, n: nat, start: nat, k: nat) -> bool {
    &&& c.len() == k
    &&& forall|i: int| 0 <= i < c.len() ==> start <= #[trigger] c[i] < n
    &&& forall|i: int, j: int| 0 <= i < j < c.len() ==> #[trigger] c[i] < #[trigger] c[j]
}

/// Every increasing list of `k` numbers occurs among the combinations, and
/// nothing else does.
pub proof fn index_combos_exact(n: nat, start: nat, k: nat, c: Seq<usize>)
    requires
        n <= usize::MAX,
    ensures
        index_combos(n, start, k).contains(c) <==> increasing(c, n, start, k),
    decreases n - start,
{
    let all = index_combos(n, start, k);
    if k == 0 {
        assert(all[0] =~= Seq::<usize>::empty());
        if c.len() == 0 {
            assert(c =~= all[0]);
        }
    } else if start >= n {
        if increasing(c, n, start, k) {
            assert(start <= c[0] < n);
        }
    } else {
        let with = index_combos(n, start + 1, (k - 1) as nat);
        let led = led_by(start as usize, with);
        let without = index_combos(n, start + 1, k);
        index_combos_exact(n, start + 1, k, c);
        if c.len() > 0 {
            index_combos_exact(n, start + 1, (k - 1) as nat, c.drop_first());
        }
        if all.contains(c) {
            let i = choose|i: int| 0 <= i < all.len() && all[i] == c;
            if i < led.len() {
                assert(led[i] == c);
                index_combos_exact(n, start + 1, (k - 1) as nat, with[i]);
                assert(with.contains(with[i]));
                assert(c =~= seq![start as usize] + with[i]);
                assert forall|a: int, b: int| 0 <= a < b < c.len() implies #[trigger] c[a] < #[trigger] c[b] by {
                    if a > 0 {
                        assert(c[a] == with[i][a - 1]);
                    }
                    assert(c[b] == with[i][b - 1]);
                }
                assert forall|a: int| 0 <= a < c.len() implies start <= #[trigger] c[a] < n by {
                    if a > 0 {
                        assert(c[a] == with[i][a - 1]);
                    }
                }
            } else {
                assert(without[i - led.len()] == c);
                assert(without.contains(c));
            }
        }
        if increasing(c, n, start, k) {
            if c[0] == start {
                let rest = c.drop_first();
                assert(increasing(rest, n, start + 1, (k - 1) as nat)) by {
                    assert forall|a: int| 0 <= a < rest.len() implies start + 1 <= #[trigger] rest[a] < n by {
                        assert(c[0] < c[a + 1]);
                    }
                }
                let i = choose|i: int| 0 <= i < with.len() && with[i] == rest;
                assert(led[i] =~= c);
                assert(all[i] == c);
            } else {
                assert(increasing(c, n, start + 1, k)) by {
                    assert forall|a: int| 0 <= a < c.len() implies start + 1 <= #[trigger] c[a] < n by {
                        if a > 0 {
                            assert(c[0] < c[a]);
                        }
                    }
                }
                let i = choose|i: int| 0 <= i < without.len() && without[i] == c;
                assert(all[led.len() + i] == c);
            }
        }
    }
}

/// No combination occurs twice.
pub proof fn index_combos_distinct(n: nat, start: nat, k: nat)
    requires
        n <= usize::MAX,
    ensures
        index_combos(n, start, k).no_duplicates(),
    decreases n - start,
{
    if k > 0 && start < n {
        let with = index_combos(n, start + 1, (k - 1) as nat);
        let led = led_by(start as usize, with);
        let without = index_combos(n, start + 1, k);
        index_combos_distinct(n, start + 1, (k - 1) as nat);
        index_combos_distinct(n, start + 1, k);
        let all = index_combos(n, start, k);
        assert forall|i: int, j: int| 0 <= i < all.len() && 0 <= j < all.len() && i != j implies all[i] != all[j] by {
            if i < led.len() && j < led.len() {
                assert(led[i].drop_first() =~= with[i]);
                assert(led[j].drop_first() =~= with[j]);
            } else if i >= led.len() && j >= led.len() {
                assert(without[i - led.len()] != without[j - led.len()]);
            } else {
                let (a, b) = if i < led.len() {
                    (i, j)
                } else {
                    (j, i)
                };
                assert(led[a][0] == start as usize);
                index_combos_exact(n, start + 1, k, without[b - led.len()]);
                assert(without.contains(without[b - led.len()]));
            }
        }
    }
}

/// Two to the power of `n`.
pub open spec fn two_to(n: nat) -> nat
    decreases n,
{
    if n == 0 {
        1
    } else {
        2 * two_to((n - 1) as nat)
    }
}

/// How many combinations of at most `k` members there are.
spec fn combos_up_to(n: nat, start: nat, k: nat) -> nat
    decreases k,
{
    index_combos(n, start, k).len() + if k == 0 {
        0
    } else {
        combos_up_to(n, start, (k - 1) as nat)
    }
}

proof fn combos_up_to_split(n: nat, start: nat, k: nat)
    requires
        start < n,
        k > 0,
    ensures
        combos_up_to(n, start, k) == combos_up_to(n, start + 1, (k - 1) as nat) + combos_up_to(n, start + 1, k),
    decreases k,
{
    if k > 1 {
        combos_up_to_split(n, start, (k - 1) as nat);
    } else {
        assert(combos_up_to(n, start, 0) == 1);
        assert(combos_up_to(n, start + 1, 0) == 1);
        assert(combos_up_to(n, start, 1) == index_combos(n, start, 1).len() + 1);
        assert(combos_up_to(n, start + 1, 1) == index_combos(n, start + 1, 1).len() + 1);
    }
}

/// The combinations of `n - start` things, of all sizes, are as many as the
/// subsets.
proof fn combos_counted(n: nat, start: nat, k: nat)
    requires
        start <= n,
        k >= n - start,
    ensures
        combos_up_to(n, start, k) == two_to((n - start) as nat),
    decreases n - start, k,
{
    if start == n {
        if k > 0 {
            combos_counted(n, start, (k - 1) as nat);
        }
    } else {
        combos_up_to_split(n, start, k);
        combos_counted(n, start + 1, k);
        combos_counted(n, start + 1, (k - 1) as nat);
    }
}

/// The combinations of one member are the members.
proof fn singles_counted(n: nat, start: nat)
    requires
        start <= n,
    ensures
        index_combos(n, start, 1).len() == n - start,
    decreases n - start,
{
    if start < n {
        singles_counted(n, start + 1);
        assert(index_combos(n, start + 1, 0).len() == 1);
    }
}

/// The combinations of two or more, and of at most `k`, of `n` things: the
/// smaller ones first.
pub open spec fn plan_of(n: nat, k: nat) -> Seq<Seq<usize>>
    decreases k,
{
    if k < 2 {
        Seq::<Seq<usize>>::empty()
    } else {
        plan_of(n, (k - 1) as nat) + index_combos(n, 0, k)
    }
}

/// The plan holds every combination of two to `k` members, and nothing else.
pub proof fn plan_exact(n: nat, k: nat, c: Seq<usize>)
    requires
        n <= usize::MAX,
    ensures
        plan_of(n, k).contains(c) <==> 2 <= c.len() <= k && increasing(c, n, 0, c.len()),
    decreases k,
{
    if k >= 2 {
        plan_exact(n, (k - 1) as nat, c);
        index_combos_exact(n, 0, k, c);
        let head = plan_of(n, (k - 1) as nat);
        let tail = index_combos(n, 0, k);
        let all = plan_of(n, k);
        if all.contains(c) {
            let i = choose|i: int| 0 <= i < all.len() && all[i] == c;
            if i < head.len() {
                assert(head[i] == c);
            } else {
                assert(tail[i - head.len()] == c);
            }
        }
        if head.contains(c) {
            let i = choose|i: int| 0 <= i < head.len() && head[i] == c;
            assert(all[i] == c);
        }
        if tail.contains(c) {
            let i = choose|i: int| 0 <= i < tail.len() && tail[i] == c;
            assert(all[head.len() + i] == c);
        }
    }
}

/// The plan holds no combination twice.
pub proof fn plan_distinct(n: nat, k: nat)
    requires
        n <= usize::MAX,
    ensures
        plan_of(n, k).no_duplicates(),
    decreases k,
{
    if k >= 2 {
        plan_distinct(n, (k - 1) as nat);
        index_combos_distinct(n, 0, k);
        let head = plan_of(n, (k - 1) as nat);
        let tail = index_combos(n, 0, k);
        let all = plan_of(n, k);
        assert forall|i: int, j: int| 0 <= i < all.len() && 0 <= j < all.len() && i != j implies all[i] != all[j] by {
            if i < head.len() && j < head.len() {
                assert(head[i] != head[j]);
            } else if i >= head.len() && j >= head.len() {
                assert(tail[i - head.len()] != tail[j - head.len()]);
            } else {
                let (a, b) = if i < head.len() {
                    (i, j)
                } else {
                    (j, i)
                };
                plan_exact(n, (k - 1) as nat, head[a]);
                assert(head.contains(head[a]));
                index_combos_exact(n, 0, k, tail[b - head.len()]);
                assert(tail.contains(tail[b - head.len()]));
            }
        }
    }
}

/// An increasing list of numbers below `n` is at most `n` long.
pub proof fn increasing_fits(c: Seq<usize>, n: nat, start: nat)
    requires
        increasing(c, n, start, c.len()),
    ensures
        c.len() > 0 ==> c.len() <= n - start,
    decreases c.len(),
{
    if c.len() > 1 {
        let head = c.drop_last();
        let top = c.last() as nat;
        assert(increasing(head, top, start, head.len())) by {
            assert forall|i: int| 0 <= i < head.len() implies start <= #[trigger] head[i] < top by {
                assert(c[i] < c[c.len() - 1]);
            }
            assert forall|i: int, j: int| 0 <= i < j < head.len() implies #[trigger] head[i] < #[trigger] head[j] by {
                assert(c[i] < c[j]);
            }
        }
        increasing_fits(head, top, start);
    } else if c.len() == 1 {
        assert(start <= c[0] < n);
    }
}

/// Of `n` things there are `2^n - 1 - n` combinations of two or more.
pub proof fn multi_count(n: nat)
    ensures
        plan_of(n, n).len() == two_to(n) - 1 - n,
{
    combos_counted(n, 0, n);
    plan_counted(n, n);
    singles_counted(n, 0);
    if n == 0 {
        assert(combos_up_to(n, 0, 0) == 1);
    }
}

proof fn plan_counted(n: nat, k: nat)
    ensures
        k >= 1 ==> plan_of(n, k).len() + index_combos(n, 0, 1).len() + 1 == combos_up_to(n, 0, k),
    decreases k,
{
    if k >= 2 {
        plan_counted(n, (k - 1) as nat);
    } else if k == 1 {
        assert(combos_up_to(n, 0, 0) == index_combos(n, 0, 0).len());
        assert(combos_up_to(n, 0, 1) == index_combos(n, 0, 1).len() + combos_up_to(n, 0, 0));
    }
}

/// All combinations of two or more of `n` things, the smaller ones first.
pub(crate) fn whole_plan(n: usize) -> (r: Vec<Vec<usize>>)
    ensures
        lists(r@) == plan_of(n as nat, n as nat),
{
    let mut out: Vec<Vec<usize>> = Vec::new();
    let mut k: usize = 1;
    proof {
        assert(lists(out@) =~= plan_of(n as nat, 1));
    }
    if n == 0 {
        return out;
    }
    while k < n
        invariant
            1 <= k <= n,
            lists(out@) == plan_of(n as nat, k as nat),
        decreases n - k,
    {
        k = k + 1;
        let ghost head = lists(out@);
        let more = combos_from(n, 0, k);
        let ghost tail = lists(more@);
        let mut i: usize = 0;
        proof {
            assert(head + tail.take(0) =~= head);
        }
        while i < more.len()
            invariant
                i <= more@.len(),
                tail == lists(more@),
                lists(out@) == head + tail.take(i as int),
            decreases more@.len() - i,
        {
            let ghost before = lists(out@);
            out.push(copy_list(&more[i]));
            proof {
                assert(tail[i as int] == more@[i as int]@);
                assert(lists(out@) =~= before.push(tail[i as int]));
                assert(tail.take(i + 1) =~= tail.take(i as int).push(tail[i as int]));
            }
            i = i + 1;
        }
        proof {
            assert(tail.take(more@.len() as int) =~= tail);
        }
    }
    out
}

/// The members of `items` at the places that a list names.
pub open spec fn named(items: Seq<Text>, at: Seq<usize>) -> Seq<Text> {
    at.map_values(|i: usize| items[i as int])
}

/// Every combination of `k` of `items`, in the order in which `items` come;
/// none of nothing, and none of more than there are.
pub open spec fn combinations_of(items: Seq<Text>, k: nat) -> Seq<Seq<Text>> {
    if k == 0 || k > items.len() {
        Seq::<Seq<Text>>::empty()
    } else {
        index_combos(items.len(), 0, k).map_values(|c: Seq<usize>| named(items, c))
    }
}

/// The lists of numbers that a vector of vectors holds.
pub open spec fn lists(s: Seq<Vec<usize>>) -> Seq<Seq<usize>> {
    s.map_values(|v: Vec<usize>| v@)
}

/// The lists of texts that a vector of vectors holds.
pub open spec fn text_lists(s: Seq<Vec<String>>) -> Seq<Seq<Text>> {
    s.map_values(|v: Vec<String>| texts(v@))
}

/// The increasing lists of `k` numbers from `start` up to `n`.
pub(crate) fn combos_from(n: usize, start: usize, k: usize) -> (r: Vec<Vec<usize>>)
    requires
        start <= n,
    ensures
        lists(r@) == index_combos(n as nat, start as nat, k as nat),
    decreases n - start,
{
    let mut out: Vec<Vec<usize>> = Vec::new();
    if k == 0 {
        out.push(Vec::new());
        proof {
            assert(lists(out@) =~= seq![Seq::<usize>::empty()]);
        }
        return out;
    }
    if start >= n {
        proof {
            assert(lists(out@) =~= Seq::<Seq<usize>>::empty());
        }
        return out;
    }
    let with = combos_from(n, start + 1, k - 1);
    let without = combos_from(n, start + 1, k);
    let ghost led = led_by(start, lists(with@));
    let mut i: usize = 0;
    while i < with.len()
        invariant
            i <= with@.len(),
            led == led_by(start, lists(with@)),
            lists(out@) == led.take(i as int),
        decreases with@.len() - i,
    {
        let mut c: Vec<usize> = Vec::new();
        c.push(start);
        let mut j: usize = 0;
        while j < with[i].len()
            invariant
                i < with@.len(),
                j <= with@[i as int]@.len(),
                c@ == seq![start] + with@[i as int]@.take(j as int),
            decreases with@[i as int]@.len() - j,
        {
            c.push(with[i][j]);
            j = j + 1;
            proof {
                let w = with@[i as int]@;
                assert(w.take(j as int) =~= w.take(j - 1).push(w[j - 1]));
            }
        }
        let ghost before = lists(out@);
        out.push(c);
        proof {
            let w = with@[i as int]@;
            assert(w.take(w.len() as int) =~= w);
            assert(lists(with@)[i as int] == w);
            assert(lists(out@) =~= before.push(c@));
            assert(led.take(i + 1) =~= led.take(i as int).push(led[i as int]));
        }
        i = i + 1;
    }
    let ghost head = lists(out@);
    proof {
        assert(led.take(with@.len() as int) =~= led);
    }
    let mut j: usize = 0;
    while j < without.len()
        invariant
            j <= without@.len(),
            lists(out@) == head + lists(without@).take(j as int),
        decreases without@.len() - j,
    {
        let ghost before = lists(out@);
        out.push(copy_list(&without[j]));
        proof {
            let w = lists(without@);
            assert(w[j as int] == without@[j as int]@);
            assert(lists(out@) =~= before.push(w[j as int]));
            assert(w.take(j + 1) =~= w.take(j as int).push(w[j as int]));
        }
        j = j + 1;
    }
    proof {
        assert(lists(without@).take(without@.len() as int) =~= lists(without@));
    }
    out
}

/// A copy of a list of numbers.
pub(crate) fn copy_list(v: &Vec<usize>) -> (r: Vec<usize>)
    ensures
        r@ == v@,
{
    let mut out: Vec<usize> = Vec::new();
    let mut i: usize = 0;
    while i < v.len()
        invariant
            i <= v@.len(),
            out@ == v@.take(i as int),
        decreases v@.len() - i,
    {
        out.push(v[i]);
        i = i + 1;
        proof {
            assert(v@.take(i as int) =~= v@.take(i - 1).push(v@[i - 1]));
        }
    }
    proof {
        assert(v@.take(v@.len() as int) =~= v@);
    }
    out
}

/// The members of `items` at the places `at`.
pub(crate) fn names_at(items: &Vec<String>, at: &Vec<usize>) -> (r: Vec<String>)
    requires
        forall|i: int| 0 <= i < at@.len() ==> #[trigger] at@[i] < items@.len(),
    ensures
        texts(r@) == named(texts(items@), at@),
{
    let mut out: Vec<String> = Vec::new();
    let mut i: usize = 0;
    while i < at.len()
        invariant
            i <= at@.len(),
            forall|i: int| 0 <= i < at@.len() ==> #[trigger] at@[i] < items@.len(),
            texts(out@) == named(texts(items@), at@).take(i as int),
        decreases at@.len() - i,
    {
        let ghost before = texts(out@);
        out.push(items[at[i]].clone());
        proof {
            let all = named(texts(items@), at@);
            assert(texts(out@) =~= before.push(all[i as int]));
            assert(all.take(i + 1) =~= all.take(i as int).push(all[i as int]));
        }
        i = i + 1;
    }
    proof {
        let all = named(texts(items@), at@);
        assert(all.take(at@.len() as int) =~= all);
    }
    out
}

/// All combinations of `k` of `items`, in the order `items` is given.
pub fn combinations(items: &Vec<String>, k: usize) -> (r: Vec<Vec<String>>)
    ensures
        text_lists(r@) == combinations_of(texts(items@), k as nat),
{
    let mut out: Vec<Vec<String>> = Vec::new();
    if k == 0 || k > items.len() {
        proof {
            assert(text_lists(out@) =~= Seq::<Seq<Text>>::empty());
        }
        return out;
    }
    let n: usize = items.len();
    let places = combos_from(n, 0, k);
    let ghost all = combinations_of(texts(items@), k as nat);
    let mut i: usize = 0;
    while i < places.len()
        invariant
            i <= places@.len(),
            n == items@.len(),
            lists(places@) == index_combos(n as nat, 0, k as nat),
            0 < k <= items@.len(),
            all == combinations_of(texts(items@), k as nat),
            text_lists(out@) == all.take(i as int),
        decreases places@.len() - i,
    {
        let ghost before = text_lists(out@);
        proof {
            let c = lists(places@)[i as int];
            assert(c == places@[i as int]@);
            index_combos_exact(n as nat, 0, k as nat, c);
            assert(lists(places@).contains(c));
        }
        out.push(names_at(items, &places[i]));
        proof {
            assert(text_lists(out@) =~= before.push(all[i as int]));
            assert(all.take(i + 1) =~= all.take(i as int).push(all[i as int]));
        }
        i = i + 1;
    }
    proof {
        assert(all.take(places@.len() as int) =~= all);
    }
    out
}

/// A candidate's place in the canonical order: its height, then its id.
pub open spec fn canonical_le(nodes: Seq<NodeModel>, a: Text, b: Text) -> bool {
    height_of(nodes, a) < height_of(nodes, b) || (height_of(nodes, a) == height_of(nodes, b) && text_le(a, b))
}

/// The canonical order as a relation.
pub open spec fn canonical(nodes: Seq<NodeModel>) -> spec_fn(Text, Text) -> bool {
    |a: Text, b: Text| canonical_le(nodes, a, b)
}

/// The canonical order leaves no two different candidates in either order, so
/// sorting by it has one outcome whatever order the candidates come in.
pub proof fn canonical_antisymmetric(nodes: Seq<NodeModel>, a: Text, b: Text)
    requires
        canonical_le(nodes, a, b),
        canonical_le(nodes, b, a),
    ensures
        a == b,
{
    text_le_antisymmetric(a, b);
}

/// In a graph that can be ranked -- one without cycles -- a View comes after
/// the Views that read it.
pub proof fn canonical_consumers_first(nodes: Seq<NodeModel>, rank: spec_fn(int) -> nat, i: int, j: int)
    requires
        crate::dag::distinct_ids(nodes),
        crate::levels::ranked(nodes, rank),
        crate::walk::reads_at(nodes, j, i),
    ensures
        canonical_le(nodes, nodes[j].id, nodes[i].id),
        !canonical_le(nodes, nodes[i].id, nodes[j].id),
{
    crate::levels::height_above_readers(nodes, rank, i, j);
    height_at(nodes, i);
    height_at(nodes, j);
}

proof fn height_at(nodes: Seq<NodeModel>, i: int)
    requires
        crate::dag::distinct_ids(nodes),
        0 <= i < nodes.len(),
    ensures
        height_of(nodes, nodes[i].id) == height(nodes, i),
{
    let id = nodes[i].id;
    assert(crate::dag::names(nodes, i, id));
    let c = choose|c: int| #[trigger] crate::dag::names(nodes, c, id);
    if c < i {
        assert(nodes[c].id != nodes[i].id);
    } else if i < c {
        assert(nodes[i].id != nodes[c].id);
    }
}

/// `candidates`, consumer-most first: by ascending height, and by id where the
/// heights are equal.
pub fn canonical_order(dag: &Dag, candidates: &Vec<String>) -> (r: Vec<String>)
    requires
        dag.wf(),
    ensures
        stably_sorted(texts(r@), texts(candidates@), canonical(dag.nodes.listed())),
{
    let heights = dag.nodes.heights();
    let ghost nodes = dag.nodes.listed();
    proof {
        dag.nodes.listed_is_view();
    }
    let mut levels: Vec<usize> = Vec::new();
    let mut i: usize = 0;
    while i < candidates.len()
        invariant
            i <= candidates@.len(),
            dag.wf(),
            nodes == dag.nodes.listed(),
            crate::dag::distinct_ids(nodes),
            dag.nodes@ == crate::dag::by_id(nodes),
            heights@.len() == nodes.len(),
            forall|k: int| 0 <= k < heights@.len() ==> (#[trigger] heights@[k]) == height(nodes, k),
            levels@.len() == i,
            forall|k: int| 0 <= k < i ==> (#[trigger] levels@[k]) == height_of(nodes, candidates@[k]@),
        decreases candidates@.len() - i,
    {
        match dag.nodes.position(candidates[i].as_str()) {
            Some(p) => {
                proof {
                    height_at(nodes, p as int);
                }
                levels.push(heights[p]);
            },
            None => {
                proof {
                    if exists|k: int| #[trigger] crate::dag::names(nodes, k, candidates@[i as int]@) {
                        let k = choose|k: int| #[trigger] crate::dag::names(nodes, k, candidates@[i as int]@);
                        crate::dag::by_id_at(nodes, k);
                    }
                }
                levels.push(0);
            },
        }
        i = i + 1;
    }
    let ghost items = texts(candidates@);
    let ghost le = canonical(nodes);
    proof {
        canonical_orders(nodes, items);
    }
    let before = |a: usize, b: usize| -> (r: bool)
        requires
            a < candidates@.len(),
            b < candidates@.len(),
            levels@.len() == candidates@.len(),
        ensures
            r == (levels@[a as int] < levels@[b as int] || (levels@[a as int] == levels@[b as int] && text_le(
                candidates@[a as int]@,
                candidates@[b as int]@,
            ))),
        { levels[a] < levels[b] || (levels[a] == levels[b] && at_most(candidates[a].as_str(), candidates[b].as_str())) };
    proof {
        assert forall|a: usize, b: usize, r: bool|
            a < candidates@.len() && b < candidates@.len() && call_ensures(before, (a, b), r) implies r == le(
            items[a as int],
            items[b as int],
        ) by {
            assert(items[a as int] == candidates@[a as int]@);
            assert(items[b as int] == candidates@[b as int]@);
            assert(levels@[a as int] == height_of(nodes, candidates@[a as int]@));
            assert(levels@[b as int] == height_of(nodes, candidates@[b as int]@));
        }
    }
    let p = order_positions::<Text, _>(Ghost(items), Ghost(le), candidates.len(), before);
    let out = names_at(candidates, &p);
    proof {
        assert(named(items, p@) =~= picked(items, p@));
    }
    out
}

proof fn canonical_orders(nodes: Seq<NodeModel>, items: Seq<Text>)
    ensures
        orders(items, canonical(nodes)),
{
    let le = canonical(nodes);
    assert forall|i: int, j: int| 0 <= i < items.len() && 0 <= j < items.len() implies #[trigger] le(items[i], items[j])
        || le(items[j], items[i]) by {
        text_le_total(items[i], items[j]);
    }
    assert forall|i: int, j: int, k: int|
        0 <= i < items.len() && 0 <= j < items.len() && 0 <= k < items.len() && #[trigger] le(items[i], items[j])
            && #[trigger] le(items[j], items[k]) implies le(items[i], items[k]) by {
        if text_le(items[i], items[j]) && text_le(items[j], items[k]) {
            text_le_transitive(items[i], items[j], items[k]);
        }
    }
}

/// `a` comes before `b`, or is equal to it, by the work each removes: more
/// first, and by members where that is equal.
pub open spec fn cost_le(a: ComboModel, b: ComboModel) -> bool {
    a.cost > b.cost || (a.cost == b.cost && list_le(a.combo, b.combo))
}

/// `a` comes before `b`, or is equal to it, by predicted wall clock: less
/// first, a combination without a prediction after every one that has one,
/// and by the work removed where that does not decide.
pub open spec fn makespan_le(a: ComboModel, b: ComboModel) -> bool {
    match (a.makespan, b.makespan) {
        (Some(x), Some(y)) => x < y || (x == y && cost_le(a, b)),
        (Some(_), None) => true,
        (None, Some(_)) => false,
        (None, None) => cost_le(a, b),
    }
}

/// The order of an objective.
pub open spec fn objective_le(objective: HmpObjective) -> spec_fn(ComboModel, ComboModel) -> bool {
    |a: ComboModel, b: ComboModel|
        match objective {
            HmpObjective::QueryTime => cost_le(a, b),
            HmpObjective::Makespan => makespan_le(a, b),
        }
}

fn cost_before(a: &CostedCombo, b: &CostedCombo) -> (r: bool)
    ensures
        r == cost_le(a@, b@),
{
    a.cost > b.cost || (a.cost == b.cost && list_at_most(&a.combo, &b.combo))
}

fn objective_before(objective: HmpObjective, a: &CostedCombo, b: &CostedCombo) -> (r: bool)
    ensures
        r == objective_le(objective)(a@, b@),
{
    match objective {
        HmpObjective::QueryTime => cost_before(a, b),
        HmpObjective::Makespan => match (a.makespan, b.makespan) {
            (Some(x), Some(y)) => x < y || (x == y && cost_before(a, b)),
            (Some(_), None) => true,
            (None, Some(_)) => false,
            (None, None) => cost_before(a, b),
        },
    }
}

proof fn cost_total(a: ComboModel, b: ComboModel)
    ensures
        cost_le(a, b) || cost_le(b, a),
{
    list_le_total(a.combo, b.combo);
}

proof fn cost_transitive(a: ComboModel, b: ComboModel, c: ComboModel)
    requires
        cost_le(a, b),
        cost_le(b, c),
    ensures
        cost_le(a, c),
{
    if list_le(a.combo, b.combo) && list_le(b.combo, c.combo) {
        list_le_transitive(a.combo, b.combo, c.combo);
    }
}

proof fn objective_orders(objective: HmpObjective, items: Seq<ComboModel>)
    ensures
        orders(items, objective_le(objective)),
{
    let le = objective_le(objective);
    assert forall|i: int, j: int| 0 <= i < items.len() && 0 <= j < items.len() implies #[trigger] le(items[i], items[j])
        || le(items[j], items[i]) by {
        cost_total(items[i], items[j]);
    }
    assert forall|i: int, j: int, k: int|
        0 <= i < items.len() && 0 <= j < items.len() && 0 <= k < items.len() && #[trigger] le(items[i], items[j])
            && #[trigger] le(items[j], items[k]) implies le(items[i], items[k]) by {
        if cost_le(items[i], items[j]) && cost_le(items[j], items[k]) {
            cost_transitive(items[i], items[j], items[k]);
        }
    }
}

/// A copy of a priced combination.
fn copy_combo(c: &CostedCombo) -> (r: CostedCombo)
    ensures
        r@ == c@,
{
    CostedCombo { combo: copy_texts(&c.combo), cost: c.cost, makespan: c.makespan, stages: c.stages }
}

/// The priced combinations in the order of the objective; none is dropped.
pub fn order_by(kept: &Vec<CostedCombo>, objective: HmpObjective) -> (r: Vec<CostedCombo>)
    ensures
        stably_sorted(combo_models(r@), combo_models(kept@), objective_le(objective)),
{
    let ghost items = combo_models(kept@);
    let ghost le = objective_le(objective);
    proof {
        objective_orders(objective, items);
    }
    let before = |a: usize, b: usize| -> (r: bool)
        requires
            a < kept@.len(),
            b < kept@.len(),
        ensures
            r == objective_le(objective)(kept@[a as int]@, kept@[b as int]@),
        { objective_before(objective, &kept[a], &kept[b]) };
    proof {
        assert forall|a: usize, b: usize, r: bool|
            a < kept@.len() && b < kept@.len() && call_ensures(before, (a, b), r) implies r == le(
            items[a as int],
            items[b as int],
        ) by {
            assert(items[a as int] == kept@[a as int]@);
            assert(items[b as int] == kept@[b as int]@);
        }
    }
    let p = order_positions::<ComboModel, _>(Ghost(items), Ghost(le), kept.len(), before);
    let mut out: Vec<CostedCombo> = Vec::new();
    let mut i: usize = 0;
    while i < p.len()
        invariant
            i <= p@.len(),
            items == combo_models(kept@),
            stable_order(p@, items, le),
            combo_models(out@) == picked(items, p@).take(i as int),
        decreases p@.len() - i,
    {
        let ghost had = combo_models(out@);
        out.push(copy_combo(&kept[p[i]]));
        proof {
            let all = picked(items, p@);
            assert(combo_models(out@) =~= had.push(all[i as int]));
            assert(all.take(i + 1) =~= all.take(i as int).push(all[i as int]));
        }
        i = i + 1;
    }
    proof {
        let all = picked(items, p@);
        assert(all.take(p@.len() as int) =~= all);
    }
    out
}

/// Under the makespan objective no combination without a prediction comes
/// before one that has a prediction.
pub proof fn unpredicted_sorts_last(out: Seq<ComboModel>, kept: Seq<ComboModel>, i: int, j: int)
    requires
        stably_sorted(out, kept, objective_le(HmpObjective::Makespan)),
        0 <= i < out.len(),
        0 <= j < out.len(),
        out[i].makespan is None,
        out[j].makespan is Some,
    ensures
        j < i,
{
    let le = objective_le(HmpObjective::Makespan);
    let p = choose|p: Seq<usize>| #[trigger] stable_order(p, kept, le) && out == picked(kept, p);
    assert(out[i] == kept[p[i] as int]);
    assert(out[j] == kept[p[j] as int]);
    if i < j {
        assert(le(kept[p[i] as int], kept[p[j] as int]));
    }
}

/// Where nothing is predicted, the makespan objective orders by the work
/// removed.
pub proof fn makespan_without_predictions_is_query_time(out: Seq<ComboModel>, kept: Seq<ComboModel>)
    requires
        stably_sorted(out, kept, objective_le(HmpObjective::Makespan)),
        forall|i: int| 0 <= i < kept.len() ==> (#[trigger] kept[i]).makespan is None,
    ensures
        stably_sorted(out, kept, objective_le(HmpObjective::QueryTime)),
{
    let le = objective_le(HmpObjective::Makespan);
    let by_cost = objective_le(HmpObjective::QueryTime);
    let p = choose|p: Seq<usize>| #[trigger] stable_order(p, kept, le) && out == picked(kept, p);
    assert(stable_order(p, kept, by_cost)) by {
        assert forall|i: int, j: int| 0 <= i < j < p.len() implies {
            &&& by_cost(kept[(#[trigger] p[i]) as int], kept[(#[trigger] p[j]) as int])
            &&& by_cost(kept[p[j] as int], kept[p[i] as int]) ==> p[i] < p[j]
        } by {
            assert(le(kept[p[i] as int], kept[p[j] as int]));
            assert(kept[p[i] as int].makespan is None);
            assert(kept[p[j] as int].makespan is None);
        }
    }
}

/// What removes the most work comes first by query time, and what is predicted
/// to take the least time comes first by makespan. Nothing is lost.
pub proof fn the_best_comes_first(out: Seq<ComboModel>, kept: Seq<ComboModel>, objective: HmpObjective, i: int, j: int)
    requires
        stably_sorted(out, kept, objective_le(objective)),
        kept.len() <= usize::MAX,
        0 <= i < j < out.len(),
    ensures
        out.len() == kept.len(),
        out.to_set() == kept.to_set(),
        objective == HmpObjective::QueryTime ==> out[i].cost >= out[j].cost,
        objective == HmpObjective::Makespan && out[i].makespan is Some && out[j].makespan is Some ==> out[i].makespan->0
            <= out[j].makespan->0,
        objective == HmpObjective::Makespan && out[i].makespan == out[j].makespan ==> out[i].cost >= out[j].cost,
{
    let le = objective_le(objective);
    crate::order::sorted_keeps_members(out, kept, le);
    let p = choose|p: Seq<usize>| #[trigger] crate::order::stable_order(p, kept, le) && out == crate::order::picked(kept, p);
    assert(le(kept[p[i] as int], kept[p[j] as int]));
    assert(out[i] == kept[p[i] as int]);
    assert(out[j] == kept[p[j] as int]);
}

/// A combination of `k` is the things at `k` increasing places, and every such
/// choice is one.
pub proof fn a_combination_is_a_choice(items: Seq<Text>, k: nat, c: Seq<usize>, j: int)
    requires
        0 < k <= items.len() <= usize::MAX,
        increasing(c, items.len(), 0, k),
        0 <= j < combinations_of(items, k).len(),
    ensures
        combinations_of(items, k).contains(Seq::new(k, |i: int| items[c[i] as int])),
        combinations_of(items, k)[j].len() == k,
        forall|i: int| 0 <= i < k ==> items.contains(#[trigger] combinations_of(items, k)[j][i]),
{
    index_combos_exact(items.len(), 0, k, c);
    let all = index_combos(items.len(), 0, k);
    let w = choose|w: int| 0 <= w < all.len() && all[w] == c;
    assert(combinations_of(items, k)[w] =~= Seq::new(k, |i: int| items[c[i] as int]));
    index_combos_exact(items.len(), 0, k, all[j]);
    assert(all.contains(all[j]));
    assert forall|i: int| 0 <= i < k implies items.contains(#[trigger] combinations_of(items, k)[j][i]) by {
        assert(combinations_of(items, k)[j][i] == items[all[j][i] as int]);
    }
}

/// Combinations that are worth the same are in the order of their members.
pub proof fn equal_combinations_are_ordered_by_their_members(
    out: Seq<ComboModel>,
    kept: Seq<ComboModel>,
    objective: HmpObjective,
    i: int,
    j: int,
)
    requires
        stably_sorted(out, kept, objective_le(objective)),
        kept.len() <= usize::MAX,
        0 <= i < j < out.len(),
    ensures
        objective == HmpObjective::Makespan && out[i].makespan == out[j].makespan && out[i].cost == out[j].cost ==> list_le(
            out[i].combo,
            out[j].combo,
        ),
        objective == HmpObjective::QueryTime && out[i].cost == out[j].cost ==> list_le(out[i].combo, out[j].combo),
{
    let le = objective_le(objective);
    let p = choose|p: Seq<usize>| #[trigger] stable_order(p, kept, le) && out == picked(kept, p);
    assert(le(kept[p[i] as int], kept[p[j] as int]));
    assert(out[i] == kept[p[i] as int]);
    assert(out[j] == kept[p[j] as int]);
}

} // verus!
