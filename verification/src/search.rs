//! The search for combinations worth a trial, as a machine that asks for one
//! combination at a time to be priced and is told what it was measured at.
//!
//! Every single candidate is priced first. Where the combinations of two or
//! more fit inside the budget they are all priced; otherwise the search is
//! best-first: it asks for the pending combination with the highest estimate,
//! which is the measured cost of the combination it extends plus the cost of
//! the candidate it adds. A combination is only ever extended by a candidate
//! of a higher index, so each is asked for once.

use vstd::prelude::*;

use crate::combo::{
    combo_models, increasing, index_combos, index_combos_distinct, index_combos_exact, lists, multi_count, named, names_at,
    objective_le, order_by, plan_of, combos_from, copy_list, two_to, ComboModel, CostedCombo, HmpObjective, Scored,
};
use crate::order::{order_positions, picked, stable_order, stably_sorted};
use crate::text::{at_most, copy_texts, text_le, text_le_total, text_le_transitive, texts, Text};

verus! {

/// The cost that a ranking gave one candidate.
#[derive(Debug)]
pub struct SingletonCost {
    pub node: String,
    pub cost: i128,
}

/// The cost that `known`, from `from` on, gives `node`; zero where it says
/// nothing.
pub open spec fn singleton_cost(known: Seq<SingletonCost>, node: Text, from: nat) -> i128
    decreases known.len() - from,
{
    if from >= known.len() {
        0
    } else if known[from as int].node@ == node {
        known[from as int].cost
    } else {
        singleton_cost(known, node, from + 1)
    }
}

/// `x` within the range of a machine number.
pub open spec fn clamped(x: int) -> i64 {
    if x < i64::MIN {
        i64::MIN
    } else if x > i64::MAX {
        i64::MAX
    } else {
        x as i64
    }
}

/// `x` within the range of a machine number of twice the width.
pub open spec fn within(x: int) -> i128 {
    if x < i128::MIN {
        i128::MIN
    } else if x > i128::MAX {
        i128::MAX
    } else {
        x as i128
    }
}

/// Lexicographic order on lists of numbers.
pub open spec fn index_lt(a: Seq<usize>, b: Seq<usize>) -> bool
    decreases a.len(),
{
    if b.len() == 0 {
        false
    } else if a.len() == 0 {
        true
    } else if a[0] != b[0] {
        a[0] < b[0]
    } else {
        index_lt(a.drop_first(), b.drop_first())
    }
}

/// A pending combination: its estimate, and its members.
pub type EntryModel = (i128, Seq<usize>);

/// `a` is to be priced before `b`: its estimate is higher, or it is equal and
/// `a` comes first in lexicographic order.
pub open spec fn beats(a: EntryModel, b: EntryModel) -> bool {
    a.0 > b.0 || (a.0 == b.0 && index_lt(a.1, b.1))
}

/// The place of the entry to price next: the first one that no other beats.
pub open spec fn top(queue: Seq<EntryModel>) -> int
    decreases queue.len(),
{
    if queue.len() <= 1 {
        0
    } else {
        let t = top(queue.drop_last());
        if beats(queue.last(), queue[t]) {
            queue.len() - 1
        } else {
            t
        }
    }
}

/// A search as the specifications see it.
#[verifier::ext_equal]
pub struct SearchModel {
    /// The candidates' own costs.
    pub singles: Seq<i128>,
    /// How many of the units of those a unit of a measured cost is.
    pub unit: i128,
    /// How many combinations of two or more may be priced.
    pub budget: nat,
    /// Whether all of them are.
    pub exhaustive: bool,
    /// All of them, where they are.
    pub plan: Seq<Seq<usize>>,
    /// The pending ones, where they are not.
    pub queue: Seq<EntryModel>,
    /// How many single candidates have been asked for.
    pub single: nat,
    /// How many combinations of two or more have been asked for.
    pub spent: nat,
    /// What has been priced, in the order in which it was.
    pub costed: Seq<(Seq<usize>, Scored)>,
    /// What has been asked for, in the order in which it was.
    pub asked: Seq<Seq<usize>>,
}

/// Whether all combinations of two or more of `n` candidates fit the budget.
pub open spec fn fits(n: nat, budget: nat) -> bool {
    if n >= 63 {
        budget >= usize::MAX
    } else {
        two_to(n) - 1 - n <= budget
    }
}

/// The pairs, each with the sum of its members' own costs as estimate.
pub open spec fn pair_entries(singles: Seq<i128>) -> Seq<EntryModel> {
    index_combos(singles.len(), 0, 2).map_values(
        |c: Seq<usize>| (within(singles[c[0] as int] + singles[c[1] as int]), c),
    )
}

/// `c` extended by each candidate after its last member, each with the measured
/// cost of `c` plus that candidate's own as estimate.
pub open spec fn extensions(singles: Seq<i128>, unit: i128, c: Seq<usize>, cost: i64) -> Seq<EntryModel> {
    Seq::new(
        (singles.len() - c.last() - 1) as nat,
        |t: int| (within(within(cost * unit) + singles[c.last() + 1 + t]), c.push((c.last() + 1 + t) as usize)),
    )
}

/// A search that has asked for nothing yet.
pub open spec fn new_search(singles: Seq<i128>, budget: nat, unit: i128) -> SearchModel {
    let all = fits(singles.len(), budget);
    SearchModel {
        singles,
        unit,
        budget,
        exhaustive: all,
        plan: if all {
            plan_of(singles.len(), singles.len())
        } else {
            Seq::<Seq<usize>>::empty()
        },
        queue: if all {
            Seq::<EntryModel>::empty()
        } else {
            pair_entries(singles)
        },
        single: 0,
        spent: 0,
        costed: Seq::<(Seq<usize>, Scored)>::empty(),
        asked: Seq::<Seq<usize>>::empty(),
    }
}

/// The combination to price next; none where the search is over.
pub open spec fn wanted(m: SearchModel) -> Option<Seq<usize>> {
    if m.single < m.singles.len() {
        Some(seq![m.single as usize])
    } else if m.exhaustive {
        if m.spent < m.plan.len() {
            Some(m.plan[m.spent as int])
        } else {
            None
        }
    } else if m.spent < m.budget && m.queue.len() > 0 {
        Some(m.queue[top(m.queue)].1)
    } else {
        None
    }
}

/// The search after the combination it wanted has been measured at `score`;
/// none where it could not be priced.
pub open spec fn recorded(m: SearchModel, score: Option<Scored>) -> SearchModel {
    let c = wanted(m)->Some_0;
    let costed = match score {
        Some(s) => m.costed.push((c, s)),
        None => m.costed,
    };
    let asked = m.asked.push(c);
    if m.single < m.singles.len() {
        SearchModel { single: m.single + 1, costed, asked, ..m }
    } else if m.exhaustive {
        SearchModel { spent: m.spent + 1, costed, asked, ..m }
    } else {
        let rest = m.queue.remove(top(m.queue));
        let queue = match score {
            Some(s) => rest + extensions(m.singles, m.unit, c, s.cost),
            None => rest,
        };
        SearchModel { spent: m.spent + 1, costed, asked, queue, ..m }
    }
}

/// The priced combinations that remove something, under their members' names.
pub open spec fn kept(m: SearchModel, candidates: Seq<Text>, upto: nat) -> Seq<ComboModel>
    decreases upto,
{
    if upto == 0 {
        Seq::<ComboModel>::empty()
    } else {
        let rest = kept(m, candidates, (upto - 1) as nat);
        let (c, s) = m.costed[upto - 1];
        if s.cost > 0 {
            rest.push(ComboModel { combo: named(candidates, c), cost: s.cost, makespan: s.makespan, stages: s.stages })
        } else {
            rest
        }
    }
}

/// `c` is a combination of `n` candidates.
pub open spec fn combination(c: Seq<usize>, n: nat) -> bool {
    c.len() >= 1 && increasing(c, n, 0, c.len())
}

/// What holds of a search at every moment.
pub open spec fn search_inv(m: SearchModel) -> bool {
    let n = m.singles.len();
    &&& n <= usize::MAX
    &&& m.single <= n
    &&& m.spent > 0 ==> m.single == n
    &&& m.spent <= m.budget
    &&& m.asked.len() == m.single + m.spent
    &&& m.asked.no_duplicates()
    &&& forall|i: int| 0 <= i < m.asked.len() ==> combination(#[trigger] m.asked[i], n)
    &&& forall|i: int| 0 <= i < m.single ==> (#[trigger] m.asked[i]) == seq![i as usize]
    &&& forall|i: int| m.single <= i < m.asked.len() ==> (#[trigger] m.asked[i]).len() >= 2
    &&& forall|i: int| 0 <= i < m.costed.len() ==> m.asked.contains((#[trigger] m.costed[i]).0)
    &&& m.exhaustive ==> {
        &&& m.plan == plan_of(n, n)
        &&& m.plan.len() <= m.budget
        &&& m.spent <= m.plan.len()
        &&& forall|i: int| 0 <= i < m.spent ==> m.asked[n + i] == #[trigger] m.plan[i]
    }
    &&& !m.exhaustive ==> {
        &&& forall|i: int| 0 <= i < m.queue.len() ==> combination((#[trigger] m.queue[i]).1, n) && m.queue[i].1.len() >= 2
        &&& forall|i: int| 0 <= i < m.queue.len() ==> !m.asked.contains((#[trigger] m.queue[i]).1)
        &&& forall|i: int, j: int|
            0 <= i < j < m.queue.len() ==> (#[trigger] m.queue[i]).1 != (#[trigger] m.queue[j]).1
        &&& forall|i: int|
            0 <= i < m.queue.len() && (#[trigger] m.queue[i]).1.len() >= 3 ==> m.asked.contains(m.queue[i].1.drop_last())
        &&& forall|i: int|
            0 <= i < m.asked.len() && (#[trigger] m.asked[i]).len() >= 3 ==> m.asked.contains(m.asked[i].drop_last())
    }
}

proof fn top_in_range(queue: Seq<EntryModel>)
    requires
        queue.len() > 0,
    ensures
        0 <= top(queue) < queue.len(),
    decreases queue.len(),
{
    if queue.len() > 1 {
        top_in_range(queue.drop_last());
    }
}

proof fn index_lt_transitive(a: Seq<usize>, b: Seq<usize>, c: Seq<usize>)
    requires
        index_lt(a, b),
        index_lt(b, c),
    ensures
        index_lt(a, c),
    decreases a.len(),
{
    if a.len() > 0 && a[0] == b[0] && b[0] == c[0] {
        index_lt_transitive(a.drop_first(), b.drop_first(), c.drop_first());
    }
}

proof fn index_lt_total(a: Seq<usize>, b: Seq<usize>)
    requires
        !index_lt(a, b),
        !index_lt(b, a),
    ensures
        a == b,
    decreases a.len(),
{
    if a.len() == 0 || b.len() == 0 {
        assert(a =~= b);
    } else {
        index_lt_total(a.drop_first(), b.drop_first());
        assert(a =~= seq![a[0]] + a.drop_first());
        assert(b =~= seq![b[0]] + b.drop_first());
    }
}

proof fn beats_transitive(a: EntryModel, b: EntryModel, c: EntryModel)
    requires
        beats(a, b),
        beats(b, c),
    ensures
        beats(a, c),
{
    if a.0 == b.0 && b.0 == c.0 {
        index_lt_transitive(a.1, b.1, c.1);
    }
}

/// The combination that a best-first search asks for has the highest estimate
/// of those pending, and comes first among those that share it.
pub proof fn top_is_best(queue: Seq<EntryModel>, q: int)
    requires
        0 <= q < queue.len(),
        queue[q].1 != queue[top(queue)].1,
    ensures
        beats(queue[top(queue)], queue[q]),
    decreases queue.len(),
{
    let last = queue.len() - 1;
    if queue.len() > 1 {
        let head = queue.drop_last();
        let t = top(head);
        top_in_range(head);
        if top(queue) == last {
            if head[q].1 != head[t].1 {
                top_is_best(head, q);
                beats_transitive(queue[last], queue[t], queue[q]);
            } else {
                if queue[q].0 != queue[t].0 {
                    top_key(head, q);
                }
            }
        } else if q < last {
            top_is_best(head, q);
        } else {
            if !beats(queue[t], queue[q]) {
                index_lt_total(queue[t].1, queue[q].1);
            }
        }
    }
}

/// No entry has a higher estimate than the one on top.
proof fn top_key(queue: Seq<EntryModel>, q: int)
    requires
        0 <= q < queue.len(),
    ensures
        queue[q].0 <= queue[top(queue)].0,
    decreases queue.len(),
{
    if queue.len() > 1 {
        top_in_range(queue.drop_last());
        if q < queue.len() - 1 {
            top_key(queue.drop_last(), q);
        }
    }
}

proof fn pushed_contains<T>(s: Seq<T>, x: T, y: T)
    ensures
        s.push(x).contains(y) == (s.contains(y) || y == x),
{
    if s.contains(y) {
        let k = choose|k: int| 0 <= k < s.len() && s[k] == y;
        assert(s.push(x)[k] == y);
    }
    assert(s.push(x)[s.len() as int] == x);
}

/// The invariant holds of a new search. A plan that is laid out in memory is
/// within the budget.
pub proof fn new_search_inv(singles: Seq<i128>, budget: nat, unit: i128)
    requires
        singles.len() <= usize::MAX,
        fits(singles.len(), budget) && singles.len() >= 63 ==> plan_of(singles.len(), singles.len()).len() <= usize::MAX,
    ensures
        search_inv(new_search(singles, budget, unit)),
{
    let n = singles.len();
    let m = new_search(singles, budget, unit);
    if m.exhaustive {
        if n < 63 {
            multi_count(n);
        }
    } else {
        let pairs = index_combos(n, 0, 2);
        index_combos_distinct(n, 0, 2);
        assert forall|i: int| 0 <= i < m.queue.len() implies combination((#[trigger] m.queue[i]).1, n) && m.queue[i].1.len()
            == 2 by {
            assert(m.queue[i].1 == pairs[i]);
            index_combos_exact(n, 0, 2, pairs[i]);
            assert(pairs.contains(pairs[i]));
        }
        assert forall|i: int, j: int| 0 <= i < j < m.queue.len() implies (#[trigger] m.queue[i]).1 != (#[trigger] m.queue[j]).1 by {
            assert(pairs[i] != pairs[j]);
        }
    }
}

/// The invariant survives every measurement: in particular the search never
/// asks for a combination twice, never for more of two or more members than
/// the budget allows, and prices only what it asked for.
pub proof fn recorded_inv(m: SearchModel, score: Option<Scored>)
    requires
        search_inv(m),
        wanted(m) is Some,
    ensures
        search_inv(recorded(m, score)),
{
    let n = m.singles.len();
    let c = wanted(m)->Some_0;
    let after = recorded(m, score);
    assert forall|x: Seq<usize>| #[trigger] after.asked.contains(x) == (m.asked.contains(x) || x == c) by {
        pushed_contains(m.asked, c, x);
    }
    if m.single < n {
        assert(!m.asked.contains(c)) by {
            if m.asked.contains(c) {
                let k = choose|k: int| 0 <= k < m.asked.len() && m.asked[k] == c;
                assert(m.asked[k] == seq![k as usize]);
                assert(seq![k as usize][0] == c[0]);
            }
        }
        assert(combination(c, n));
        if !m.exhaustive {
            assert forall|i: int| 0 <= i < m.queue.len() implies !after.asked.contains((#[trigger] m.queue[i]).1) by {
                assert(m.queue[i].1.len() >= 2);
            }
        }
    } else if m.exhaustive {
        crate::combo::plan_exact(n, n, c);
        crate::combo::plan_distinct(n, n);
        assert(m.plan.contains(c));
        assert(!m.asked.contains(c)) by {
            if m.asked.contains(c) {
                let k = choose|k: int| 0 <= k < m.asked.len() && m.asked[k] == c;
                if k < n {
                    assert(m.asked[k] == seq![k as usize]);
                } else {
                    assert(m.asked[n + (k - n)] == m.plan[k - n]);
                }
            }
        }
        assert forall|i: int| 0 <= i < after.spent implies after.asked[n + i] == #[trigger] after.plan[i] by {
            if i < m.spent {
                assert(m.asked[n + i] == m.plan[i]);
            }
        }
    } else {
        let t = top(m.queue);
        top_in_range(m.queue);
        assert(m.queue[t].1 == c);
        let rest = m.queue.remove(t);
        assert(!m.asked.contains(c));
        assert forall|i: int, j: int| 0 <= i < j < rest.len() implies (#[trigger] rest[i]).1 != (#[trigger] rest[j]).1 by {
            let a = if i < t { i } else { i + 1 };
            let b = if j < t { j } else { j + 1 };
            assert(m.queue[a].1 != m.queue[b].1);
        }
        assert forall|i: int| 0 <= i < rest.len() implies {
            &&& combination((#[trigger] rest[i]).1, n)
            &&& rest[i].1.len() >= 2
            &&& !after.asked.contains(rest[i].1)
            &&& rest[i].1.len() >= 3 ==> after.asked.contains(rest[i].1.drop_last())
        } by {
            let k = if i < t { i } else { i + 1 };
            assert(m.queue[k] == rest[i]);
            if k < t {
                assert(m.queue[k].1 != m.queue[t].1);
            } else {
                assert(m.queue[t].1 != m.queue[k].1);
            }
        }
        if let Some(s) = score {
            let ext = extensions(m.singles, m.unit, c, s.cost);
            assert(c.last() < n);
            assert forall|i: int| 0 <= i < ext.len() implies {
                &&& combination((#[trigger] ext[i]).1, n)
                &&& ext[i].1.len() >= 3
                &&& ext[i].1.drop_last() == c
                &&& !after.asked.contains(ext[i].1)
            } by {
                let x = ext[i].1;
                let last = (c.last() + 1 + i) as usize;
                assert(x =~= c.push(last));
                assert(x.drop_last() =~= c);
                assert forall|a: int, b: int| 0 <= a < b < x.len() implies #[trigger] x[a] < #[trigger] x[b] by {
                    if b == c.len() {
                        if a < c.len() - 1 {
                            assert(c[a] < c[c.len() - 1]);
                        }
                    }
                }
                if m.asked.contains(x) {
                    let k = choose|k: int| 0 <= k < m.asked.len() && m.asked[k] == x;
                    assert(m.asked.contains(m.asked[k].drop_last()));
                }
                assert(x.len() != c.len());
            }
            assert forall|i: int, j: int| 0 <= i < rest.len() && 0 <= j < ext.len() implies (#[trigger] rest[i]).1 != (
            #[trigger] ext[j]).1 by {
                let k = if i < t { i } else { i + 1 };
                assert(m.queue[k] == rest[i]);
                if rest[i].1 == ext[j].1 {
                    assert(m.asked.contains(m.queue[k].1.drop_last()));
                }
            }
            assert forall|i: int, j: int| 0 <= i < j < ext.len() implies (#[trigger] ext[i]).1 != (#[trigger] ext[j]).1 by {
                assert(ext[i].1.last() != ext[j].1.last());
            }
            let queue = rest + ext;
            assert forall|i: int| 0 <= i < queue.len() implies {
                &&& combination((#[trigger] queue[i]).1, n)
                &&& queue[i].1.len() >= 2
                &&& !after.asked.contains(queue[i].1)
                &&& queue[i].1.len() >= 3 ==> after.asked.contains(queue[i].1.drop_last())
            } by {
                if i < rest.len() {
                    assert(queue[i] == rest[i]);
                } else {
                    assert(queue[i] == ext[i - rest.len()]);
                }
            }
            assert forall|i: int, j: int| 0 <= i < j < queue.len() implies (#[trigger] queue[i]).1 != (#[trigger] queue[j]).1 by {
                if j < rest.len() {
                    assert(queue[i] == rest[i] && queue[j] == rest[j]);
                } else if i < rest.len() {
                    assert(queue[i] == rest[i] && queue[j] == ext[j - rest.len()]);
                } else {
                    assert(queue[i] == ext[i - rest.len()] && queue[j] == ext[j - rest.len()]);
                }
            }
        }
    }
    assert forall|i: int| 0 <= i < after.costed.len() implies after.asked.contains((#[trigger] after.costed[i]).0) by {
        if i < m.costed.len() {
            assert(m.asked.contains(m.costed[i].0));
        }
    }
}

/// Where every combination fits the budget, a search that is over has asked
/// for each of them.
pub proof fn exhaustive_asks_for_all(m: SearchModel, c: Seq<usize>)
    requires
        search_inv(m),
        wanted(m) is None,
        m.exhaustive,
        combination(c, m.singles.len()),
    ensures
        m.asked.contains(c),
{
    let n = m.singles.len();
    if c.len() == 1 {
        let k = c[0] as int;
        assert(m.asked[k] == seq![k as usize]);
        assert(m.asked[k] =~= c);
    } else {
        crate::combo::plan_exact(n, n, c);
        crate::combo::increasing_fits(c, n, 0);
        let k = choose|k: int| 0 <= k < m.plan.len() && m.plan[k] == c;
        assert(m.asked[n + k] == m.plan[k]);
    }
}

/// A search that is over has asked for every single candidate, whatever the
/// budget.
pub proof fn search_asks_for_singles(m: SearchModel, i: int)
    requires
        search_inv(m),
        wanted(m) is None,
        0 <= i < m.singles.len(),
    ensures
        m.asked.contains(seq![i as usize]),
{
    assert(m.asked[i] == seq![i as usize]);
}

/// A pending combination.
#[derive(Debug)]
struct Entry {
    key: i128,
    idx: Vec<usize>,
}

/// A search for combinations worth a trial.
pub struct ComboSearch {
    candidates: Vec<String>,
    singles: Vec<i128>,
    unit: i128,
    budget: usize,
    exhaustive: bool,
    plan: Vec<Vec<usize>>,
    queue: Vec<Entry>,
    single: usize,
    spent: usize,
    costed: Vec<(Vec<usize>, Scored)>,
    asked: Ghost<Seq<Seq<usize>>>,
}

spec fn entries(s: Seq<Entry>) -> Seq<EntryModel> {
    s.map_values(|e: Entry| (e.key, e.idx@))
}

spec fn scores(s: Seq<(Vec<usize>, Scored)>) -> Seq<(Seq<usize>, Scored)> {
    s.map_values(|e: (Vec<usize>, Scored)| (e.0@, e.1))
}

impl View for ComboSearch {
    type V = SearchModel;

    closed spec fn view(&self) -> SearchModel {
        SearchModel {
            singles: self.singles@,
            unit: self.unit,
            budget: self.budget as nat,
            exhaustive: self.exhaustive,
            plan: lists(self.plan@),
            queue: entries(self.queue@),
            single: self.single as nat,
            spent: self.spent as nat,
            costed: scores(self.costed@),
            asked: self.asked@,
        }
    }
}

/// `a + b` within the range of a machine number.
fn sum_within(a: i128, b: i128) -> (r: i128)
    ensures
        r == within(a + b),
{
    match a.checked_add(b) {
        Some(sum) => sum,
        None => if a < 0 {
            i128::MIN
        } else {
            i128::MAX
        },
    }
}

/// `a * b` within the range of a machine number.
fn product_within(a: i64, b: i128) -> (r: i128)
    ensures
        r == within(a * b),
{
    let wide: i128 = a as i128;
    match wide.checked_mul(b) {
        Some(product) => product,
        None => {
            proof {
                assert((a < 0) == (b < 0) ==> a * b >= 0) by (nonlinear_arith);
                assert((a < 0) != (b < 0) ==> a * b <= 0) by (nonlinear_arith);
            }
            if (a < 0) == (b < 0) {
                i128::MAX
            } else {
                i128::MIN
            }
        },
    }
}

/// Whether `a` comes before `b` in lexicographic order.
fn index_before(a: &Vec<usize>, b: &Vec<usize>) -> (r: bool)
    ensures
        r == index_lt(a@, b@),
{
    let mut i: usize = 0;
    proof {
        assert(a@.skip(0) =~= a@);
        assert(b@.skip(0) =~= b@);
    }
    while i < a.len() && i < b.len()
        invariant
            i <= a@.len(),
            i <= b@.len(),
            index_lt(a@, b@) == index_lt(a@.skip(i as int), b@.skip(i as int)),
        decreases a@.len() - i,
    {
        proof {
            assert(a@.skip(i as int).drop_first() =~= a@.skip(i + 1));
            assert(b@.skip(i as int).drop_first() =~= b@.skip(i + 1));
        }
        if a[i] != b[i] {
            return a[i] < b[i];
        }
        i = i + 1;
    }
    i < b.len()
}

/// The place of the entry to price next.
fn top_entry(queue: &Vec<Entry>) -> (r: usize)
    requires
        queue@.len() > 0,
    ensures
        r < queue@.len(),
        r == top(entries(queue@)),
{
    let ghost all = entries(queue@);
    let mut best: usize = 0;
    let mut i: usize = 1;
    while i < queue.len()
        invariant
            1 <= i <= queue@.len(),
            best < i,
            all == entries(queue@),
            best == top(all.take(i as int)),
        decreases queue@.len() - i,
    {
        proof {
            assert(all.take(i + 1).drop_last() =~= all.take(i as int));
            assert(all.take(i + 1).last() == all[i as int]);
            assert(all.take(i + 1)[best as int] == all[best as int]);
        }
        let a = &queue[i];
        let b = &queue[best];
        if a.key > b.key || (a.key == b.key && index_before(&a.idx, &b.idx)) {
            best = i;
        }
        i = i + 1;
    }
    proof {
        assert(all.take(queue@.len() as int) =~= all);
    }
    best
}

/// The candidates' own costs, as `known` gives them.
pub open spec fn singles_of(candidates: Seq<Text>, known: Seq<SingletonCost>) -> Seq<i128> {
    candidates.map_values(|c: Text| singleton_cost(known, c, 0))
}

/// Whether all combinations of two or more of `n` candidates fit the budget.
fn all_fit(n: usize, budget: usize) -> (r: bool)
    ensures
        r == fits(n as nat, budget as nat),
{
    if n >= 63 {
        return budget >= usize::MAX;
    }
    let mut power: u64 = 1;
    let mut i: usize = 0;
    proof {
        two_to_monotone(0, 62);
    }
    while i < n
        invariant
            i <= n < 63,
            power == two_to(i as nat),
            power <= two_to(62),
            i < power,
        decreases n - i,
    {
        proof {
            two_to_monotone((i + 1) as nat, 62);
            assert(two_to(62) == 0x4000_0000_0000_0000) by {
                two_to_62();
            }
        }
        power = power * 2;
        i = i + 1;
    }
    power - 1 - n as u64 <= budget as u64
}

proof fn two_to_monotone(a: nat, b: nat)
    requires
        a <= b,
    ensures
        two_to(a) <= two_to(b),
    decreases b,
{
    if a < b {
        two_to_monotone(a, (b - 1) as nat);
    }
}

proof fn two_to_62()
    ensures
        two_to(62) == 0x4000_0000_0000_0000,
{
    reveal_with_fuel(two_to, 63);
}

/// A search over `candidates`, which are in canonical order, whose own costs
/// `known` gives and which may price `budget` combinations of two or more. A
/// unit of the prices is `unit` of the units of `known`.
pub fn search_combos(candidates: &Vec<String>, known: &Vec<SingletonCost>, budget: usize, unit: i128) -> (r: ComboSearch)
    ensures
        r@ == new_search(singles_of(texts(candidates@), known@), budget as nat, unit),
        r.names() == texts(candidates@),
        search_inv(r@),
        r.wf(),
{
    let n: usize = candidates.len();
    let ghost costs = singles_of(texts(candidates@), known@);
    let mut singles: Vec<i128> = Vec::new();
    let mut i: usize = 0;
    while i < n
        invariant
            i <= n == candidates@.len(),
            costs == singles_of(texts(candidates@), known@),
            singles@ == costs.take(i as int),
        decreases n - i,
    {
        let mut cost: i128 = 0;
        let mut j: usize = 0;
        let mut found = false;
        while j < known.len() && !found
            invariant
                i < n == candidates@.len(),
                j <= known@.len(),
                found ==> cost == singleton_cost(known@, candidates@[i as int]@, 0),
                !found ==> cost == 0 && singleton_cost(known@, candidates@[i as int]@, 0) == singleton_cost(
                    known@,
                    candidates@[i as int]@,
                    j as nat,
                ),
            decreases known@.len() - j,
        {
            if known[j].node == candidates[i] {
                cost = known[j].cost;
                found = true;
            }
            j = j + 1;
        }
        singles.push(cost);
        proof {
            assert(costs[i as int] == singleton_cost(known@, candidates@[i as int]@, 0));
            assert(costs.take(i + 1) =~= costs.take(i as int).push(costs[i as int]));
        }
        i = i + 1;
    }
    proof {
        assert(costs.take(n as int) =~= costs);
    }
    let exhaustive = all_fit(n, budget);
    let mut plan: Vec<Vec<usize>> = Vec::new();
    let mut queue: Vec<Entry> = Vec::new();
    if exhaustive {
        plan = crate::combo::whole_plan(n);
        proof {
            assert(entries(queue@) =~= Seq::<EntryModel>::empty());
        }
    } else {
        let pairs = combos_from(n, 0, 2);
        let ghost want = pair_entries(costs);
        let mut i: usize = 0;
        while i < pairs.len()
            invariant
                i <= pairs@.len(),
                n == costs.len() == singles@.len(),
                singles@ == costs,
                lists(pairs@) == index_combos(n as nat, 0, 2),
                want == pair_entries(costs),
                entries(queue@) == want.take(i as int),
            decreases pairs@.len() - i,
        {
            proof {
                let c = lists(pairs@)[i as int];
                assert(c == pairs@[i as int]@);
                index_combos_exact(n as nat, 0, 2, c);
                assert(lists(pairs@).contains(c));
            }
            let key = sum_within(singles[pairs[i][0]], singles[pairs[i][1]]);
            let ghost before = entries(queue@);
            queue.push(Entry { key, idx: copy_list(&pairs[i]) });
            proof {
                assert(entries(queue@) =~= before.push(want[i as int]));
                assert(want.take(i + 1) =~= want.take(i as int).push(want[i as int]));
            }
            i = i + 1;
        }
        proof {
            assert(want.take(pairs@.len() as int) =~= want);
            assert(lists(plan@) =~= Seq::<Seq<usize>>::empty());
        }
    }
    let r = ComboSearch {
        candidates: copy_texts(candidates),
        singles,
        unit,
        budget,
        exhaustive,
        plan,
        queue,
        single: 0,
        spent: 0,
        costed: Vec::new(),
        asked: Ghost(Seq::<Seq<usize>>::empty()),
    };
    proof {
        assert(scores(r.costed@) =~= Seq::<(Seq<usize>, Scored)>::empty());
        assert(lists(r.plan@).len() == r.plan.len());
        assert(r@ =~= new_search(costs, budget as nat, unit));
        new_search_inv(costs, budget as nat, unit);
    }
    r
}

impl ComboSearch {
    /// The candidates' names.
    pub closed spec fn names(&self) -> Seq<Text> {
        texts(self.candidates@)
    }

    /// There is a name to every cost, and the search keeps its invariant.
    pub closed spec fn wf(&self) -> bool {
        self.candidates@.len() == self.singles@.len() && search_inv(self@)
    }

    /// A search asks for no combination twice, for each candidate alone once at
    /// most, and for no more larger ones than its budget allows.
    pub proof fn keeps_to_its_budget(&self)
        requires
            self.wf(),
        ensures
            search_inv(self@),
            self@.asked.no_duplicates(),
            self@.asked.len() <= self@.singles.len() + self@.budget,
    {
    }

    /// The members of the combination to price next; none where the search is
    /// over.
    pub fn wanted(&self) -> (r: Option<Vec<String>>)
        requires
            self.wf(),
        ensures
            match r {
                Some(members) => wanted(self@) is Some && texts(members@) == named(self.names(), wanted(self@)->Some_0),
                None => wanted(self@) is None,
            },
    {
        match self.next_index() {
            Some(c) => {
                proof {
                    self.wanted_in_range();
                }
                Some(names_at(&self.candidates, &c))
            },
            None => None,
        }
    }

    proof fn wanted_in_range(&self)
        requires
            self.wf(),
            wanted(self@) is Some,
        ensures
            combination(wanted(self@)->Some_0, self.singles@.len()),
    {
        let m = self@;
        recorded_inv(m, None);
        let after = recorded(m, None);
        assert(after.asked[m.asked.len() as int] == wanted(m)->Some_0);
    }

    /// The places of the combination to price next.
    fn next_index(&self) -> (r: Option<Vec<usize>>)
        requires
            self.wf(),
        ensures
            match r {
                Some(c) => wanted(self@) == Some(c@),
                None => wanted(self@) is None,
            },
    {
        proof {
            assert(self@.queue.len() == self.queue@.len());
            assert(self@.plan.len() == self.plan@.len());
        }
        if self.single < self.singles.len() {
            let mut c: Vec<usize> = Vec::new();
            c.push(self.single);
            proof {
                assert(c@ =~= seq![self.single]);
            }
            Some(c)
        } else if self.exhaustive {
            if self.spent < self.plan.len() {
                Some(copy_list(&self.plan[self.spent]))
            } else {
                None
            }
        } else if self.spent < self.budget && self.queue.len() > 0 {
            let t = top_entry(&self.queue);
            Some(copy_list(&self.queue[t].idx))
        } else {
            None
        }
    }

    /// Takes in what the combination that `wanted` named was measured at;
    /// none where it could not be priced.
    pub fn record(&mut self, score: Option<Scored>)
        requires
            old(self).wf(),
            wanted(old(self)@) is Some,
        ensures
            final(self).wf(),
            final(self).names() == old(self).names(),
            final(self)@ == recorded(old(self)@, score),
    {
        let ghost m = self@;
        let ghost names = self.names();
        proof {
            recorded_inv(m, score);
            self.wanted_in_range();
            assert(m.queue.len() == self.queue@.len());
            assert(m.plan.len() == self.plan@.len());
        }
        if let Some(c) = self.next_index() {
            let ghost members = c@;
            let lazy = self.single >= self.singles.len() && !self.exhaustive;
            if self.single < self.singles.len() {
                self.single = self.single + 1;
            } else {
                self.spent = self.spent + 1;
            }
            if lazy {
                let t = top_entry(&self.queue);
                let ghost queued = entries(self.queue@);
                self.queue.remove(t);
                proof {
                    assert(entries(self.queue@) =~= queued.remove(t as int));
                }
                if let Some(s) = score {
                    self.extend(&c, s.cost);
                }
            }
            if let Some(s) = score {
                let ghost had = scores(self.costed@);
                self.costed.push((c, s));
                proof {
                    assert(scores(self.costed@) =~= had.push((members, s)));
                }
            }
            self.asked = Ghost(self.asked@.push(members));
            proof {
                assert(self@ =~= recorded(m, score));
            }
        }
    }

    /// Puts the extensions of `c`, which was measured at `cost`, into the queue.
    fn extend(&mut self, c: &Vec<usize>, cost: i64)
        requires
            combination(c@, old(self).singles@.len()),
        ensures
            final(self)@ == (SearchModel {
                queue: old(self)@.queue + extensions(old(self)@.singles, old(self)@.unit, c@, cost),
                ..old(self)@
            }),
            final(self).candidates == old(self).candidates,
            final(self).singles == old(self).singles,
            final(self).unit == old(self).unit,
            final(self).budget == old(self).budget,
            final(self).exhaustive == old(self).exhaustive,
            final(self).plan == old(self).plan,
            final(self).single == old(self).single,
            final(self).spent == old(self).spent,
            final(self).costed == old(self).costed,
            final(self).asked == old(self).asked,
    {
        let ghost base = entries(self.queue@);
        let ghost ext = extensions(self.singles@, self.unit, c@, cost);
        let measured = product_within(cost, self.unit);
        let last: usize = c[c.len() - 1];
        let n: usize = self.singles.len();
        let mut j: usize = last + 1;
        proof {
            assert(base + ext.take(0) =~= base);
        }
        while j < n
            invariant
                last < j <= n,
                n == self.singles@.len(),
                last == c@.last(),
                combination(c@, n as nat),
                self.singles == old(self).singles,
                self.unit == old(self).unit,
                self.candidates == old(self).candidates,
                self.budget == old(self).budget,
                self.exhaustive == old(self).exhaustive,
                self.plan == old(self).plan,
                self.single == old(self).single,
                self.spent == old(self).spent,
                self.costed == old(self).costed,
                self.asked == old(self).asked,
                ext == extensions(self.singles@, self.unit, c@, cost),
                measured == within(cost * self.unit),
                entries(self.queue@) == base + ext.take(j - last - 1),
            decreases n - j,
        {
            let mut idx = copy_list(c);
            idx.push(j);
            let key = sum_within(measured, self.singles[j]);
            let ghost had = entries(self.queue@);
            let ghost at = j - last - 1;
            self.queue.push(Entry { key, idx });
            proof {
                assert(ext[at] == (key, idx@));
                assert(entries(self.queue@) =~= had.push(ext[at]));
                assert(ext.take(at + 1) =~= ext.take(at).push(ext[at]));
            }
            j = j + 1;
        }
        proof {
            assert(ext.take(ext.len() as int) =~= ext);
            assert(self@ =~= (SearchModel { queue: base + ext, ..old(self)@ }));
        }
    }

    /// The combinations that were priced and remove something, in the order of
    /// `objective`. Nothing, where nothing could be priced.
    pub fn results(&self, objective: HmpObjective) -> (r: Vec<CostedCombo>)
        requires
            self.wf(),
        ensures
            stably_sorted(
                combo_models(r@),
                kept(self@, self.names(), self@.costed.len()),
                objective_le(objective),
            ),
    {
        let ghost m = self@;
        let mut out: Vec<CostedCombo> = Vec::new();
        let mut i: usize = 0;
        proof {
            assert(combo_models(out@) =~= Seq::<ComboModel>::empty());
        }
        while i < self.costed.len()
            invariant
                i <= self.costed@.len(),
                self.wf(),
                m == self@,
                combo_models(out@) == kept(m, self.names(), i as nat),
            decreases self.costed@.len() - i,
        {
            let ghost had = combo_models(out@);
            let s = self.costed[i].1;
            proof {
                assert(m.costed[i as int] == (self.costed@[i as int].0@, s));
                assert(m.asked.contains(m.costed[i as int].0));
                let k = choose|k: int| 0 <= k < m.asked.len() && m.asked[k] == m.costed[i as int].0;
                assert(combination(m.asked[k], self.singles@.len()));
            }
            if s.cost > 0 {
                out.push(
                    CostedCombo {
                        combo: names_at(&self.candidates, &self.costed[i].0),
                        cost: s.cost,
                        makespan: s.makespan,
                        stages: s.stages,
                    },
                );
                proof {
                    assert(combo_models(out@) =~= kept(m, self.names(), (i + 1) as nat));
                }
            }
            i = i + 1;
        }
        proof {
            assert(m.costed.len() == self.costed@.len());
        }
        order_by(&out, objective)
    }
}

/// A candidate and its cost.
pub type ScoreModel = (Text, i128);

/// Candidates and their costs.
pub open spec fn score_models(s: Seq<SingletonCost>) -> Seq<ScoreModel> {
    s.map_values(|x: SingletonCost| (x.node@, x.cost))
}

/// The higher cost first, and of equal costs the name that comes first.
pub open spec fn score_le() -> spec_fn(ScoreModel, ScoreModel) -> bool {
    |a: ScoreModel, b: ScoreModel| a.1 > b.1 || (a.1 == b.1 && text_le(a.0, b.0))
}

/// `list`, the highest cost first.
pub fn rank_scores(list: &Vec<SingletonCost>) -> (r: Vec<SingletonCost>)
    ensures
        stably_sorted(score_models(r@), score_models(list@), score_le()),
        r@.len() == list@.len(),
{
    let ghost items = score_models(list@);
    let ghost le = score_le();
    proof {
        assert forall|i: int, j: int| 0 <= i < items.len() && 0 <= j < items.len() implies #[trigger] le(
            items[i],
            items[j],
        ) || le(items[j], items[i]) by {
            text_le_total(items[i].0, items[j].0);
        }
        assert forall|i: int, j: int, k: int|
            0 <= i < items.len() && 0 <= j < items.len() && 0 <= k < items.len() && #[trigger] le(items[i], items[j])
                && #[trigger] le(items[j], items[k]) implies le(items[i], items[k]) by {
            if items[i].1 == items[j].1 && items[j].1 == items[k].1 {
                text_le_transitive(items[i].0, items[j].0, items[k].0);
            }
        }
    }
    let before = |a: usize, b: usize| -> (r: bool)
        requires
            a < list@.len(),
            b < list@.len(),
        ensures
            r == (list@[a as int].cost > list@[b as int].cost || (list@[a as int].cost == list@[b as int].cost && text_le(
                list@[a as int].node@,
                list@[b as int].node@,
            ))),
        { list[a].cost > list[b].cost || (list[a].cost == list[b].cost && at_most(list[a].node.as_str(), list[b].node.as_str())) };
    proof {
        assert forall|a: usize, b: usize, r: bool|
            a < list@.len() && b < list@.len() && call_ensures(before, (a, b), r) implies r == le(
            items[a as int],
            items[b as int],
        ) by {
            assert(items[a as int] == (list@[a as int].node@, list@[a as int].cost));
            assert(items[b as int] == (list@[b as int].node@, list@[b as int].cost));
        }
    }
    let p = order_positions::<ScoreModel, _>(Ghost(items), Ghost(le), list.len(), before);
    let mut out: Vec<SingletonCost> = Vec::new();
    let mut i: usize = 0;
    while i < p.len()
        invariant
            i <= p@.len(),
            items == score_models(list@),
            stable_order(p@, items, le),
            score_models(out@) == picked(items, p@).take(i as int),
        decreases p@.len() - i,
    {
        let ghost had = score_models(out@);
        out.push(SingletonCost { node: list[p[i]].node.clone(), cost: list[p[i]].cost });
        proof {
            let all = picked(items, p@);
            assert(score_models(out@) =~= had.push(all[i as int]));
            assert(all.take(i + 1) =~= all.take(i as int).push(all[i as int]));
        }
        i = i + 1;
    }
    proof {
        let all = picked(items, p@);
        assert(all.take(p@.len() as int) =~= all);
        assert(score_models(out@).len() == out@.len());
    }
    out
}

/// What the first `n` candidates cost together.
pub open spec fn score_sum(s: Seq<SingletonCost>, n: nat) -> i128
    decreases n,
{
    if n == 0 {
        0
    } else {
        within(score_sum(s, (n - 1) as nat) + s[n - 1].cost)
    }
}

/// The first `n` candidates come to the share, in millionths, of all of them.
pub open spec fn covers_share(s: Seq<SingletonCost>, share: u64, n: nat) -> bool {
    score_sum(s, n) * 1000000 >= share * score_sum(s, s.len())
}

/// The candidates worth searching are the first `n`: the fewest that come to
/// the share, and none where all of them together cost nothing.
pub open spec fn is_working_set(s: Seq<SingletonCost>, share: u64, n: nat) -> bool {
    if score_sum(s, s.len()) <= 0 {
        n == 0
    } else {
        &&& 1 <= n <= s.len()
        &&& covers_share(s, share, n)
        &&& forall|m: nat| 1 <= m < n ==> !#[trigger] covers_share(s, share, m)
    }
}

/// The least cost that comes to `share` millionths of `total`.
fn share_of(share: u64, total: i128) -> (r: i128)
    requires
        share <= 1000000,
        0 < total,
    ensures
        forall|cost: int| cost >= r <==> #[trigger] (cost * 1000000) >= share * total,
{
    let whole: i128 = total / 1000000;
    let rest: i128 = total % 1000000;
    proof {
        assert(0 <= share * whole <= 1000000 * whole) by (nonlinear_arith)
            requires
                0 <= share <= 1000000,
                0 <= whole,
        ;
        assert(0 <= share * rest <= 1000000 * rest) by (nonlinear_arith)
            requires
                0 <= share <= 1000000,
                0 <= rest,
        ;
        assert(share * total == share * whole * 1000000 + share * rest) by (nonlinear_arith)
            requires
                total == whole * 1000000 + rest,
        ;
    }
    share as i128 * whole + (share as i128 * rest + 999999) / 1000000
}

/// The nodes of a ranking.
pub open spec fn score_nodes(s: Seq<SingletonCost>) -> Seq<Text> {
    s.map_values(|x: SingletonCost| x.node@)
}

/// The candidates worth searching: the shortest beginning of the ranking that
/// comes to `share` millionths of the whole.
pub fn working_set_from(scores: &Vec<SingletonCost>, share: u64) -> (r: Vec<String>)
    requires
        share <= 1000000,
    ensures
        is_working_set(scores@, share, r@.len()),
        texts(r@) == score_nodes(scores@).take(r@.len() as int),
{
    let mut total: i128 = 0;
    let mut i: usize = 0;
    while i < scores.len()
        invariant
            i <= scores@.len(),
            total == score_sum(scores@, i as nat),
        decreases scores@.len() - i,
    {
        total = sum_within(total, scores[i].cost);
        i = i + 1;
    }
    let mut out: Vec<String> = Vec::new();
    proof {
        assert(texts(out@) =~= score_nodes(scores@).take(0));
    }
    if total <= 0 {
        return out;
    }
    let enough: i128 = share_of(share, total);
    let mut sum: i128 = 0;
    let mut j: usize = 0;
    while j < scores.len()
        invariant
            j <= scores@.len(),
            total == score_sum(scores@, scores@.len()),
            total > 0,
            forall|cost: int| cost >= enough <==> #[trigger] (cost * 1000000) >= share * total,
            sum == score_sum(scores@, j as nat),
            out@.len() == j,
            texts(out@) == score_nodes(scores@).take(j as int),
            forall|m: nat| 1 <= m <= j ==> !#[trigger] covers_share(scores@, share, m),
        decreases scores@.len() - j,
    {
        let ghost had = texts(out@);
        sum = sum_within(sum, scores[j].cost);
        out.push(scores[j].node.clone());
        proof {
            let all = score_nodes(scores@);
            assert(texts(out@) =~= had.push(all[j as int]));
            assert(all.take(j + 1) =~= all.take(j as int).push(all[j as int]));
            assert(sum == score_sum(scores@, (j + 1) as nat));
            assert((sum >= enough) == (sum * 1000000 >= share * total));
            assert(covers_share(scores@, share, (j + 1) as nat) == (sum >= enough));
        }
        if sum >= enough {
            return out;
        }
        j = j + 1;
    }
    proof {
        let n = scores@.len();
        if n > 0 {
            assert(!covers_share(scores@, share, n));
            assert(total * 1000000 >= share * total) by (nonlinear_arith)
                requires
                    share <= 1000000,
                    total > 0,
            ;
        }
    }
    out
}

/// Asking for a larger share never shortens the working set.
pub proof fn larger_share_searches_more(s: Seq<SingletonCost>, low: u64, high: u64, m: nat, n: nat)
    requires
        low <= high,
        is_working_set(s, low, m),
        is_working_set(s, high, n),
    ensures
        m <= n,
{
    if n < m {
        let total = score_sum(s, s.len());
        assert(covers_share(s, low, n)) by {
            assert(low * total <= high * total) by (nonlinear_arith)
                requires
                    low <= high,
                    total > 0,
            ;
        }
    }
}

proof fn scores_taken(a: Seq<SingletonCost>, b: Seq<SingletonCost>, n: nat)
    requires
        n <= a.len(),
        n <= b.len(),
        forall|i: int| 0 <= i < n ==> a[i] == b[i],
    ensures
        score_sum(a, n) == score_sum(b, n),
    decreases n,
{
    if n > 0 {
        scores_taken(a, b, (n - 1) as nat);
    }
}

/// Every candidate's cost counts: one more adds its own.
pub proof fn every_score_counts(s: Seq<SingletonCost>, x: SingletonCost)
    requires
        i128::MIN <= score_sum(s, s.len()) + x.cost <= i128::MAX,
    ensures
        score_sum(s.push(x), s.len() + 1) == score_sum(s, s.len()) + x.cost,
        score_sum(s, 0) == 0,
{
    scores_taken(s, s.push(x), s.len());
    assert(s.push(x)[s.len() as int] == x);
}

/// The whole share takes every candidate that costs something; and a first
/// candidate that comes to the share by itself is all that is searched.
pub proof fn the_whole_share_takes_everything(s: Seq<SingletonCost>, n: nat, share: u64, m: nat)
    requires
        s.len() > 0,
        is_working_set(s, 1000000, n),
        is_working_set(s, share, m),
        share <= 1000000,
        forall|i: int| 0 <= i < s.len() ==> (#[trigger] s[i]).cost > 0,
        forall|k: nat| k <= s.len() ==> #[trigger] score_sum(s, k) < i128::MAX,
    ensures
        n == s.len(),
        s[0].cost * 1000000 >= share * score_sum(s, s.len()) ==> m == 1,
        m > 1 ==> s[0].cost * 1000000 < share * score_sum(s, s.len()),
{
    sums_rise(s, s.len());
    sums_rise(s, (s.len() - 1) as nat);
    if n < s.len() {
        sum_below(s, n, s.len());
        assert(covers_share(s, 1000000, n));
    }
    assert(score_sum(s, 0) == 0);
    assert(score_sum(s, 1) == within(s[0].cost as int));
    if m > 1 {
        assert(!covers_share(s, share, 1));
    }
}

proof fn sums_rise(s: Seq<SingletonCost>, n: nat)
    requires
        n <= s.len(),
        forall|i: int| 0 <= i < s.len() ==> (#[trigger] s[i]).cost > 0,
        forall|k: nat| k <= s.len() ==> #[trigger] score_sum(s, k) < i128::MAX,
    ensures
        score_sum(s, n) >= 0,
        n > 0 ==> score_sum(s, n) > score_sum(s, (n - 1) as nat),
    decreases n,
{
    if n > 0 {
        sums_rise(s, (n - 1) as nat);
        assert(s[n - 1].cost > 0);
        assert(score_sum(s, n) < i128::MAX);
    }
}

proof fn sum_below(s: Seq<SingletonCost>, m: nat, n: nat)
    requires
        m < n <= s.len(),
        forall|i: int| 0 <= i < s.len() ==> (#[trigger] s[i]).cost > 0,
        forall|k: nat| k <= s.len() ==> #[trigger] score_sum(s, k) < i128::MAX,
    ensures
        score_sum(s, m) < score_sum(s, n),
    decreases n,
{
    sums_rise(s, n);
    if m < n - 1 {
        sum_below(s, m, (n - 1) as nat);
    }
}

/// A pair is estimated at what its two members cost, and what extends a priced
/// combination at its price and what the new member costs.
pub proof fn an_estimate_adds_a_member(singles: Seq<i128>, t: int, unit: i128, c: Seq<usize>, cost: i64, j: int)
    requires
        singles.len() <= usize::MAX,
        0 <= t < pair_entries(singles).len(),
        c.len() > 0,
        c.last() < singles.len(),
        0 <= j < singles.len() - c.last() - 1,
    ensures
        pair_entries(singles)[t].1.len() == 2,
        ({
            let (a, b) = (singles[pair_entries(singles)[t].1[0] as int], singles[pair_entries(singles)[t].1[1] as int]);
            i128::MIN <= a + b <= i128::MAX ==> pair_entries(singles)[t].0 == a + b
        }),
        ({
            let x = singles[c.last() + 1 + j];
            i128::MIN <= cost * unit <= i128::MAX && i128::MIN <= cost * unit + x <= i128::MAX ==> extensions(
                singles,
                unit,
                c,
                cost,
            )[j].0 == cost * unit + x
        }),
        extensions(singles, unit, c, cost)[j].1 == c.push((c.last() + 1 + j) as usize),
        extensions(singles, unit, c, cost).len() == singles.len() - c.last() - 1,
{
    let all = index_combos(singles.len(), 0, 2);
    index_combos_exact(singles.len(), 0, 2, all[t]);
    assert(all.contains(all[t]));
}

/// What is kept is what was priced and removes something.
pub proof fn what_removes_work_is_kept(m: SearchModel, candidates: Seq<Text>, upto: nat, i: int) -> (k: int)
    requires
        0 <= i < upto <= m.costed.len(),
        m.costed[i].1.cost > 0,
    ensures
        0 <= k < kept(m, candidates, upto).len(),
        kept(m, candidates, upto)[k].cost == m.costed[i].1.cost,
        kept(m, candidates, upto)[k].makespan == m.costed[i].1.makespan,
        kept(m, candidates, upto)[k].combo == named(candidates, m.costed[i].0),
        kept(m, candidates, upto).len() <= upto,
        forall|w: int| 0 <= w < kept(m, candidates, upto).len() ==> (#[trigger] kept(m, candidates, upto)[w]).cost > 0,
    decreases upto,
{
    let rest = kept(m, candidates, (upto - 1) as nat);
    kept_removes(m, candidates, upto);
    if i == upto - 1 {
        rest.len() as int
    } else {
        what_removes_work_is_kept(m, candidates, (upto - 1) as nat, i)
    }
}

proof fn kept_removes(m: SearchModel, candidates: Seq<Text>, upto: nat)
    requires
        upto <= m.costed.len(),
    ensures
        kept(m, candidates, upto).len() <= upto,
        forall|w: int| 0 <= w < kept(m, candidates, upto).len() ==> (#[trigger] kept(m, candidates, upto)[w]).cost > 0,
    decreases upto,
{
    if upto > 0 {
        kept_removes(m, candidates, (upto - 1) as nat);
    }
}

/// A candidate's own cost is what the first entry for it says, and nothing where
/// there is none.
pub proof fn the_first_score_counts(known: Seq<SingletonCost>, node: Text, from: nat, i: int)
    requires
        from <= i <= known.len(),
        i < known.len() ==> known[i].node@ == node,
        forall|j: int| from <= j < i ==> (#[trigger] known[j]).node@ != node,
    ensures
        i < known.len() ==> singleton_cost(known, node, from) == known[i].cost,
        i == known.len() ==> singleton_cost(known, node, from) == 0,
    decreases known.len() - from,
{
    if from < i {
        assert(known[from as int].node@ != node);
        the_first_score_counts(known, node, from + 1, i);
    }
}

/// Of two lists of numbers that begin alike, the one with the smaller number
/// behind comes first; a list comes before those that go on from it, and none
/// before itself.
pub proof fn the_first_differing_number_decides(p: Seq<usize>, x: usize, y: usize, a: Seq<usize>, b: Seq<usize>)
    requires
        x < y,
    ensures
        index_lt(p + seq![x] + a, p + seq![y] + b),
        !index_lt(p + seq![y] + b, p + seq![x] + a),
        a.len() > 0 ==> index_lt(p, p + a),
        !index_lt(p + a, p),
    decreases p.len(),
{
    let left = p + seq![x] + a;
    let right = p + seq![y] + b;
    if p.len() == 0 {
        assert(left[0] == x);
        assert(right[0] == y);
        assert(p + a =~= a);
    } else {
        let q = p.drop_first();
        the_first_differing_number_decides(q, x, y, a, b);
        assert(left.drop_first() =~= q + seq![x] + a);
        assert(right.drop_first() =~= q + seq![y] + b);
        assert((p + a).drop_first() =~= q + a);
        assert(left[0] == p[0]);
        assert(right[0] == p[0]);
        assert((p + a)[0] == p[0]);
    }
}

/// Whatever was asked for is noted, and what it was found to be worth with it;
/// the budget is spent on combinations of more than one alone.
pub proof fn what_is_asked_for_is_noted(m: SearchModel, score: Option<Scored>)
    requires
        wanted(m) is Some,
    ensures
        recorded(m, score).asked == m.asked.push(wanted(m)->0),
        score is Some ==> recorded(m, score).costed == m.costed.push((wanted(m)->0, score->0)),
        score is None ==> recorded(m, score).costed == m.costed,
        m.single < m.singles.len() ==> recorded(m, score).spent == m.spent && recorded(m, score).single == m.single + 1,
        m.single >= m.singles.len() ==> recorded(m, score).spent == m.spent + 1 && recorded(m, score).single == m.single,
        recorded(m, score).singles == m.singles,
        recorded(m, score).budget == m.budget,
        recorded(m, score).plan == m.plan,
        recorded(m, score).exhaustive == m.exhaustive,
{
}

/// All combinations are tried exactly where there are no more of them than the
/// budget allows.
pub proof fn everything_is_tried_where_it_fits(n: nat, budget: nat)
    requires
        n < 63,
    ensures
        fits(n, budget) <==> plan_of(n, n).len() <= budget,
{
    multi_count(n);
}

} // verus!
