//! A cost model fitted to what the engine did.
//!
//! Every operator of an executed plan says how long it took and how much data
//! it consumed: a rate for that kind of operator. Rates accumulate across
//! runs, weighted by bytes, and price plans that were never executed. What a
//! write costs is kept apart, as a median over relations, because one large
//! table would set an average for all.
//!
//! Times are whole nanoseconds, rates whole femtoseconds per byte, and widths
//! whole thousandths of a byte; each is rounded to the nearest, and none leaves
//! the range of a machine number.

use vstd::prelude::*;

use crate::order::{order_positions, picked, stable_order, stably_sorted};
use crate::plan::{add_capped, cap64, rows_of, PlanNode};
use crate::table::TextMap;
use crate::text::{at_most, text_le, text_le_total, text_le_transitive, Text};

verus! {

/// The write path of an engine that has only one.
pub const SINGLE_WRITE_PATH: &'static str = "write";

/// `a / b` to the nearest whole number, up where it lies in the middle.
pub open spec fn nearest(a: nat, b: nat) -> nat {
    (2 * a + b) / (2 * b)
}

/// Femtoseconds per byte.
pub open spec fn rate_of(nanos: nat, bytes: nat) -> u64 {
    cap64(nearest(nanos * 1_000_000, bytes))
}

/// `bytes` at `rate` femtoseconds each, in nanoseconds.
pub open spec fn time_at(bytes: nat, rate: nat) -> u64 {
    cap64(nearest(bytes * rate, 1_000_000))
}

/// `rows` of `width` thousandths of a byte each, in bytes.
pub open spec fn bytes_in(rows: nat, width: nat) -> u64 {
    cap64(nearest(rows * width, 1000))
}

/// `a * b / c` to the nearest, within the range of a machine number.
fn scaled(a: u64, b: u64, c: u64) -> (r: u64)
    requires
        c > 0,
    ensures
        r == cap64(nearest((a as nat) * (b as nat), c as nat)),
        c == 1 ==> r == cap64((a as nat) * (b as nat)),
{
    proof {
        assert(a * b <= u64::MAX * u64::MAX) by (nonlinear_arith)
            requires
                a <= u64::MAX,
                b <= u64::MAX,
        ;
        assert(a * b >= 0) by (nonlinear_arith);
    }
    let product: u128 = (a as u128) * (b as u128);
    let down: u128 = product / (c as u128);
    let rest: u128 = product % (c as u128);
    proof {
        let p = product as int;
        let d = c as int;
        vstd::arithmetic::div_mod::lemma_fundamental_div_mod(p, d);
        assert(p == down * d + rest) by (nonlinear_arith)
            requires
                p == d * (p / d) + p % d,
                down == p / d,
                rest == p % d,
        ;
        assert(down <= p) by (nonlinear_arith)
            requires
                p == down * d + rest,
                d >= 1,
                rest >= 0,
                down >= 0,
        ;
        if rest >= d - rest {
            assert(2 * p + d == (down + 1) * (2 * d) + (2 * rest - d)) by (nonlinear_arith)
                requires
                    p == down * d + rest,
            ;
            vstd::arithmetic::div_mod::lemma_fundamental_div_mod_converse(
                2 * p + d,
                2 * d,
                down + 1,
                2 * rest - d,
            );
        } else {
            assert(2 * p + d == down * (2 * d) + (2 * rest + d)) by (nonlinear_arith)
                requires
                    p == down * d + rest,
            ;
            vstd::arithmetic::div_mod::lemma_fundamental_div_mod_converse(2 * p + d, 2 * d, down as int, 2 * rest + d);
        }
    }
    let quotient: u128 = if rest >= c as u128 - rest {
        down + 1
    } else {
        down
    };
    if quotient > u64::MAX as u128 {
        u64::MAX
    } else {
        quotient as u64
    }
}

/// Everything observed about one kind of operator. Sums, because sums merge.
#[derive(Debug, Clone, Copy, PartialEq, Eq, Structural)]
pub struct OperatorSamples {
    /// The sum over observations of their rates.
    pub rate_sum: u64,
    /// The observations behind `rate_sum`.
    pub rate_n: u64,
    /// The sum over observations of one output row's width, in bytes.
    pub width_sum: u64,
    /// The observations behind `width_sum`.
    pub width_n: u64,
    /// All measured time.
    pub time_total: u64,
    /// All bytes consumed in it.
    pub bytes_total: u64,
}

/// Nothing observed.
pub open spec fn no_samples() -> OperatorSamples {
    OperatorSamples { rate_sum: 0, rate_n: 0, width_sum: 0, width_n: 0, time_total: 0, bytes_total: 0 }
}

/// All observations of both.
pub open spec fn merged(a: OperatorSamples, b: OperatorSamples) -> OperatorSamples {
    OperatorSamples {
        rate_sum: cap64((a.rate_sum + b.rate_sum) as nat),
        rate_n: cap64((a.rate_n + b.rate_n) as nat),
        width_sum: cap64((a.width_sum + b.width_sum) as nat),
        width_n: cap64((a.width_n + b.width_n) as nat),
        time_total: cap64((a.time_total + b.time_total) as nat),
        bytes_total: cap64((a.bytes_total + b.bytes_total) as nat),
    }
}

/// The byte-weighted rate: all time over all bytes.
pub open spec fn weighted_rate(s: OperatorSamples) -> Option<u64> {
    if s.bytes_total > 0 {
        Some(rate_of(s.time_total as nat, s.bytes_total as nat))
    } else {
        None
    }
}

/// The mean width of an output row, in thousandths of a byte.
pub open spec fn mean_width(s: OperatorSamples) -> Option<u64> {
    if s.width_n > 0 {
        Some(cap64(nearest((s.width_sum as nat) * 1000, s.width_n as nat)))
    } else {
        None
    }
}

impl OperatorSamples {
    /// Nothing observed.
    pub fn new() -> (r: OperatorSamples)
        ensures
            r == no_samples(),
    {
        OperatorSamples { rate_sum: 0, rate_n: 0, width_sum: 0, width_n: 0, time_total: 0, bytes_total: 0 }
    }

    /// The byte-weighted rate, which prices a plan: a sighting counts for as
    /// much as the work it did.
    pub fn seconds_per_byte(&self) -> (r: Option<u64>)
        ensures
            r == weighted_rate(*self),
    {
        if self.bytes_total > 0 {
            Some(scaled(self.time_total, 1_000_000, self.bytes_total))
        } else {
            None
        }
    }

    /// The plain mean of the observed rates, every sighting counting once.
    pub fn unweighted_seconds_per_byte(&self) -> (r: Option<u64>)
        ensures
            r == if self.rate_n > 0 {
                Some(self.rate_sum / self.rate_n)
            } else {
                None
            },
    {
        if self.rate_n > 0 {
            Some(self.rate_sum / self.rate_n)
        } else {
            None
        }
    }

    /// The mean width of an output row, in thousandths of a byte.
    pub fn bytes_per_tuple(&self) -> (r: Option<u64>)
        ensures
            r == mean_width(*self),
    {
        if self.width_n > 0 {
            Some(scaled(self.width_sum, 1000, self.width_n))
        } else {
            None
        }
    }

    /// Folds the observations of `other` into these.
    pub fn merge(&mut self, other: &OperatorSamples)
        ensures
            *final(self) == merged(*old(self), *other),
    {
        self.rate_sum = add_capped(self.rate_sum, other.rate_sum);
        self.rate_n = add_capped(self.rate_n, other.rate_n);
        self.width_sum = add_capped(self.width_sum, other.width_sum);
        self.width_n = add_capped(self.width_n, other.width_n);
        self.time_total = add_capped(self.time_total, other.time_total);
        self.bytes_total = add_capped(self.bytes_total, other.bytes_total);
    }
}

/// The order of numbers.
pub open spec fn ascending() -> spec_fn(u64, u64) -> bool {
    |a: u64, b: u64| a <= b
}

/// `values` in ascending order.
pub fn sort_numbers(values: &Vec<u64>) -> (r: Vec<u64>)
    ensures
        stably_sorted(r@, values@, ascending()),
        r@.len() == values@.len(),
{
    let ghost items = values@;
    let ghost le = ascending();
    let before = |a: usize, b: usize| -> (r: bool)
        requires
            a < values@.len(),
            b < values@.len(),
        ensures
            r == (values@[a as int] <= values@[b as int]),
        { values[a] <= values[b] };
    let p = order_positions::<u64, _>(Ghost(items), Ghost(le), values.len(), before);
    let mut out: Vec<u64> = Vec::new();
    let mut i: usize = 0;
    while i < p.len()
        invariant
            i <= p@.len(),
            items == values@,
            stable_order(p@, items, le),
            out@ == picked(items, p@).take(i as int),
        decreases p@.len() - i,
    {
        out.push(values[p[i]]);
        proof {
            let all = picked(items, p@);
            assert(all.take(i + 1) =~= all.take(i as int).push(all[i as int]));
        }
        i = i + 1;
    }
    proof {
        let all = picked(items, p@);
        assert(all.take(p@.len() as int) =~= all);
    }
    out
}

/// Twice the middle of a sorted list: the middle member, or half the sum of the
/// two in the middle.
pub open spec fn twice_middle(s: Seq<u64>) -> nat {
    let mid = s.len() / 2;
    if s.len() % 2 == 0 {
        (s[mid - 1] + s[mid as int]) as nat
    } else {
        2 * s[mid as int] as nat
    }
}

/// `r` is twice the median of `values`: none where there is no value.
pub open spec fn is_twice_median(values: Seq<u64>, r: Option<u128>) -> bool {
    match r {
        None => values.len() == 0,
        Some(t) => values.len() > 0 && exists|s: Seq<u64>|
            #[trigger] stably_sorted(s, values, ascending()) && t == twice_middle(s),
    }
}

/// Twice the middle observation of `values`; none where there are none. Twice,
/// so that the mean of two middle observations is exact.
pub fn median(values: &Vec<u64>) -> (r: Option<u128>)
    ensures
        is_twice_median(values@, r),
{
    if values.len() == 0 {
        return None;
    }
    let sorted = sort_numbers(values);
    let mid: usize = sorted.len() / 2;
    if sorted.len() % 2 == 0 {
        Some(sorted[mid - 1] as u128 + sorted[mid] as u128)
    } else {
        Some(2 * (sorted[mid] as u128))
    }
}

/// A rate per relation written, the latest for each.
#[derive(Debug)]
pub struct WriteSamples {
    per_relation: TextMap<u64>,
}

impl View for WriteSamples {
    type V = Map<Text, u64>;

    closed spec fn view(&self) -> Map<Text, u64> {
        self.per_relation@
    }
}

/// The values of a map in the order of a list of keys.
pub open spec fn values_in(m: Map<Text, u64>, keys: Seq<Text>) -> Seq<u64> {
    keys.map_values(|k: Text| m[k])
}

/// `keys` lists the keys of `m`, each once.
pub open spec fn lists_keys<V>(m: Map<Text, V>, keys: Seq<Text>) -> bool {
    keys.no_duplicates() && forall|k: Text| keys.contains(k) <==> #[trigger] m.contains_key(k)
}

/// `r` is the median rate over relations, rounded down; none where none was
/// observed.
pub open spec fn is_median_rate(m: Map<Text, u64>, r: Option<u64>) -> bool {
    exists|keys: Seq<Text>|
        #[trigger] lists_keys(m, keys) && match r {
            None => keys.len() == 0,
            Some(x) => exists|t: u128| #[trigger] is_twice_median(values_in(m, keys), Some(t)) && x == t / 2,
        }
}

impl WriteSamples {
    pub closed spec fn wf(&self) -> bool {
        self.per_relation.wf()
    }

    /// No relation observed.
    pub fn new() -> (r: WriteSamples)
        ensures
            r.wf(),
            r@ == Map::<Text, u64>::empty(),
    {
        WriteSamples { per_relation: TextMap::new() }
    }

    /// Takes in the rate at which `relation` was written, in place of the one
    /// it was written at before.
    pub fn observe(&mut self, relation: &str, rate: u64)
        requires
            old(self).wf(),
        ensures
            final(self).wf(),
            final(self)@ == old(self)@.insert(relation@, rate),
    {
        self.per_relation.insert(relation, rate);
    }

    /// The median rate over relations, rounded down; none where none was
    /// observed.
    pub fn seconds_per_byte(&self) -> (r: Option<u64>)
        requires
            self.wf(),
        ensures
            is_median_rate(self@, r),
    {
        let n: usize = self.per_relation.len();
        let ghost keys = self.per_relation.keys();
        let mut values: Vec<u64> = Vec::new();
        let mut i: usize = 0;
        while i < n
            invariant
                i <= n == keys.len(),
                self.wf(),
                keys == self.per_relation.keys(),
                values@ == values_in(self@, keys).take(i as int),
            decreases n - i,
        {
            values.push(*self.per_relation.value_at(i));
            proof {
                let all = values_in(self@, keys);
                assert(all.take(i + 1) =~= all.take(i as int).push(all[i as int]));
            }
            i = i + 1;
        }
        proof {
            self.per_relation.keys_are_the_domain();
            let all = values_in(self@, keys);
            assert(all.take(n as int) =~= all);
            assert(lists_keys(self@, keys));
        }
        match median(&values) {
            None => None,
            Some(t) => {
                proof {
                    let s = choose|s: Seq<u64>|
                        #[trigger] stably_sorted(s, values@, ascending()) && t == twice_middle(s);
                    assert(t <= 2 * u64::MAX);
                }
                Some((t / 2) as u64)
            },
        }
    }

    /// How many relations were observed.
    pub fn len(&self) -> (n: usize)
        requires
            self.wf(),
        ensures
            n == self@.len(),
            n == 0 <==> self@ == Map::<Text, u64>::empty(),
    {
        self.per_relation.len()
    }

    /// Whether no relation was observed.
    pub fn is_empty(&self) -> (r: bool)
        requires
            self.wf(),
        ensures
            r == (self@ == Map::<Text, u64>::empty()),
    {
        self.per_relation.len() == 0
    }

    /// Folds `other` in: of a relation observed in both, the rate of `other`
    /// stands.
    pub fn merge(&mut self, other: &WriteSamples)
        requires
            old(self).wf(),
            other.wf(),
        ensures
            final(self).wf(),
            final(self)@ == old(self)@.union_prefer_right(other@),
    {
        let n: usize = other.per_relation.len();
        let ghost keys = other.per_relation.keys();
        let ghost mine = self@;
        let mut i: usize = 0;
        proof {
            other.per_relation.keys_are_the_domain();
            assert(self@ =~= mine.union_prefer_right(other@.restrict(keys.take(0).to_set())));
        }
        while i < n
            invariant
                i <= n == keys.len(),
                self.wf(),
                other.wf(),
                keys == other.per_relation.keys(),
                forall|k: Text| keys.contains(k) <==> #[trigger] other@.contains_key(k),
                self@ == mine.union_prefer_right(other@.restrict(keys.take(i as int).to_set())),
            decreases n - i,
        {
            let key = other.per_relation.key_at(i);
            let rate: u64 = *other.per_relation.value_at(i);
            self.per_relation.insert(key.as_str(), rate);
            proof {
                let head = keys.take(i as int);
                assert(keys.take(i + 1) =~= head.push(keys[i as int]));
                crate::dag::pushed_to_set(head, keys[i as int]);
                assert(self@ =~= mine.union_prefer_right(other@.restrict(keys.take(i + 1).to_set())));
            }
            i = i + 1;
        }
        proof {
            assert(keys.take(n as int) =~= keys);
            assert(other@.restrict(keys.to_set()) =~= other@) by {
                assert forall|k: Text| other@.contains_key(k) implies keys.to_set().contains(k) by {
                    assert(keys.contains(k));
                }
            }
        }
    }

    /// The rates, by relation.
    pub(crate) fn rates(&self) -> (r: &TextMap<u64>)
        requires
            self.wf(),
        ensures
            r.wf(),
            r@ == self@,
    {
        &self.per_relation
    }

    /// A copy of the observations.
    pub fn copy(&self) -> (r: WriteSamples)
        requires
            self.wf(),
        ensures
            r.wf(),
            r@ == self@,
    {
        let mut r = WriteSamples::new();
        r.merge(self);
        proof {
            assert(r@ =~= self@);
        }
        r
    }
}

/// What an operator's time was divided by to fit its rate.
#[derive(Debug, Clone, Copy, PartialEq, Eq, Structural)]
pub enum CostBasis {
    /// Bytes it emitted: a basis that stored rates may still be on, and that
    /// nothing is fitted to any more.
    OutputBytes,
    /// Bytes it consumed.
    InputBytes,
}

/// The observations that one operator adds to those of its kind.
pub open spec fn samples_of(n: PlanNode) -> OperatorSamples {
    let width = n.row_width->Some_0;
    match (n.exclusive_time, own_input_bytes(n)) {
        (Some(t), Some(b)) if b > 0 => OperatorSamples {
            rate_sum: rate_of(t as nat, b as nat),
            rate_n: 1,
            width_sum: width,
            width_n: 1,
            time_total: t,
            bytes_total: b,
        },
        _ => OperatorSamples { width_sum: width, width_n: 1, ..no_samples() },
    }
}

/// The bytes an operator emits, by the plan's own widths.
pub open spec fn own_output_bytes(n: PlanNode) -> Option<u64> {
    match (rows_of(n), n.row_width) {
        (Some(r), Some(w)) => Some(cap64((r as nat) * (w as nat))),
        _ => None,
    }
}

/// The bytes that a list of operators emits, those that say nothing left out.
pub open spec fn own_outputs(s: Seq<PlanNode>) -> u64
    decreases s.len(),
{
    if s.len() == 0 {
        0
    } else {
        let rest = own_outputs(s.drop_last());
        match own_output_bytes(s.last()) {
            Some(b) => cap64((rest + b) as nat),
            None => rest,
        }
    }
}

/// The bytes an operator consumed, by the plan's own widths: what it scanned,
/// or else what the operators below it emitted, or else what it emitted.
pub open spec fn own_input_bytes(n: PlanNode) -> Option<u64> {
    if n.rows_scanned is Some && n.row_width is Some && n.rows_scanned->Some_0 > 0 {
        Some(cap64((n.rows_scanned->Some_0 as nat) * (n.row_width->Some_0 as nat)))
    } else if own_outputs(n.children@) > 0 {
        Some(own_outputs(n.children@))
    } else {
        own_output_bytes(n)
    }
}

/// The rates by kind of operator.
pub type Rates = Map<Text, OperatorSamples>;

/// What is known of `key`.
pub open spec fn known(ops: Rates, key: Text) -> OperatorSamples {
    if ops.contains_key(key) {
        ops[key]
    } else {
        no_samples()
    }
}

/// Everything observed about the operators of either.
pub open spec fn merged_rates(a: Rates, b: Rates) -> Rates {
    Map::new(|k: Text| a.contains_key(k) || b.contains_key(k), |k: Text| merged(known(a, k), known(b, k)))
}

/// `ops` after one operator has been taken in. One that writes, or whose width
/// is not known, teaches nothing.
pub open spec fn learn(ops: Rates, n: PlanNode) -> Rates {
    if n.writes || n.row_width is None || n.row_width == Some(0u64) {
        ops
    } else {
        ops.insert(n.cost_key@, merged(known(ops, n.cost_key@), samples_of(n)))
    }
}

/// `ops` after the operators of a plan have been taken in.
pub open spec fn learn_all(ops: Rates, roots: Seq<PlanNode>) -> Rates
    decreases roots, roots.len(),
{
    if roots.len() == 0 {
        ops
    } else {
        learn_tree(learn_all(ops, roots.drop_last()), roots.last())
    }
}

/// `ops` after an operator, and then what lies below it, has been taken in.
pub open spec fn learn_tree(ops: Rates, n: PlanNode) -> Rates
    decreases n,
{
    learn_all(learn(ops, n), n.children@)
}

/// The bytes an operator emits, by the plan's own widths.
fn output_bytes(n: &PlanNode) -> (r: Option<u64>)
    ensures
        r == own_output_bytes(*n),
{
    match (n.rows(), n.row_width) {
        (Some(r), Some(w)) => {
            proof {
                assert((r as nat) * (w as nat) / 1 == (r as nat) * (w as nat));
            }
            Some(scaled(r, w, 1))
        },
        _ => None,
    }
}

/// The bytes an operator consumed, by the plan's own widths.
fn input_bytes(n: &PlanNode) -> (r: Option<u64>)
    ensures
        r == own_input_bytes(*n),
{
    if let (Some(rows), Some(width)) = (n.rows_scanned, n.row_width) {
        if rows > 0 {
            proof {
                assert((rows as nat) * (width as nat) / 1 == (rows as nat) * (width as nat));
            }
            return Some(scaled(rows, width, 1));
        }
    }
    let mut sum: u64 = 0;
    let mut i: usize = 0;
    while i < n.children.len()
        invariant
            i <= n.children@.len(),
            sum == own_outputs(n.children@.take(i as int)),
        decreases n.children@.len() - i,
    {
        proof {
            let t = n.children@.take(i + 1);
            assert(t.drop_last() =~= n.children@.take(i as int));
            assert(t.last() == n.children@[i as int]);
        }
        if let Some(b) = output_bytes(&n.children[i]) {
            sum = add_capped(sum, b);
        }
        i = i + 1;
    }
    proof {
        assert(n.children@.take(n.children@.len() as int) =~= n.children@);
    }
    if sum > 0 {
        Some(sum)
    } else {
        output_bytes(n)
    }
}

/// Takes an operator, and then what lies below it, into `ops`.
fn observe_node(ops: &mut TextMap<OperatorSamples>, n: &PlanNode)
    requires
        old(ops).wf(),
    ensures
        final(ops).wf(),
        final(ops)@ == learn_tree(old(ops)@, *n),
    decreases n,
{
    if !n.writes {
        if let Some(width) = n.row_width {
            if width > 0 {
                let mut samples = match ops.get(n.cost_key.as_str()) {
                    Some(s) => *s,
                    None => OperatorSamples::new(),
                };
                let more = match (n.exclusive_time, input_bytes(n)) {
                    (Some(t), Some(b)) if b > 0 => OperatorSamples {
                        rate_sum: scaled(t, 1_000_000, b),
                        rate_n: 1,
                        width_sum: width,
                        width_n: 1,
                        time_total: t,
                        bytes_total: b,
                    },
                    _ => {
                        let mut s = OperatorSamples::new();
                        s.width_sum = width;
                        s.width_n = 1;
                        s
                    },
                };
                samples.merge(&more);
                ops.insert(n.cost_key.as_str(), samples);
            }
        }
    }
    let ghost before = ops@;
    let mut i: usize = 0;
    while i < n.children.len()
        invariant
            i <= n.children@.len(),
            ops.wf(),
            ops@ == learn_all(before, n.children@.take(i as int)),
        decreases n.children@.len() - i,
    {
        proof {
            let t = n.children@.take(i + 1);
            assert(t.drop_last() =~= n.children@.take(i as int));
            assert(t.last() == n.children@[i as int]);
        }
        observe_node(ops, &n.children[i]);
        i = i + 1;
    }
    proof {
        assert(n.children@.take(n.children@.len() as int) =~= n.children@);
    }
}

/// The time of the first operator of a plan that writes and was timed.
pub open spec fn write_time_in(roots: Seq<PlanNode>) -> Option<u64>
    decreases roots, roots.len(),
{
    if roots.len() == 0 {
        None
    } else {
        match write_time_in(roots.drop_last()) {
            Some(t) => Some(t),
            None => write_time_at(roots.last()),
        }
    }
}

/// The time of the operator, or of the first below it, that writes and was
/// timed.
pub open spec fn write_time_at(n: PlanNode) -> Option<u64>
    decreases n,
{
    if n.writes && n.exclusive_time is Some {
        n.exclusive_time
    } else {
        write_time_in(n.children@)
    }
}

/// The time that the operators of a plan account for.
pub open spec fn accounted_in(roots: Seq<PlanNode>) -> nat
    decreases roots, roots.len(),
{
    if roots.len() == 0 {
        0
    } else {
        accounted_in(roots.drop_last()) + accounted_at(roots.last())
    }
}

/// The time that the operator and those below it account for.
pub open spec fn accounted_at(n: PlanNode) -> nat
    decreases n,
{
    accounted_in(n.children@) + match n.exclusive_time {
        Some(t) => t as nat,
        None => 0,
    }
}

/// How long a plan spent writing its result: its write operator's time, or
/// else what its statement took beyond what the first tree accounts for.
pub open spec fn write_timing_of(roots: Seq<PlanNode>) -> Option<u64> {
    match write_time_in(roots) {
        Some(t) => Some(t),
        None => if roots.len() == 0 {
            None
        } else {
            match roots[0].statement_time {
                Some(total) => if accounted_at(roots[0]) >= total {
                    Some(0)
                } else {
                    Some((total - accounted_at(roots[0])) as u64)
                },
                None => None,
            }
        },
    }
}

proof fn write_time_extends(roots: Seq<PlanNode>, k: int)
    requires
        0 <= k <= roots.len(),
        write_time_in(roots.take(k)) is Some,
    ensures
        write_time_in(roots) == write_time_in(roots.take(k)),
    decreases roots.len() - k,
{
    if k < roots.len() {
        assert(roots.take(k + 1).drop_last() =~= roots.take(k));
        write_time_extends(roots, k + 1);
    } else {
        assert(roots.take(k) =~= roots);
    }
}

/// The time of the operator, or of the first below it, that writes and was
/// timed.
fn write_operator_time(n: &PlanNode) -> (r: Option<u64>)
    ensures
        r == write_time_at(*n),
    decreases n,
{
    if n.writes && n.exclusive_time.is_some() {
        return n.exclusive_time;
    }
    let mut i: usize = 0;
    while i < n.children.len()
        invariant
            i <= n.children@.len(),
            !(n.writes && n.exclusive_time is Some),
            write_time_in(n.children@.take(i as int)) is None,
        decreases n.children@.len() - i,
    {
        proof {
            let t = n.children@.take(i + 1);
            assert(t.drop_last() =~= n.children@.take(i as int));
            assert(t.last() == n.children@[i as int]);
        }
        let found = write_operator_time(&n.children[i]);
        if found.is_some() {
            proof {
                write_time_extends(n.children@, i + 1);
            }
            return found;
        }
        i = i + 1;
    }
    proof {
        assert(n.children@.take(n.children@.len() as int) =~= n.children@);
    }
    None
}

/// The time that the operator and those below it account for, or the largest
/// machine number where that is more.
fn accounted_time(n: &PlanNode) -> (r: u64)
    ensures
        r == cap64(accounted_at(*n)),
    decreases n,
{
    let mut sum: u64 = 0;
    let mut i: usize = 0;
    while i < n.children.len()
        invariant
            i <= n.children@.len(),
            sum == cap64(accounted_in(n.children@.take(i as int))),
        decreases n.children@.len() - i,
    {
        proof {
            let t = n.children@.take(i + 1);
            assert(t.drop_last() =~= n.children@.take(i as int));
            assert(t.last() == n.children@[i as int]);
        }
        sum = add_capped(sum, accounted_time(&n.children[i]));
        i = i + 1;
    }
    proof {
        assert(n.children@.take(n.children@.len() as int) =~= n.children@);
    }
    match n.exclusive_time {
        Some(t) => add_capped(sum, t),
        None => sum,
    }
}

/// How long a plan spent writing its result; none where it does not say, which
/// is not a time of zero.
pub fn write_timing(roots: &Vec<PlanNode>) -> (r: Option<u64>)
    ensures
        r == write_timing_of(roots@),
{
    let mut i: usize = 0;
    while i < roots.len()
        invariant
            i <= roots@.len(),
            write_time_in(roots@.take(i as int)) is None,
        decreases roots@.len() - i,
    {
        proof {
            let t = roots@.take(i + 1);
            assert(t.drop_last() =~= roots@.take(i as int));
            assert(t.last() == roots@[i as int]);
        }
        let found = write_operator_time(&roots[i]);
        if found.is_some() {
            proof {
                write_time_extends(roots@, i + 1);
            }
            return found;
        }
        i = i + 1;
    }
    proof {
        assert(roots@.take(roots@.len() as int) =~= roots@);
    }
    if roots.len() == 0 {
        return None;
    }
    match roots[0].statement_time {
        Some(total) => {
            let explained = accounted_time(&roots[0]);
            if explained >= total {
                Some(0)
            } else {
                Some(total - explained)
            }
        },
        None => None,
    }
}

/// The name of the first operator of a plan that writes.
pub open spec fn writer_in(roots: Seq<PlanNode>) -> Option<Text>
    decreases roots, roots.len(),
{
    if roots.len() == 0 {
        None
    } else {
        match writer_in(roots.drop_last()) {
            Some(t) => Some(t),
            None => writer_at(roots.last()),
        }
    }
}

/// The name of the operator, or of the first below it, that writes.
pub open spec fn writer_at(n: PlanNode) -> Option<Text>
    decreases n,
{
    if n.writes {
        Some(n.operator@)
    } else {
        writer_in(n.children@)
    }
}

/// The path that an executed plan wrote through.
pub open spec fn write_path_of(roots: Seq<PlanNode>) -> Text {
    match writer_in(roots) {
        Some(t) => t,
        None => SINGLE_WRITE_PATH@,
    }
}

proof fn writer_extends(roots: Seq<PlanNode>, k: int)
    requires
        0 <= k <= roots.len(),
        writer_in(roots.take(k)) is Some,
    ensures
        writer_in(roots) == writer_in(roots.take(k)),
    decreases roots.len() - k,
{
    if k < roots.len() {
        assert(roots.take(k + 1).drop_last() =~= roots.take(k));
        writer_extends(roots, k + 1);
    } else {
        assert(roots.take(k) =~= roots);
    }
}

fn writer_below(n: &PlanNode) -> (r: Option<String>)
    ensures
        crate::sql::text_in(r) == writer_at(*n),
    decreases n,
{
    if n.writes {
        return Some(n.operator.clone());
    }
    let mut i: usize = 0;
    while i < n.children.len()
        invariant
            i <= n.children@.len(),
            !n.writes,
            writer_in(n.children@.take(i as int)) is None,
        decreases n.children@.len() - i,
    {
        proof {
            let t = n.children@.take(i + 1);
            assert(t.drop_last() =~= n.children@.take(i as int));
            assert(t.last() == n.children@[i as int]);
        }
        let found = writer_below(&n.children[i]);
        if found.is_some() {
            proof {
                writer_extends(n.children@, i + 1);
            }
            return found;
        }
        i = i + 1;
    }
    proof {
        assert(n.children@.take(n.children@.len() as int) =~= n.children@);
    }
    None
}

/// The path that an executed plan wrote through: the name of its write
/// operator, where it has one.
pub fn observed_write_path(roots: &Vec<PlanNode>) -> (r: String)
    ensures
        r@ == write_path_of(roots@),
{
    let mut i: usize = 0;
    while i < roots.len()
        invariant
            i <= roots@.len(),
            writer_in(roots@.take(i as int)) is None,
        decreases roots@.len() - i,
    {
        proof {
            let t = roots@.take(i + 1);
            assert(t.drop_last() =~= roots@.take(i as int));
            assert(t.last() == roots@[i as int]);
        }
        if let Some(name) = writer_below(&roots[i]) {
            proof {
                writer_extends(roots@, i + 1);
            }
            return name;
        }
        i = i + 1;
    }
    proof {
        assert(roots@.take(roots@.len() as int) =~= roots@);
    }
    SINGLE_WRITE_PATH.to_owned()
}

/// Rates by kind of operator, and by write path and relation.
#[derive(Debug)]
pub struct LearnedCostModel {
    ops: TextMap<OperatorSamples>,
    writes: TextMap<WriteSamples>,
    basis: CostBasis,
}

/// A cost model as the specifications see it.
#[verifier::ext_equal]
pub struct LearnedModel {
    pub ops: Rates,
    pub writes: Map<Text, Map<Text, u64>>,
    pub basis: CostBasis,
}

impl View for LearnedCostModel {
    type V = LearnedModel;

    closed spec fn view(&self) -> LearnedModel {
        LearnedModel {
            ops: self.ops@,
            writes: self.writes@.map_values(|w: WriteSamples| w@),
            basis: self.basis,
        }
    }
}

/// All time and all bytes of the kinds of operator that `keys` lists.
pub open spec fn totals(ops: Rates, keys: Seq<Text>) -> OperatorSamples
    decreases keys.len(),
{
    if keys.len() == 0 {
        no_samples()
    } else {
        merged(totals(ops, keys.drop_last()), ops[keys.last()])
    }
}

/// `s` is the sum of everything observed about every kind of operator.
pub open spec fn is_total(ops: Rates, s: OperatorSamples) -> bool {
    exists|keys: Seq<Text>| #[trigger] lists_keys(ops, keys) && s == totals(ops, keys)
}

/// What the rates of operators in a model were fitted to. A model without any
/// has nothing on the old basis.
pub open spec fn basis_of(m: LearnedModel) -> CostBasis {
    if m.ops == Map::<Text, OperatorSamples>::empty() {
        CostBasis::InputBytes
    } else {
        m.basis
    }
}

/// `c` is `a` with everything folded in that `b` has observed. Of a relation
/// written in both, the rate of `b` stands.
pub open spec fn model_merged(a: LearnedModel, b: LearnedModel, c: LearnedModel) -> bool {
    &&& c.ops == merged_rates(a.ops, b.ops)
    &&& c.writes.dom() == a.writes.dom().union(b.writes.dom())
    &&& forall|p: Text|
        #[trigger] c.writes.contains_key(p) ==> c.writes[p] == written(a.writes, p).union_prefer_right(written(b.writes, p))
    &&& c.basis == if b.ops == Map::<Text, OperatorSamples>::empty() {
        a.basis
    } else {
        b.basis
    }
}

/// A model that has learned nothing.
pub open spec fn is_blank(m: LearnedModel) -> bool {
    m.ops == Map::<Text, OperatorSamples>::empty() && m.writes == Map::<Text, Map<Text, u64>>::empty()
}

/// The rate of `key`, or that of everything observed where `key` never was:
/// what is unknown is not free.
pub open spec fn rate_for(ops: Rates, total: OperatorSamples, key: Text) -> Option<u64> {
    match weighted_rate(known(ops, key)) {
        Some(r) => Some(r),
        None => weighted_rate(total),
    }
}

/// The width of an operator's output row, in thousandths of a byte: what the
/// plan says, or what its kind was measured at, or the mean of everything.
pub open spec fn width_for(ops: Rates, total: OperatorSamples, n: PlanNode) -> Option<u64> {
    if n.row_width matches Some(w) && w > 0 {
        Some(cap64((n.row_width->Some_0 as nat) * 1000))
    } else {
        match mean_width(known(ops, n.cost_key@)) {
            Some(w) => Some(w),
            None => mean_width(total),
        }
    }
}

/// The bytes an operator emits, by learned widths where the plan has none.
pub open spec fn output_for(ops: Rates, total: OperatorSamples, n: PlanNode) -> Option<u64> {
    match (rows_of(n), width_for(ops, total, n)) {
        (Some(r), Some(w)) => Some(bytes_in(r as nat, w as nat)),
        _ => None,
    }
}

/// The bytes that a list of operators emits, by learned widths.
pub open spec fn outputs_for(ops: Rates, total: OperatorSamples, s: Seq<PlanNode>) -> u64
    decreases s.len(),
{
    if s.len() == 0 {
        0
    } else {
        let rest = outputs_for(ops, total, s.drop_last());
        match output_for(ops, total, s.last()) {
            Some(b) => cap64((rest + b) as nat),
            None => rest,
        }
    }
}

/// The bytes an operator consumes, by learned widths where the plan has none.
pub open spec fn input_for(ops: Rates, total: OperatorSamples, n: PlanNode) -> Option<u64> {
    if n.rows_scanned is Some && width_for(ops, total, n) is Some && n.rows_scanned->Some_0 > 0 {
        Some(bytes_in(n.rows_scanned->Some_0 as nat, width_for(ops, total, n)->Some_0 as nat))
    } else if outputs_for(ops, total, n.children@) > 0 {
        Some(outputs_for(ops, total, n.children@))
    } else {
        output_for(ops, total, n)
    }
}

/// What one operator costs by itself.
pub open spec fn own_cost(ops: Rates, total: OperatorSamples, n: PlanNode) -> Option<u64> {
    if n.writes {
        None
    } else {
        match (input_for(ops, total, n), rate_for(ops, total, n.cost_key@)) {
            (Some(b), Some(r)) => Some(time_at(b as nat, r as nat)),
            _ => None,
        }
    }
}

/// What the operators of a plan cost together, and how many of them could be
/// priced.
pub open spec fn costs_in(ops: Rates, total: OperatorSamples, roots: Seq<PlanNode>) -> (nat, nat)
    decreases roots, roots.len(),
{
    if roots.len() == 0 {
        (0, 0)
    } else {
        let (a, b) = costs_in(ops, total, roots.drop_last());
        let (c, d) = costs_at(ops, total, roots.last());
        (a + c, b + d)
    }
}

/// What the operator and those below it cost together, and how many of them
/// could be priced.
pub open spec fn costs_at(ops: Rates, total: OperatorSamples, n: PlanNode) -> (nat, nat)
    decreases n,
{
    let (a, b) = costs_in(ops, total, n.children@);
    match own_cost(ops, total, n) {
        Some(c) => (a + c as nat, b + 1),
        None => (a, b),
    }
}

/// What a plan costs, in nanoseconds: none where the model has learned
/// nothing, or can price no operator of the plan.
pub open spec fn plan_cost(m: LearnedModel, total: OperatorSamples, roots: Seq<PlanNode>) -> Option<u64> {
    if is_blank(m) || costs_in(m.ops, total, roots).1 == 0 {
        None
    } else {
        Some(cap64(costs_in(m.ops, total, roots).0))
    }
}

/// The width of a row of what a plan wrote: of the first operator that does
/// not itself write.
pub open spec fn payload_in(ops: Rates, total: OperatorSamples, roots: Seq<PlanNode>) -> Option<u64>
    decreases roots, roots.len(),
{
    if roots.len() == 0 {
        None
    } else {
        match payload_in(ops, total, roots.drop_last()) {
            Some(w) => Some(w),
            None => payload_at(ops, total, roots.last()),
        }
    }
}

/// The width of a row of what the tree at `n` wrote.
pub open spec fn payload_at(ops: Rates, total: OperatorSamples, n: PlanNode) -> Option<u64>
    decreases n,
{
    if n.writes {
        payload_in(ops, total, n.children@)
    } else {
        width_for(ops, total, n)
    }
}

/// The observed rate of a write: none where nothing was written, where the plan
/// does not say how long that took, or where the rows have no known width.
pub open spec fn observed_rate(ops: Rates, total: OperatorSamples, roots: Seq<PlanNode>, rows: u64) -> Option<u64> {
    if rows == 0 {
        None
    } else {
        match (write_timing_of(roots), payload_in(ops, total, roots)) {
            (Some(t), Some(w)) => if t > 0 && bytes_in(rows as nat, w as nat) > 0 {
                Some(rate_of(t as nat, bytes_in(rows as nat, w as nat) as nat))
            } else {
                None
            },
            _ => None,
        }
    }
}

/// The relations written through `path`.
pub open spec fn written(writes: Map<Text, Map<Text, u64>>, path: Text) -> Map<Text, u64> {
    if writes.contains_key(path) {
        writes[path]
    } else {
        Map::<Text, u64>::empty()
    }
}

/// `writes` after the rate of `relation`, written through `path`, has been
/// taken in.
pub open spec fn with_write(
    writes: Map<Text, Map<Text, u64>>,
    path: Text,
    relation: Text,
    rate: u64,
) -> Map<Text, Map<Text, u64>> {
    writes.insert(path, written(writes, path).insert(relation, rate))
}

/// `from` is the path whose rate prices a write through `path`: `path` itself
/// where it was observed, or else the observed path with the most relations
/// behind it, the first by name among those with equally many.
pub open spec fn rate_source(writes: Map<Text, Map<Text, u64>>, path: Text, from: Text) -> bool {
    &&& writes.contains_key(from)
    &&& writes[from].len() > 0
    &&& if written(writes, path).len() > 0 {
        from == path
    } else {
        forall|other: Text|
            #[trigger] writes.contains_key(other) && writes[other].len() > 0 ==> writes[other].len() < writes[from].len() || (
            writes[other].len() == writes[from].len() && text_le(from, other))
    }
}

/// `path` is among the listed paths.
pub open spec fn path_listed(list: Seq<(String, u64)>, path: Text) -> bool {
    exists|i: int| 0 <= i < list.len() && (#[trigger] list[i]).0@ == path
}

/// `r` is what writing `rows` rows of that width through `path` costs: nothing
/// for no rows, and none where no write was ever observed or the width is not
/// known.
pub open spec fn write_priced(m: LearnedModel, path: Text, width: Option<u64>, rows: u64, r: Option<u64>) -> bool {
    if rows == 0 {
        r == Some(0u64)
    } else {
        match r {
            Some(c) => width is Some && exists|from: Text, rate: u64|
                #[trigger] rate_source(m.writes, path, from) && #[trigger] is_median_rate(
                    written(m.writes, from),
                    Some(rate),
                ) && c == time_at(bytes_in(rows as nat, width->Some_0 as nat) as nat, rate as nat),
            None => width is None || forall|p: Text| #[trigger] m.writes.contains_key(p) ==> m.writes[p].len() == 0,
        }
    }
}

/// A cost at `factor` millionths.
pub open spec fn spooled(write: Option<u64>, factor: u64) -> Option<u64> {
    match write {
        Some(w) => Some(cap64((w * factor / 1000000) as nat)),
        None => None,
    }
}

/// A cost at `factor` millionths.
pub fn spool(write: Option<u64>, factor: u64) -> (r: Option<u64>)
    ensures
        r == spooled(write, factor),
{
    match write {
        Some(w) => {
            proof {
                assert(w * factor <= u64::MAX * u64::MAX) by (nonlinear_arith)
                    requires
                        w <= u64::MAX,
                        factor <= u64::MAX,
                ;
                assert(u64::MAX * u64::MAX <= u128::MAX) by (nonlinear_arith);
            }
            let q: u128 = (w as u128 * factor as u128) / 1000000;
            if q <= u64::MAX as u128 {
                Some(q as u64)
            } else {
                Some(u64::MAX)
            }
        },
        None => None,
    }
}

impl LearnedCostModel {
    pub closed spec fn wf(&self) -> bool {
        &&& self.ops.wf()
        &&& self.writes.wf()
        &&& forall|p: Text| #[trigger] self.writes@.contains_key(p) ==> self.writes@[p].wf()
    }

    /// A model that has learned nothing.
    pub fn new() -> (r: LearnedCostModel)
        ensures
            r.wf(),
            is_blank(r@),
            r@.basis == CostBasis::OutputBytes,
    {
        let r = LearnedCostModel { ops: TextMap::new(), writes: TextMap::new(), basis: CostBasis::OutputBytes };
        proof {
            assert(r@.writes =~= Map::<Text, Map<Text, u64>>::empty());
        }
        r
    }

    /// The model that these observations make.
    pub(crate) fn of(ops: TextMap<OperatorSamples>, writes: TextMap<WriteSamples>, basis: CostBasis) -> (r: LearnedCostModel)
        requires
            ops.wf(),
            writes.wf(),
            forall|p: Text| #[trigger] writes@.contains_key(p) ==> writes@[p].wf(),
        ensures
            r.wf(),
            r@.ops == ops@,
            r@.writes == writes@.map_values(|w: WriteSamples| w@),
            r@.basis == basis,
    {
        LearnedCostModel { ops, writes, basis }
    }

    /// The observations by kind of operator, those by write path, and the basis
    /// of the former.
    pub(crate) fn parts(&self) -> (r: (&TextMap<OperatorSamples>, &TextMap<WriteSamples>, CostBasis))
        requires
            self.wf(),
        ensures
            r.0.wf(),
            r.1.wf(),
            forall|p: Text| #[trigger] r.1@.contains_key(p) ==> r.1@[p].wf(),
            r.0@ == self@.ops,
            r.1@.map_values(|w: WriteSamples| w@) == self@.writes,
            r.2 == self@.basis,
    {
        (&self.ops, &self.writes, self.basis)
    }

    /// Whether the model has learned nothing at all.
    pub fn is_empty(&self) -> (r: bool)
        requires
            self.wf(),
        ensures
            r == is_blank(self@),
    {
        let r = self.ops.len() == 0 && self.writes.len() == 0;
        proof {
            if self.writes@ == Map::<Text, WriteSamples>::empty() {
                assert(self@.writes =~= Map::<Text, Map<Text, u64>>::empty());
            }
            if self@.writes == Map::<Text, Map<Text, u64>>::empty() {
                assert(self.writes@ =~= Map::<Text, WriteSamples>::empty()) by {
                    assert forall|k: Text| !self.writes@.contains_key(k) by {
                        assert(self@.writes.contains_key(k) == self.writes@.contains_key(k));
                    }
                }
            }
        }
        r
    }

    /// What the rates of operators were fitted to. A model without any has
    /// nothing on the old basis.
    pub fn basis(&self) -> (r: CostBasis)
        requires
            self.wf(),
        ensures
            r == basis_of(self@),
    {
        if self.ops.len() == 0 {
            CostBasis::InputBytes
        } else {
            self.basis
        }
    }

    /// Takes in what every operator of a plan revealed. A plan that was not
    /// executed contributes widths alone.
    pub fn observe(&mut self, roots: &Vec<PlanNode>)
        requires
            old(self).wf(),
        ensures
            final(self).wf(),
            final(self)@ == (LearnedModel {
                ops: learn_all(old(self)@.ops, roots@),
                basis: CostBasis::InputBytes,
                ..old(self)@
            }),
    {
        let ghost before = self@;
        let ghost writes = self.writes;
        let mut i: usize = 0;
        while i < roots.len()
            invariant
                i <= roots@.len(),
                self.wf(),
                self.writes == writes,
                self.ops@ == learn_all(before.ops, roots@.take(i as int)),
            decreases roots@.len() - i,
        {
            proof {
                let t = roots@.take(i + 1);
                assert(t.drop_last() =~= roots@.take(i as int));
                assert(t.last() == roots@[i as int]);
            }
            observe_node(&mut self.ops, &roots[i]);
            i = i + 1;
        }
        self.basis = CostBasis::InputBytes;
        proof {
            assert(roots@.take(roots@.len() as int) =~= roots@);
        }
    }

    /// The sum of everything observed about every kind of operator.
    fn total(&self) -> (r: OperatorSamples)
        requires
            self.wf(),
        ensures
            is_total(self@.ops, r),
    {
        let n: usize = self.ops.len();
        let ghost keys = self.ops.keys();
        let mut sum = OperatorSamples::new();
        let mut i: usize = 0;
        while i < n
            invariant
                i <= n == keys.len(),
                self.wf(),
                keys == self.ops.keys(),
                sum == totals(self@.ops, keys.take(i as int)),
            decreases n - i,
        {
            proof {
                assert(keys.take(i + 1).drop_last() =~= keys.take(i as int));
            }
            sum.merge(self.ops.value_at(i));
            i = i + 1;
        }
        proof {
            self.ops.keys_are_the_domain();
            assert(keys.take(n as int) =~= keys);
            assert(lists_keys(self@.ops, keys));
        }
        sum
    }

    fn known(&self, key: &str) -> (r: OperatorSamples)
        requires
            self.wf(),
        ensures
            r == known(self@.ops, key@),
    {
        match self.ops.get(key) {
            Some(s) => *s,
            None => OperatorSamples::new(),
        }
    }

    fn rate_with(&self, total: &OperatorSamples, key: &str) -> (r: Option<u64>)
        requires
            self.wf(),
        ensures
            r == rate_for(self@.ops, *total, key@),
    {
        match self.known(key).seconds_per_byte() {
            Some(r) => Some(r),
            None => total.seconds_per_byte(),
        }
    }

    /// The rate of `key`, or that of everything observed where `key` never was.
    pub fn seconds_per_byte(&self, key: &str) -> (r: Option<u64>)
        requires
            self.wf(),
        ensures
            exists|total: OperatorSamples|
                #[trigger] is_total(self@.ops, total) && r == rate_for(self@.ops, total, key@),
    {
        let total = self.total();
        self.rate_with(&total, key)
    }

    /// The rate of everything observed.
    pub fn mean_seconds_per_byte(&self) -> (r: Option<u64>)
        requires
            self.wf(),
        ensures
            exists|total: OperatorSamples| #[trigger] is_total(self@.ops, total) && r == weighted_rate(total),
    {
        self.total().seconds_per_byte()
    }

    /// The mean width of everything observed, in thousandths of a byte.
    pub fn mean_bytes_per_tuple(&self) -> (r: Option<u64>)
        requires
            self.wf(),
        ensures
            exists|total: OperatorSamples| #[trigger] is_total(self@.ops, total) && r == mean_width(total),
    {
        self.total().bytes_per_tuple()
    }

    fn width_of(&self, total: &OperatorSamples, n: &PlanNode) -> (r: Option<u64>)
        requires
            self.wf(),
        ensures
            r == width_for(self@.ops, *total, *n),
    {
        if let Some(w) = n.row_width {
            if w > 0 {
                proof {
                    assert((w as nat) * 1000 / 1 == (w as nat) * 1000);
                }
                return Some(scaled(w, 1000, 1));
            }
        }
        match self.known(n.cost_key.as_str()).bytes_per_tuple() {
            Some(w) => Some(w),
            None => total.bytes_per_tuple(),
        }
    }

    fn output_bytes_of(&self, total: &OperatorSamples, n: &PlanNode) -> (r: Option<u64>)
        requires
            self.wf(),
        ensures
            r == output_for(self@.ops, *total, *n),
    {
        match (n.rows(), self.width_of(total, n)) {
            (Some(r), Some(w)) => Some(scaled(r, w, 1000)),
            _ => None,
        }
    }

    fn input_bytes_of(&self, total: &OperatorSamples, n: &PlanNode) -> (r: Option<u64>)
        requires
            self.wf(),
        ensures
            r == input_for(self@.ops, *total, *n),
    {
        if let (Some(rows), Some(width)) = (n.rows_scanned, self.width_of(total, n)) {
            if rows > 0 {
                return Some(scaled(rows, width, 1000));
            }
        }
        let mut sum: u64 = 0;
        let mut i: usize = 0;
        while i < n.children.len()
            invariant
                i <= n.children@.len(),
                self.wf(),
                sum == outputs_for(self@.ops, *total, n.children@.take(i as int)),
            decreases n.children@.len() - i,
        {
            proof {
                let t = n.children@.take(i + 1);
                assert(t.drop_last() =~= n.children@.take(i as int));
                assert(t.last() == n.children@[i as int]);
            }
            if let Some(b) = self.output_bytes_of(total, &n.children[i]) {
                sum = add_capped(sum, b);
            }
            i = i + 1;
        }
        proof {
            assert(n.children@.take(n.children@.len() as int) =~= n.children@);
        }
        if sum > 0 {
            Some(sum)
        } else {
            self.output_bytes_of(total, n)
        }
    }

    /// What the operator and those below it cost together, and whether any of
    /// them could be priced.
    fn cost_node(&self, total: &OperatorSamples, n: &PlanNode) -> (r: (u64, bool))
        requires
            self.wf(),
        ensures
            r.0 == cap64(costs_at(self@.ops, *total, *n).0),
            r.1 == (costs_at(self@.ops, *total, *n).1 > 0),
        decreases n,
    {
        let mut sum: u64 = 0;
        let mut any = false;
        let mut i: usize = 0;
        while i < n.children.len()
            invariant
                i <= n.children@.len(),
                self.wf(),
                sum == cap64(costs_in(self@.ops, *total, n.children@.take(i as int)).0),
                any == (costs_in(self@.ops, *total, n.children@.take(i as int)).1 > 0),
            decreases n.children@.len() - i,
        {
            proof {
                let t = n.children@.take(i + 1);
                assert(t.drop_last() =~= n.children@.take(i as int));
                assert(t.last() == n.children@[i as int]);
            }
            let (more, some) = self.cost_node(total, &n.children[i]);
            sum = add_capped(sum, more);
            any = any || some;
            i = i + 1;
        }
        proof {
            assert(n.children@.take(n.children@.len() as int) =~= n.children@);
        }
        if !n.writes {
            if let (Some(b), Some(r)) = (self.input_bytes_of(total, n), self.rate_with(total, n.cost_key.as_str())) {
                sum = add_capped(sum, scaled(b, r, 1_000_000));
                any = true;
            }
        }
        (sum, any)
    }

    /// What a plan should cost, in nanoseconds: the bytes each operator
    /// consumes at the rate of its kind, summed. None where the model has
    /// learned nothing, or can price no operator: neither is a cost of zero.
    pub fn cost(&self, roots: &Vec<PlanNode>) -> (r: Option<u64>)
        requires
            self.wf(),
        ensures
            exists|total: OperatorSamples| #[trigger] is_total(self@.ops, total) && r == plan_cost(self@, total, roots@),
    {
        let total = self.total();
        if self.is_empty() {
            return None;
        }
        let mut sum: u64 = 0;
        let mut any = false;
        let mut i: usize = 0;
        while i < roots.len()
            invariant
                i <= roots@.len(),
                self.wf(),
                sum == cap64(costs_in(self@.ops, total, roots@.take(i as int)).0),
                any == (costs_in(self@.ops, total, roots@.take(i as int)).1 > 0),
            decreases roots@.len() - i,
        {
            proof {
                let t = roots@.take(i + 1);
                assert(t.drop_last() =~= roots@.take(i as int));
                assert(t.last() == roots@[i as int]);
            }
            let (more, some) = self.cost_node(&total, &roots[i]);
            sum = add_capped(sum, more);
            any = any || some;
            i = i + 1;
        }
        proof {
            assert(roots@.take(roots@.len() as int) =~= roots@);
        }
        if any {
            Some(sum)
        } else {
            None
        }
    }

    /// What one operator and those below it should cost.
    pub fn region_cost(&self, n: &PlanNode) -> (r: Option<u64>)
        requires
            self.wf(),
        ensures
            exists|total: OperatorSamples| #[trigger] is_total(self@.ops, total) && r == plan_cost(self@, total, seq![*n]),
    {
        let total = self.total();
        proof {
            assert(seq![*n].drop_last() =~= Seq::<PlanNode>::empty());
            assert(costs_in(self@.ops, total, Seq::<PlanNode>::empty()) == (0nat, 0nat));
            assert(seq![*n].last() == *n);
        }
        if self.is_empty() {
            return None;
        }
        let (sum, any) = self.cost_node(&total, n);
        if any {
            Some(sum)
        } else {
            None
        }
    }

    fn payload_below(&self, total: &OperatorSamples, n: &PlanNode) -> (r: Option<u64>)
        requires
            self.wf(),
        ensures
            r == payload_at(self@.ops, *total, *n),
        decreases n,
    {
        if !n.writes {
            return self.width_of(total, n);
        }
        let mut i: usize = 0;
        while i < n.children.len()
            invariant
                i <= n.children@.len(),
                self.wf(),
                n.writes,
                payload_in(self@.ops, *total, n.children@.take(i as int)) is None,
            decreases n.children@.len() - i,
        {
            proof {
                let t = n.children@.take(i + 1);
                assert(t.drop_last() =~= n.children@.take(i as int));
                assert(t.last() == n.children@[i as int]);
            }
            let found = self.payload_below(total, &n.children[i]);
            if found.is_some() {
                proof {
                    payload_extends(self@.ops, *total, n.children@, i + 1);
                }
                return found;
            }
            i = i + 1;
        }
        proof {
            assert(n.children@.take(n.children@.len() as int) =~= n.children@);
        }
        None
    }

    /// The width of a row of what a plan wrote, in thousandths of a byte.
    fn payload_width(&self, total: &OperatorSamples, roots: &Vec<PlanNode>) -> (r: Option<u64>)
        requires
            self.wf(),
        ensures
            r == payload_in(self@.ops, *total, roots@),
    {
        let mut i: usize = 0;
        while i < roots.len()
            invariant
                i <= roots@.len(),
                self.wf(),
                payload_in(self@.ops, *total, roots@.take(i as int)) is None,
            decreases roots@.len() - i,
        {
            proof {
                let t = roots@.take(i + 1);
                assert(t.drop_last() =~= roots@.take(i as int));
                assert(t.last() == roots@[i as int]);
            }
            let found = self.payload_below(total, &roots[i]);
            if found.is_some() {
                proof {
                    payload_extends(self@.ops, *total, roots@, i + 1);
                }
                return found;
            }
            i = i + 1;
        }
        proof {
            assert(roots@.take(roots@.len() as int) =~= roots@);
        }
        None
    }

    /// Takes in what one written relation revealed about writing: the write's
    /// own time over the bytes it wrote, under the path it went through.
    /// Nothing is taken in where no row was written, where the plan does not
    /// say how long the write took, or where its rows have no known width.
    pub fn observe_write(&mut self, relation: &str, roots: &Vec<PlanNode>, rows_written: u64)
        requires
            old(self).wf(),
        ensures
            final(self).wf(),
            exists|total: OperatorSamples|
                #[trigger] is_total(old(self)@.ops, total) && final(self)@ == match observed_rate(
                    old(self)@.ops,
                    total,
                    roots@,
                    rows_written,
                ) {
                    Some(rate) => LearnedModel {
                        writes: with_write(old(self)@.writes, write_path_of(roots@), relation@, rate),
                        ..old(self)@
                    },
                    None => old(self)@,
                },
    {
        let ghost before = self@;
        let total = self.total();
        if rows_written == 0 {
            return;
        }
        let time: u64 = match write_timing(roots) {
            Some(t) => t,
            None => {
                return;
            },
        };
        let width: u64 = match self.payload_width(&total, roots) {
            Some(w) => w,
            None => {
                return;
            },
        };
        let bytes: u64 = scaled(rows_written, width, 1000);
        if time == 0 || bytes == 0 {
            return;
        }
        let rate: u64 = scaled(time, 1_000_000, bytes);
        let path = observed_write_path(roots);
        let ghost held = self.writes@;
        let mut samples = match self.writes.get(path.as_str()) {
            Some(w) => w.copy(),
            None => WriteSamples::new(),
        };
        samples.observe(relation, rate);
        let ghost seen = samples@;
        self.writes.insert(path.as_str(), samples);
        proof {
            assert(self@.writes =~= with_write(before.writes, path@, relation@, rate));
        }
    }

    /// The median rate on one write path; none where it was never observed.
    pub fn write_seconds_per_byte(&self, path: &str) -> (r: Option<u64>)
        requires
            self.wf(),
        ensures
            is_median_rate(written(self@.writes, path@), r),
    {
        match self.writes.get(path) {
            Some(w) => w.seconds_per_byte(),
            None => {
                let none = WriteSamples::new();
                none.seconds_per_byte()
            },
        }
    }

    /// How many relations were observed on a write path, where it was observed
    /// at all.
    pub fn written_relations(&self, path: &str) -> (r: Option<usize>)
        requires
            self.wf(),
        ensures
            match r {
                Some(n) => self@.writes.contains_key(path@) && n == self@.writes[path@].len(),
                None => !self@.writes.contains_key(path@),
            },
    {
        match self.writes.get(path) {
            Some(w) => Some(w.len()),
            None => None,
        }
    }

    /// Every kind of operator that was observed, and what was.
    pub fn operators(&self) -> (r: Vec<(String, OperatorSamples)>)
        requires
            self.wf(),
        ensures
            r@.len() == self@.ops.len(),
            forall|i: int|
                0 <= i < r@.len() ==> self@.ops.contains_key((#[trigger] r@[i]).0@) && self@.ops[r@[i].0@] == r@[i].1,
            forall|i: int, j: int| 0 <= i < j < r@.len() ==> (#[trigger] r@[i]).0@ != (#[trigger] r@[j]).0@,
    {
        let mut out: Vec<(String, OperatorSamples)> = Vec::new();
        let count: usize = self.ops.len();
        let ghost keys = self.ops.keys();
        proof {
            self.ops.keys_are_the_domain();
        }
        let mut i: usize = 0;
        while i < count
            invariant
                i <= count == keys.len(),
                self.wf(),
                keys == self.ops.keys(),
                out@.len() == i,
                forall|k: int|
                    0 <= k < i ==> (#[trigger] out@[k]).0@ == keys[k] && self.ops@.contains_key(keys[k]) && out@[k].1
                        == self.ops@[keys[k]],
            decreases count - i,
        {
            let key = self.ops.key_at(i);
            out.push((key.clone(), *self.ops.value_at(i)));
            i = i + 1;
        }
        out
    }

    /// Every write path that was observed, and its median rate.
    pub fn write_paths(&self) -> (r: Vec<(String, u64)>)
        requires
            self.wf(),
        ensures
            forall|i: int|
                0 <= i < r@.len() ==> self@.writes.contains_key((#[trigger] r@[i]).0@) && is_median_rate(
                    self@.writes[r@[i].0@],
                    Some(r@[i].1),
                ),
            forall|p: Text|
                #[trigger] self@.writes.contains_key(p) && self@.writes[p].len() > 0 ==> path_listed(r@, p),
            forall|i: int, j: int| 0 <= i < j < r@.len() ==> (#[trigger] r@[i]).0@ != (#[trigger] r@[j]).0@,
    {
        let mut out: Vec<(String, u64)> = Vec::new();
        let count: usize = self.writes.len();
        let ghost keys = self.writes.keys();
        proof {
            self.writes.keys_are_the_domain();
        }
        let mut i: usize = 0;
        while i < count
            invariant
                i <= count == keys.len(),
                self.wf(),
                keys == self.writes.keys(),
                keys.no_duplicates(),
                forall|k: int|
                    0 <= k < out@.len() ==> self@.writes.contains_key((#[trigger] out@[k]).0@) && is_median_rate(
                        self@.writes[out@[k].0@],
                        Some(out@[k].1),
                    ),
                forall|k: int| 0 <= k < out@.len() ==> keys.take(i as int).contains((#[trigger] out@[k]).0@),
                forall|k: int, j: int| 0 <= k < j < out@.len() ==> (#[trigger] out@[k]).0@ != (#[trigger] out@[j]).0@,
                forall|k: int|
                    0 <= k < i && self@.writes[#[trigger] keys[k]].len() > 0 ==> path_listed(out@, keys[k]),
            decreases count - i,
        {
            let key = self.writes.key_at(i);
            let samples = self.writes.value_at(i);
            let ghost had = out@;
            proof {
                assert(keys.take(i + 1) =~= keys.take(i as int).push(keys[i as int]));
                assert forall|t: Text| keys.take(i as int).contains(t) implies keys.take(i + 1).contains(t) && t
                    != keys[i as int] by {
                    let m = choose|m: int| 0 <= m < keys.take(i as int).len() && keys.take(i as int)[m] == t;
                    assert(keys.take(i + 1)[m] == t);
                    assert(keys[m] == t);
                }
                assert(keys.take(i + 1)[i as int] == keys[i as int]);
                assert(self@.writes[key@] == samples@);
            }
            if let Some(rate) = samples.seconds_per_byte() {
                out.push((key.clone(), rate));
                proof {
                    assert(out@[had.len() as int].0@ == key@);
                    assert forall|k: int|
                        0 <= k < i + 1 && self@.writes[#[trigger] keys[k]].len() > 0 implies path_listed(out@, keys[k]) by {
                        if k < i {
                            let m = choose|m: int| 0 <= m < had.len() && (#[trigger] had[m]).0@ == keys[k];
                            assert(out@[m].0@ == keys[k]);
                        }
                    }
                }
            } else {
                proof {
                    if samples@.len() > 0 {
                        median_exists(samples@);
                    }
                }
            }
            i = i + 1;
        }
        proof {
            assert forall|p: Text| #[trigger] self@.writes.contains_key(p) && self@.writes[p].len() > 0 implies path_listed(
                out@,
                p,
            ) by {
                assert(self.writes@.contains_key(p));
                assert(keys.contains(p));
                let k = choose|k: int| 0 <= k < keys.len() && keys[k] == p;
                assert(path_listed(out@, keys[k]));
            }
        }
        out
    }

    /// The rate to price a write through `path` with, and the path it comes
    /// from: `path` itself where it was observed, or else the best-evidenced
    /// other path. None where nothing was ever written.
    pub fn write_rate_for(&self, path: &str) -> (r: Option<(u64, String)>)
        requires
            self.wf(),
        ensures
            match r {
                Some((rate, from)) => rate_source(self@.writes, path@, from@) && is_median_rate(
                    written(self@.writes, from@),
                    Some(rate),
                ),
                None => forall|p: Text| #[trigger] self@.writes.contains_key(p) ==> self@.writes[p].len() == 0,
            },
    {
        if let Some(w) = self.writes.get(path) {
            if w.len() > 0 {
                if let Some(rate) = w.seconds_per_byte() {
                    return Some((rate, path.to_owned()));
                }
                proof {
                    median_exists(w@);
                }
            }
        }
        let n: usize = self.writes.len();
        let ghost keys = self.writes.keys();
        let mut best: Option<usize> = None;
        let mut i: usize = 0;
        proof {
            self.writes.keys_are_the_domain();
        }
        while i < n
            invariant
                i <= n == keys.len(),
                self.wf(),
                keys == self.writes.keys(),
                forall|k: Text| keys.contains(k) <==> #[trigger] self.writes@.contains_key(k),
                match best {
                    None => forall|k: int| 0 <= k < i ==> self.writes@[#[trigger] keys[k]]@.len() == 0,
                    Some(b) => b < i && self.writes@[keys[b as int]]@.len() > 0 && forall|k: int|
                        0 <= k < i && self.writes@[#[trigger] keys[k]]@.len() > 0 ==> self.writes@[keys[k]]@.len()
                            < self.writes@[keys[b as int]]@.len() || (self.writes@[keys[k]]@.len()
                            == self.writes@[keys[b as int]]@.len() && text_le(keys[b as int], keys[k])),
                },
            decreases n - i,
        {
            proof {
                assert(keys.contains(keys[i as int]));
                assert(self.writes@.contains_key(keys[i as int]));
            }
            let size: usize = self.writes.value_at(i).len();
            if size > 0 {
                let take = match best {
                    None => true,
                    Some(b) => {
                        proof {
                            assert(keys.contains(keys[b as int]));
                            assert(self.writes@.contains_key(keys[b as int]));
                        }
                        let held: usize = self.writes.value_at(b).len();
                        size > held || (size == held && !at_most(
                            self.writes.key_at(b).as_str(),
                            self.writes.key_at(i).as_str(),
                        ))
                    },
                };
                if take {
                    proof {
                        text_le_total(keys[i as int], keys[i as int]);
                        if let Some(b) = best {
                            text_le_total(keys[b as int], keys[i as int]);
                            assert forall|k: int| 0 <= k < i && self.writes@[#[trigger] keys[k]]@.len() > 0 implies self.writes@[keys[k]]@.len()
                                < self.writes@[keys[i as int]]@.len() || (self.writes@[keys[k]]@.len()
                                == self.writes@[keys[i as int]]@.len() && text_le(keys[i as int], keys[k])) by {
                                if text_le(keys[i as int], keys[b as int]) && text_le(keys[b as int], keys[k]) {
                                    text_le_transitive(keys[i as int], keys[b as int], keys[k]);
                                }
                            }
                        }
                    }
                    best = Some(i);
                }
            }
            i = i + 1;
        }
        match best {
            None => {
                proof {
                    assert forall|p: Text| #[trigger] self@.writes.contains_key(p) implies self@.writes[p].len() == 0 by {
                        assert(self.writes@.contains_key(p));
                        let k = choose|k: int| 0 <= k < keys.len() && keys[k] == p;
                        assert(self.writes@[keys[k]]@.len() == 0);
                    }
                }
                None
            },
            Some(b) => {
                let from = self.writes.key_at(b);
                let samples = self.writes.value_at(b);
                proof {
                    assert(keys.contains(keys[b as int]));
                    assert(self.writes@.contains_key(keys[b as int]));
                    median_exists(samples@);
                    assert(rate_source(self@.writes, path@, from@)) by {
                        assert forall|other: Text|
                            #[trigger] self@.writes.contains_key(other) && self@.writes[other].len() > 0 implies self@.writes[other].len()
                            < self@.writes[from@].len() || (self@.writes[other].len() == self@.writes[from@].len() && text_le(
                            from@,
                            other,
                        )) by {
                            assert(self.writes@.contains_key(other));
                            let k = choose|k: int| 0 <= k < keys.len() && keys[k] == other;
                            assert(self.writes@[keys[k]]@.len() > 0);
                        }
                    }
                }
                match samples.seconds_per_byte() {
                    Some(rate) => Some((rate, from.clone())),
                    None => None,
                }
            },
        }
    }

    /// What writing `rows` rows of a known width through `path` costs.
    fn write_cost_at(&self, path: &str, width: Option<u64>, rows: u64) -> (r: Option<u64>)
        requires
            self.wf(),
        ensures
            write_priced(self@, path@, width, rows, r),
    {
        if rows == 0 {
            return Some(0);
        }
        match self.write_rate_for(path) {
            None => None,
            Some((rate, from)) => {
                match width {
                    None => None,
                    Some(width) => {
                        let bytes: u64 = scaled(rows, width, 1000);
                        Some(scaled(bytes, rate, 1_000_000))
                    },
                }
            },
        }
    }

    /// What writing `rows_written` rows of a plan's result through `path`
    /// costs, in nanoseconds. Nothing for no rows; none where no write was
    /// ever observed or the rows have no known width, which is not zero.
    pub fn write_cost(&self, path: &str, roots: &Vec<PlanNode>, rows_written: u64) -> (r: Option<u64>)
        requires
            self.wf(),
        ensures
            exists|total: OperatorSamples|
                #[trigger] is_total(self@.ops, total) && write_priced(
                    self@,
                    path@,
                    payload_in(self@.ops, total, roots@),
                    rows_written,
                    r,
                ),
    {
        let total = self.total();
        let width = self.payload_width(&total, roots);
        self.write_cost_at(path, width, rows_written)
    }

    /// What writing `rows_written` rows of the result of one operator through
    /// `path` costs.
    pub fn region_write_cost(&self, path: &str, n: &PlanNode, rows_written: u64) -> (r: Option<u64>)
        requires
            self.wf(),
        ensures
            exists|total: OperatorSamples|
                #[trigger] is_total(self@.ops, total) && write_priced(
                    self@,
                    path@,
                    payload_in(self@.ops, total, seq![*n]),
                    rows_written,
                    r,
                ),
    {
        let total = self.total();
        let width = self.payload_below(&total, n);
        proof {
            assert(seq![*n].drop_last() =~= Seq::<PlanNode>::empty());
            assert(payload_in(self@.ops, total, Seq::<PlanNode>::empty()) is None);
            assert(seq![*n].last() == *n);
        }
        self.write_cost_at(path, width, rows_written)
    }

    /// What spooling `rows_spooled` rows of a plan's result into a materialized
    /// common table expression costs, at `factor` millionths of what writing
    /// them through `path` costs. Nothing where the factor is zero; none where
    /// the write cannot be priced, which is not zero.
    pub fn spool_cost(&self, path: &str, roots: &Vec<PlanNode>, rows_spooled: u64, factor: u64) -> (r: Option<u64>)
        requires
            self.wf(),
        ensures
            factor == 0 ==> r == Some(0u64),
            factor > 0 ==> exists|total: OperatorSamples, w: Option<u64>|
                #[trigger] is_total(self@.ops, total) && #[trigger] write_priced(
                    self@,
                    path@,
                    payload_in(self@.ops, total, roots@),
                    rows_spooled,
                    w,
                ) && r == spooled(w, factor),
    {
        if factor == 0 {
            return Some(0);
        }
        spool(self.write_cost(path, roots, rows_spooled), factor)
    }

    /// Folds everything that `other` has observed into this model. Of a
    /// relation written in both, the rate of `other` stands.
    pub fn merge(&mut self, other: &LearnedCostModel)
        requires
            old(self).wf(),
            other.wf(),
        ensures
            final(self).wf(),
            model_merged(old(self)@, other@, final(self)@),
    {
        let ghost mine = self@;
        let n: usize = other.ops.len();
        let ghost keys = other.ops.keys();
        proof {
            other.ops.keys_are_the_domain();
            other.writes.keys_are_the_domain();
            assert(keys.take(0).to_set() =~= Set::<Text>::empty());
            assert(mine.ops.dom() =~= mine.ops.dom().union(Set::<Text>::empty()));
        }
        let mut i: usize = 0;
        while i < n
            invariant
                i <= n == keys.len(),
                self.wf(),
                other.wf(),
                keys == other.ops.keys(),
                keys.no_duplicates(),
                forall|k: Text| keys.contains(k) <==> #[trigger] other.ops@.contains_key(k),
                self.writes@ == old(self).writes@,
                self.basis == old(self).basis,
                mine == old(self)@,
                self.ops@.dom() == mine.ops.dom().union(keys.take(i as int).to_set()),
                forall|k: Text|
                    #[trigger] self.ops@.contains_key(k) ==> self.ops@[k] == if !keys.take(i as int).contains(k) {
                        mine.ops[k]
                    } else {
                        merged(known(mine.ops, k), other.ops@[k])
                    },
            decreases n - i,
        {
            let key = other.ops.key_at(i);
            let mut samples = self.known(key.as_str());
            samples.merge(other.ops.value_at(i));
            let ghost head = keys.take(i as int);
            proof {
                assert(!head.contains(key@)) by {
                    if head.contains(key@) {
                        let w = choose|w: int| 0 <= w < head.len() && head[w] == key@;
                        assert(keys[w] == keys[i as int]);
                    }
                }
            }
            let ghost had = self.ops@;
            self.ops.insert(key.as_str(), samples);
            proof {
                let next = keys.take(i + 1);
                assert(next =~= head.push(key@));
                crate::dag::pushed_to_set(head, key@);
                assert(self.ops@.dom() =~= mine.ops.dom().union(next.to_set()));
                assert forall|k: Text| #[trigger] self.ops@.contains_key(k) implies self.ops@[k] == if !next.contains(k) {
                    mine.ops[k]
                } else {
                    merged(known(mine.ops, k), other.ops@[k])
                } by {
                    assert(next.to_set().contains(k) == head.to_set().insert(key@).contains(k));
                    if k == key@ {
                        if mine.ops.contains_key(k) {
                            assert(had.contains_key(k));
                        } else {
                            assert(!had.contains_key(k)) by {
                                assert(!head.to_set().contains(k));
                            }
                        }
                    } else {
                        assert(had.contains_key(k));
                    }
                }
            }
            i = i + 1;
        }
        let m: usize = other.writes.len();
        let ghost paths = other.writes.keys();
        let ghost ops = self.ops@;
        proof {
            assert(keys.take(n as int) =~= keys);
            assert(keys.to_set() =~= other.ops@.dom());
            assert(paths.take(0).to_set() =~= Set::<Text>::empty());
            assert(self.writes@.dom() =~= self.writes@.dom().union(Set::<Text>::empty()));
        }
        let ghost held = self.writes@;
        let mut j: usize = 0;
        while j < m
            invariant
                j <= m == paths.len(),
                self.wf(),
                other.wf(),
                paths == other.writes.keys(),
                paths.no_duplicates(),
                forall|k: Text| paths.contains(k) <==> #[trigger] other.writes@.contains_key(k),
                self.ops@ == ops,
                self.basis == old(self).basis,
                held == old(self).writes@,
                mine == old(self)@,
                self.writes@.dom() == held.dom().union(paths.take(j as int).to_set()),
                forall|p: Text|
                    #[trigger] self.writes@.contains_key(p) ==> self.writes@[p]@ == if !paths.take(j as int).contains(p) {
                        held[p]@
                    } else {
                        written(mine.writes, p).union_prefer_right(other.writes@[p]@)
                    },
            decreases m - j,
        {
            let path = other.writes.key_at(j);
            let ghost head = paths.take(j as int);
            proof {
                assert(!head.contains(path@)) by {
                    if head.contains(path@) {
                        let w = choose|w: int| 0 <= w < head.len() && head[w] == path@;
                        assert(paths[w] == paths[j as int]);
                    }
                }
            }
            let ghost had = self.writes@;
            let mut samples = match self.writes.get(path.as_str()) {
                Some(w) => w.copy(),
                None => WriteSamples::new(),
            };
            proof {
                assert(samples@ == written(mine.writes, path@)) by {
                    if had.contains_key(path@) {
                        assert(held.contains_key(path@)) by {
                            assert(!head.to_set().contains(path@));
                        }
                    } else {
                        assert(!held.contains_key(path@));
                    }
                }
            }
            samples.merge(other.writes.value_at(j));
            let ghost now = samples@;
            self.writes.insert(path.as_str(), samples);
            proof {
                let next = paths.take(j + 1);
                assert(next =~= head.push(path@));
                crate::dag::pushed_to_set(head, path@);
                assert(self.writes@.dom() =~= held.dom().union(next.to_set()));
                assert forall|p: Text| #[trigger] self.writes@.contains_key(p) implies self.writes@[p]@ == if !next.contains(
                    p,
                ) {
                    held[p]@
                } else {
                    written(mine.writes, p).union_prefer_right(other.writes@[p]@)
                } by {
                    assert(next.to_set().contains(p) == head.to_set().insert(path@).contains(p));
                    if p != path@ {
                        assert(had.contains_key(p));
                    }
                }
            }
            j = j + 1;
        }
        if other.ops.len() != 0 {
            self.basis = other.basis();
        }
        proof {
            assert(paths.take(m as int) =~= paths);
            assert(paths.to_set() =~= other.writes@.dom());
            assert(self@.writes.dom() =~= mine.writes.dom().union(other@.writes.dom()));
            assert forall|p: Text| #[trigger] self@.writes.contains_key(p) implies self@.writes[p] == written(
                mine.writes,
                p,
            ).union_prefer_right(written(other@.writes, p)) by {
                assert(self.writes@.contains_key(p));
                if !paths.contains(p) {
                    assert(!other.writes@.contains_key(p));
                    assert(held.contains_key(p)) by {
                        assert(!paths.to_set().contains(p));
                    }
                    assert(self@.writes[p] =~= written(mine.writes, p).union_prefer_right(written(other@.writes, p)));
                }
            }
            assert forall|k: Text| #[trigger] self@.ops.contains_key(k) implies self@.ops[k] == if !other@.ops.contains_key(
                k,
            ) {
                mine.ops[k]
            } else {
                merged(known(mine.ops, k), other@.ops[k])
            } by {
                assert(keys.contains(k) == other.ops@.contains_key(k));
            }
            assert(self@.ops =~= merged_rates(mine.ops, other@.ops));
        }
    }

    /// Takes in what was kept of earlier runs; says whether it did. A model
    /// whose rates are on the old basis is discarded: the two cannot be mixed.
    pub fn adopt(&mut self, kept: &LearnedCostModel) -> (r: bool)
        requires
            old(self).wf(),
            kept.wf(),
        ensures
            final(self).wf(),
            r == (basis_of(kept@) == CostBasis::InputBytes),
            r ==> model_merged(old(self)@, kept@, final(self)@),
            !r ==> final(self)@ == old(self)@,
    {
        if kept.basis() == CostBasis::InputBytes {
            self.merge(kept);
            true
        } else {
            false
        }
    }
}

proof fn payload_extends(ops: Rates, total: OperatorSamples, roots: Seq<PlanNode>, k: int)
    requires
        0 <= k <= roots.len(),
        payload_in(ops, total, roots.take(k)) is Some,
    ensures
        payload_in(ops, total, roots) == payload_in(ops, total, roots.take(k)),
    decreases roots.len() - k,
{
    if k < roots.len() {
        assert(roots.take(k + 1).drop_last() =~= roots.take(k));
        payload_extends(ops, total, roots, k + 1);
    } else {
        assert(roots.take(k) =~= roots);
    }
}

/// Relations that were observed have a median.
proof fn median_exists(m: Map<Text, u64>)
    requires
        m.len() > 0,
    ensures
        !is_median_rate(m, None),
{
    if is_median_rate(m, None) {
        let keys = choose|keys: Seq<Text>| #[trigger] lists_keys(m, keys) && keys.len() == 0;
        assert(m.dom() =~= Set::<Text>::empty()) by {
            assert forall|k: Text| !m.contains_key(k) by {
                assert(!keys.contains(k));
            }
        }
    }
}

/// A write of a relation replaces what was known of it, so a pipeline that
/// runs nightly does not outvote the others.
pub proof fn latest_write_stands(
    writes: Map<Text, Map<Text, u64>>,
    path: Text,
    relation: Text,
    first: u64,
    second: u64,
)
    ensures
        with_write(with_write(writes, path, relation, first), path, relation, second) == with_write(
            writes,
            path,
            relation,
            second,
        ),
{
    let a = with_write(with_write(writes, path, relation, first), path, relation, second);
    let b = with_write(writes, path, relation, second);
    assert(a[path] =~= b[path]);
    assert(a =~= b);
}

/// The order in which two sets of observations are merged does not matter.
pub proof fn merged_commutes(a: OperatorSamples, b: OperatorSamples)
    ensures
        merged(a, b) == merged(b, a),
{
}

/// Nor does it matter how three are grouped.
pub proof fn merged_associates(a: OperatorSamples, b: OperatorSamples, c: OperatorSamples)
    ensures
        merged(merged(a, b), c) == merged(a, merged(b, c)),
{
}

proof fn totals_without(ops: Rates, keys: Seq<Text>, i: int)
    requires
        0 <= i < keys.len(),
    ensures
        totals(ops, keys) == merged(totals(ops, keys.remove(i)), ops[keys[i]]),
    decreases keys.len(),
{
    let rest = keys.remove(i);
    if i == keys.len() - 1 {
        assert(rest =~= keys.drop_last());
    } else {
        let head = keys.drop_last();
        totals_without(ops, head, i);
        assert(rest.drop_last() =~= head.remove(i));
        assert(rest.last() == keys.last());
        let t = totals(ops, head.remove(i));
        merged_associates(t, ops[keys[i]], ops[keys.last()]);
        merged_commutes(ops[keys[i]], ops[keys.last()]);
        merged_associates(t, ops[keys.last()], ops[keys[i]]);
    }
}

/// Folding in rates that are on the current basis keeps a model on it.
pub proof fn merging_keeps_the_basis(a: LearnedModel, b: LearnedModel, c: LearnedModel)
    requires
        model_merged(a, b, c),
        basis_of(a) == CostBasis::InputBytes,
        basis_of(b) == CostBasis::InputBytes,
    ensures
        basis_of(c) == CostBasis::InputBytes,
{
    if b.ops == Map::<Text, OperatorSamples>::empty() {
        assert(merged_rates(a.ops, b.ops).dom() =~= a.ops.dom());
        if a.ops == Map::<Text, OperatorSamples>::empty() {
            assert(c.ops =~= Map::<Text, OperatorSamples>::empty());
        }
    }
}

/// Merging what two runs taught is the same as observing one after the other.
pub proof fn merging_is_observing(ops: Rates, roots: Seq<PlanNode>)
    ensures
        merged_rates(ops, learn_all(Map::<Text, OperatorSamples>::empty(), roots)) == learn_all(ops, roots),
{
    let none = Map::<Text, OperatorSamples>::empty();
    merging_then_observing_all(ops, none, roots);
    assert forall|k: Text| ops.contains_key(k) implies merged(known(ops, k), known(none, k)) == ops[k] by {}
    assert(merged_rates(ops, none) =~= ops);
}

proof fn merging_then_observing(a: Rates, b: Rates, n: PlanNode)
    ensures
        learn(merged_rates(a, b), n) == merged_rates(a, learn(b, n)),
{
    let key = n.cost_key@;
    let s = samples_of(n);
    let both = merged_rates(a, b);
    if !(n.writes || n.row_width is None || n.row_width == Some(0u64)) {
        assert(known(both, key) == merged(known(a, key), known(b, key)));
        merged_associates(known(a, key), known(b, key), s);
        assert forall|k: Text| #[trigger] learn(both, n).contains_key(k) implies learn(both, n)[k] == merged_rates(
            a,
            learn(b, n),
        )[k] by {
            if k != key {
                assert(known(learn(b, n), k) == known(b, k));
            }
        }
        assert(learn(both, n) =~= merged_rates(a, learn(b, n)));
    }
}

proof fn merging_then_observing_all(a: Rates, b: Rates, roots: Seq<PlanNode>)
    ensures
        learn_all(merged_rates(a, b), roots) == merged_rates(a, learn_all(b, roots)),
    decreases roots, roots.len(),
{
    if roots.len() > 0 {
        merging_then_observing_all(a, b, roots.drop_last());
        merging_then_observing_tree(a, learn_all(b, roots.drop_last()), roots.last());
    }
}

proof fn merging_then_observing_tree(a: Rates, b: Rates, n: PlanNode)
    ensures
        learn_tree(merged_rates(a, b), n) == merged_rates(a, learn_tree(b, n)),
    decreases n,
{
    merging_then_observing(a, b, n);
    merging_then_observing_all(a, learn(b, n), n.children@);
}

/// How many of the first `n` numbers are `x`.
pub open spec fn votes(s: Seq<u64>, x: u64, n: nat) -> nat
    decreases n,
{
    if n == 0 {
        0
    } else {
        votes(s, x, (n - 1) as nat) + if s[n - 1] == x {
            1nat
        } else {
            0
        }
    }
}

/// A majority sets the median: whatever a minority of relations reports, however
/// far off, the rate is what most of them agree on.
pub proof fn a_majority_sets_the_median(s: Seq<u64>, x: u64)
    requires
        forall|i: int, j: int| 0 <= i <= j < s.len() ==> s[i] <= s[j],
        2 * votes(s, x, s.len()) > s.len(),
    ensures
        twice_middle(s) == 2 * x,
{
    let n = s.len();
    let mid = n / 2;
    votes_bounded(s, x, n);
    majority_at(s, x, mid as int);
    if n % 2 == 0 {
        majority_at(s, x, mid - 1);
    }
}

proof fn votes_bounded(s: Seq<u64>, x: u64, n: nat)
    ensures
        votes(s, x, n) <= n,
    decreases n,
{
    if n > 0 {
        votes_bounded(s, x, (n - 1) as nat);
    }
}

/// Where the position is not for `x`, nothing on one side of it is.
proof fn majority_at(s: Seq<u64>, x: u64, k: int)
    requires
        forall|i: int, j: int| 0 <= i <= j < s.len() ==> s[i] <= s[j],
        2 * votes(s, x, s.len()) > s.len(),
        0 <= k < s.len(),
        2 * k <= s.len(),
        2 * (k + 1) >= s.len(),
    ensures
        s[k] == x,
{
    if s[k] < x {
        no_votes_up_to(s, x, (k + 1) as nat);
        votes_from(s, x, (k + 1) as nat, s.len());
    } else if s[k] > x {
        no_votes_after(s, x, k as nat, s.len());
        votes_bounded(s, x, k as nat);
    }
}

proof fn no_votes_up_to(s: Seq<u64>, x: u64, n: nat)
    requires
        n <= s.len(),
        forall|i: int, j: int| 0 <= i <= j < s.len() ==> s[i] <= s[j],
        n > 0 ==> s[n - 1] < x,
    ensures
        votes(s, x, n) == 0,
    decreases n,
{
    if n > 0 {
        if n > 1 {
            assert(s[n - 2] <= s[n - 1]);
        }
        no_votes_up_to(s, x, (n - 1) as nat);
    }
}

proof fn votes_from(s: Seq<u64>, x: u64, k: nat, n: nat)
    requires
        k <= n <= s.len(),
    ensures
        votes(s, x, n) <= votes(s, x, k) + (n - k),
    decreases n,
{
    if n > k {
        votes_from(s, x, k, (n - 1) as nat);
    }
}

proof fn no_votes_after(s: Seq<u64>, x: u64, k: nat, n: nat)
    requires
        k <= n <= s.len(),
        forall|i: int, j: int| 0 <= i <= j < s.len() ==> s[i] <= s[j],
        k < s.len(),
        s[k as int] > x,
    ensures
        votes(s, x, n) == votes(s, x, k),
    decreases n,
{
    if n > k {
        assert(s[k as int] <= s[n - 1]);
        no_votes_after(s, x, k, (n - 1) as nat);
    }
}

/// What was observed sums to one thing, in whatever order it is summed.
pub proof fn total_is_unique(ops: Rates, a: OperatorSamples, b: OperatorSamples)
    requires
        is_total(ops, a),
        is_total(ops, b),
    ensures
        a == b,
{
    let p = choose|keys: Seq<Text>| #[trigger] lists_keys(ops, keys) && a == totals(ops, keys);
    let q = choose|keys: Seq<Text>| #[trigger] lists_keys(ops, keys) && b == totals(ops, keys);
    assert forall|k: Text| p.contains(k) == q.contains(k) by {
        assert(p.contains(k) == ops.contains_key(k));
        assert(q.contains(k) == ops.contains_key(k));
    }
    same_totals(ops, p, q);
}

proof fn same_totals(ops: Rates, p: Seq<Text>, q: Seq<Text>)
    requires
        p.no_duplicates(),
        q.no_duplicates(),
        forall|k: Text| p.contains(k) == q.contains(k),
    ensures
        totals(ops, p) == totals(ops, q),
    decreases p.len(),
{
    if p.len() == 0 {
        if q.len() > 0 {
            assert(q.contains(q[0]));
            assert(p.contains(q[0]));
        }
    } else {
        let x = p.last();
        let head = p.drop_last();
        assert(p[p.len() - 1] == x);
        assert(q.contains(x)) by {
            assert(p.contains(x));
        }
        let j = choose|j: int| 0 <= j < q.len() && q[j] == x;
        let rest = q.remove(j);
        assert forall|a: int, b: int| 0 <= a < rest.len() && 0 <= b < rest.len() && a != b implies rest[a] != rest[b] by {
            let qa = if a < j { a } else { a + 1 };
            let qb = if b < j { b } else { b + 1 };
            assert(q[qa] != q[qb]);
        }
        assert forall|k: Text| head.contains(k) == rest.contains(k) by {
            if head.contains(k) {
                let i = choose|i: int| 0 <= i < head.len() && head[i] == k;
                assert(p[i] == k && i != p.len() - 1);
                assert(p.contains(k));
                assert(k != x);
                let w = choose|w: int| 0 <= w < q.len() && q[w] == k;
                assert(rest[if w < j { w } else { w - 1 }] == k);
            }
            if rest.contains(k) {
                let i = choose|i: int| 0 <= i < rest.len() && rest[i] == k;
                let w = if i < j { i } else { i + 1 };
                assert(q[w] == k && w != j);
                assert(q.contains(k));
                assert(k != x);
                let v = choose|v: int| 0 <= v < p.len() && p[v] == k;
                assert(head[v] == k);
            }
        }
        same_totals(ops, head, rest);
        totals_without(ops, q, j);
    }
}

/// Rounding is to the nearest: what is rounded lies within half a step.
pub proof fn rounding_is_within_half_a_step(a: nat, b: nat)
    requires
        b > 0,
    ensures
        2 * a < (2 * nearest(a, b) + 1) * b,
        2 * a >= (2 * nearest(a, b) - 1) * b,
{
    let r = nearest(a, b) as int;
    let x = 2 * a + b;
    let d = 2 * b as int;
    vstd::arithmetic::div_mod::lemma_fundamental_div_mod(x as int, d);
    assert(d * r <= x < d * r + d);
    assert(d * r == 2 * r * b) by (nonlinear_arith)
        requires
            d == 2 * b,
    ;
    assert((2 * r + 1) * b == 2 * r * b + b) by (nonlinear_arith);
    assert((2 * r - 1) * b == 2 * r * b - b) by (nonlinear_arith);
}

/// A rate is time over bytes, a time is bytes at a rate, and bytes are rows of a
/// width: each to the nearest, as long as it is a machine number.
pub proof fn rates_times_and_bytes_agree(nanos: nat, bytes: nat, rate: nat, rows: nat, width: nat)
    requires
        bytes > 0,
    ensures
        rate_of(nanos, bytes) < u64::MAX ==> (2 * rate_of(nanos, bytes) - 1) * bytes <= 2 * (nanos * 1_000_000) < (2 * rate_of(
            nanos,
            bytes,
        ) + 1) * bytes,
        time_at(bytes, rate) < u64::MAX ==> (2 * time_at(bytes, rate) - 1) * 1_000_000 <= 2 * (bytes * rate) < (2 * time_at(
            bytes,
            rate,
        ) + 1) * 1_000_000,
        bytes_in(rows, width) < u64::MAX ==> (2 * bytes_in(rows, width) - 1) * 1000 <= 2 * (rows * width) < (2 * bytes_in(
            rows,
            width,
        ) + 1) * 1000,
{
    rounding_is_within_half_a_step(nanos * 1_000_000, bytes);
    rounding_is_within_half_a_step(bytes * rate, 1_000_000);
    rounding_is_within_half_a_step(rows * width, 1000);
}

/// Merging observations adds up each of their sums.
pub proof fn merging_adds_every_sum(a: OperatorSamples, b: OperatorSamples)
    requires
        a.rate_sum + b.rate_sum <= u64::MAX,
        a.rate_n + b.rate_n <= u64::MAX,
        a.width_sum + b.width_sum <= u64::MAX,
        a.width_n + b.width_n <= u64::MAX,
        a.time_total + b.time_total <= u64::MAX,
        a.bytes_total + b.bytes_total <= u64::MAX,
    ensures
        merged(a, b).rate_sum == a.rate_sum + b.rate_sum,
        merged(a, b).rate_n == a.rate_n + b.rate_n,
        merged(a, b).width_sum == a.width_sum + b.width_sum,
        merged(a, b).width_n == a.width_n + b.width_n,
        merged(a, b).time_total == a.time_total + b.time_total,
        merged(a, b).bytes_total == a.bytes_total + b.bytes_total,
        merged(a, no_samples()) == a,
{
}

/// The rate of observations is all of their time over all of their bytes, and
/// their width the sum of the widths over how many there are; without any there
/// is neither.
pub proof fn a_rate_weighs_by_bytes(s: OperatorSamples)
    ensures
        weighted_rate(s) is Some <==> s.bytes_total > 0,
        weighted_rate(s) is Some && weighted_rate(s)->0 < u64::MAX ==> (2 * weighted_rate(s)->0 - 1) * s.bytes_total <= 2 * (
        s.time_total * 1_000_000) < (2 * weighted_rate(s)->0 + 1) * s.bytes_total,
        mean_width(s) is Some <==> s.width_n > 0,
        mean_width(s) is Some && mean_width(s)->0 < u64::MAX ==> (2 * mean_width(s)->0 - 1) * s.width_n <= 2 * (s.width_sum
            * 1000) < (2 * mean_width(s)->0 + 1) * s.width_n,
{
    if s.bytes_total > 0 {
        rounding_is_within_half_a_step((s.time_total as nat) * 1_000_000, s.bytes_total as nat);
    }
    if s.width_n > 0 {
        rounding_is_within_half_a_step((s.width_sum as nat) * 1000, s.width_n as nat);
    }
}

/// Every child counts: what two lists of operators emit is what each emits,
/// whatever comes last, and one operator emits its own rows at its own width.
pub proof fn every_child_emits(a: Seq<PlanNode>, b: Seq<PlanNode>, n: PlanNode)
    ensures
        own_outputs(a) + own_outputs(b) <= u64::MAX ==> own_outputs(a + b) == own_outputs(a) + own_outputs(b),
        own_outputs(a) + own_outputs(b) > u64::MAX ==> own_outputs(a + b) == u64::MAX,
        own_outputs(a + b) == own_outputs(b + a),
        own_outputs(Seq::<PlanNode>::empty()) == 0,
        own_outputs(seq![n]) == (match own_output_bytes(n) {
            Some(x) => x,
            None => 0,
        }),
        rows_of(n) is Some && n.row_width is Some && rows_of(n)->0 * n.row_width->0 <= u64::MAX ==> own_outputs(seq![n])
            == rows_of(n)->0 * n.row_width->0,
{
    outputs_append(a, b);
    outputs_append(b, a);
    assert(seq![n].drop_last() =~= Seq::<PlanNode>::empty());
    assert(seq![n].last() == n);
    assert(own_outputs(Seq::<PlanNode>::empty()) == 0);
    if rows_of(n) is Some && n.row_width is Some {
        assert((rows_of(n)->0 as nat) * (n.row_width->0 as nat) >= 0) by (nonlinear_arith);
    }
}

proof fn outputs_append(a: Seq<PlanNode>, b: Seq<PlanNode>)
    ensures
        own_outputs(a + b) == cap64((own_outputs(a) + own_outputs(b)) as nat),
    decreases b.len(),
{
    if b.len() == 0 {
        assert(a + b =~= a);
    } else {
        outputs_append(a, b.drop_last());
        assert((a + b).drop_last() =~= a + b.drop_last());
        assert((a + b).last() == b.last());
    }
}

/// The same by learned widths.
pub proof fn every_child_emits_for_pricing(
    ops: Rates,
    total: OperatorSamples,
    a: Seq<PlanNode>,
    b: Seq<PlanNode>,
    n: PlanNode,
)
    ensures
        outputs_for(ops, total, a) + outputs_for(ops, total, b) <= u64::MAX ==> outputs_for(ops, total, a + b) == outputs_for(
            ops,
            total,
            a,
        ) + outputs_for(ops, total, b),
        outputs_for(ops, total, a) + outputs_for(ops, total, b) > u64::MAX ==> outputs_for(ops, total, a + b) == u64::MAX,
        outputs_for(ops, total, a + b) == outputs_for(ops, total, b + a),
        outputs_for(ops, total, Seq::<PlanNode>::empty()) == 0,
        outputs_for(ops, total, seq![n]) == (match output_for(ops, total, n) {
            Some(x) => x,
            None => 0,
        }),
{
    outputs_for_append(ops, total, a, b);
    outputs_for_append(ops, total, b, a);
    assert(seq![n].drop_last() =~= Seq::<PlanNode>::empty());
    assert(seq![n].last() == n);
    assert(outputs_for(ops, total, Seq::<PlanNode>::empty()) == 0);
}

proof fn outputs_for_append(ops: Rates, total: OperatorSamples, a: Seq<PlanNode>, b: Seq<PlanNode>)
    ensures
        outputs_for(ops, total, a + b) == cap64((outputs_for(ops, total, a) + outputs_for(ops, total, b)) as nat),
    decreases b.len(),
{
    if b.len() == 0 {
        assert(a + b =~= a);
    } else {
        outputs_for_append(ops, total, a, b.drop_last());
        assert((a + b).drop_last() =~= a + b.drop_last());
        assert((a + b).last() == b.last());
    }
}

/// One child more adds what it emits to what an operator consumes that scans
/// nothing itself, both where rates are fitted and where a plan is priced.
pub proof fn a_further_child_is_consumed(
    ops: Rates,
    total: OperatorSamples,
    few: PlanNode,
    more: PlanNode,
    child: PlanNode,
)
    requires
        few.rows_scanned is None,
        more.rows_scanned is None,
        more.children@ == few.children@.push(child),
    ensures
        own_outputs(few.children@) > 0 && own_output_bytes(child) is Some && own_outputs(few.children@) + own_output_bytes(
            child,
        )->0 <= u64::MAX ==> own_input_bytes(more) is Some && own_input_bytes(few) is Some && own_input_bytes(more)->0
            == own_input_bytes(few)->0 + own_output_bytes(child)->0,
        outputs_for(ops, total, few.children@) > 0 && output_for(ops, total, child) is Some && outputs_for(
            ops,
            total,
            few.children@,
        ) + output_for(ops, total, child)->0 <= u64::MAX ==> input_for(ops, total, more) is Some && input_for(ops, total, few) is Some
            && input_for(ops, total, more)->0 == input_for(ops, total, few)->0 + output_for(ops, total, child)->0,
        few.children@.len() == 0 && own_output_bytes(child) is Some && own_output_bytes(child)->0 > 0 ==> own_input_bytes(more)
            == own_output_bytes(child),
        few.children@.len() == 0 && output_for(ops, total, child) is Some && output_for(ops, total, child)->0 > 0
            ==> input_for(ops, total, more) == output_for(ops, total, child),
        few.children@.len() == 0 ==> own_input_bytes(few) == own_output_bytes(few) && input_for(ops, total, few) == output_for(
            ops,
            total,
            few,
        ),
{
    assert(more.children@.drop_last() =~= few.children@);
    assert(more.children@.last() == child);
}

/// An operator that scans consumes what it scans, whatever lies below it.
pub proof fn a_scan_consumes_what_it_scans(ops: Rates, total: OperatorSamples, n: PlanNode, rows: u64, width: u64)
    requires
        n.rows_scanned == Some(rows),
        n.row_width == Some(width),
        rows > 0,
        width > 0,
        rows * width <= u64::MAX,
        width * 1000 <= u64::MAX,
    ensures
        own_input_bytes(n) is Some && own_input_bytes(n)->0 == rows * width,
        input_for(ops, total, n) is Some && input_for(ops, total, n)->0 == rows * width,
{
    let w = cap64((width as nat) * 1000);
    assert(rows * (width * 1000) == (rows * width) * 1000) by (nonlinear_arith);
    let p = (rows * width) as nat;
    assert((2 * (p * 1000) + 1000) / 2000 == p) by (nonlinear_arith)
        requires
            p >= 0,
    ;
    assert(rows * w == p * 1000);
    assert((rows as nat) * (width as nat) == p);
    assert(bytes_in(rows as nat, w as nat) == p);
}

/// What an operator teaches: its time and what it consumed are added to those of
/// its kind, its rate and its width count once, and no other kind changes. One
/// that writes, or without a width, teaches nothing; one without a time or
/// without input teaches its width alone.
pub proof fn an_operator_teaches_its_kind(ops: Rates, n: PlanNode, other: Text)
    requires
        other != n.cost_key@,
    ensures
        n.writes || n.row_width is None || n.row_width == Some(0u64) ==> learn(ops, n) == ops,
        !n.writes && n.row_width is Some && n.row_width->0 > 0 ==> {
            let before = known(ops, n.cost_key@);
            let after = learn(ops, n)[n.cost_key@];
            &&& learn(ops, n).dom() == ops.dom().insert(n.cost_key@)
            &&& ops.contains_key(other) ==> learn(ops, n)[other] == ops[other]
            &&& before.width_sum + n.row_width->0 <= u64::MAX ==> after.width_sum == before.width_sum + n.row_width->0
            &&& before.width_n < u64::MAX ==> after.width_n == before.width_n + 1
            &&& n.exclusive_time is None || own_input_bytes(n) is None || own_input_bytes(n) == Some(0u64) ==> after.time_total
                == before.time_total && after.bytes_total == before.bytes_total && after.rate_n == before.rate_n
            &&& n.exclusive_time is Some && own_input_bytes(n) is Some && own_input_bytes(n)->0 > 0 && before.time_total
                + n.exclusive_time->0 <= u64::MAX && before.bytes_total + own_input_bytes(n)->0 <= u64::MAX && before.rate_n
                < u64::MAX ==> after.time_total
                == before.time_total + n.exclusive_time->0 && after.bytes_total == before.bytes_total + own_input_bytes(n)->0
                && after.rate_n == before.rate_n + 1
        },
{
    if !(n.writes || n.row_width is None || n.row_width == Some(0u64)) {
        assert(learn(ops, n).dom() =~= ops.dom().insert(n.cost_key@));
    }
}

/// Every operator of a plan teaches: a plan teaches what its trees teach in
/// turn, and a tree what its root and then what lies below it teaches.
pub proof fn every_operator_teaches(ops: Rates, a: Seq<PlanNode>, b: Seq<PlanNode>, n: PlanNode)
    ensures
        learn_all(ops, a + b) == learn_all(learn_all(ops, a), b),
        learn_all(ops, seq![n]) == learn_all(learn(ops, n), n.children@),
        learn_all(ops, Seq::<PlanNode>::empty()) == ops,
    decreases b.len(),
{
    assert(seq![n].drop_last() =~= Seq::<PlanNode>::empty());
    assert(learn_all(ops, Seq::<PlanNode>::empty()) == ops);
    assert(learn_all(ops, seq![n]) == learn_tree(ops, n));
    if b.len() == 0 {
        assert(a + b =~= a);
    } else {
        every_operator_teaches(ops, a, b.drop_last(), n);
        assert((a + b).drop_last() =~= a + b.drop_last());
        assert((a + b).last() == b.last());
    }
}

/// Every operator of a plan is charged: two plans together cost what each costs,
/// and a tree costs what its root costs by itself and what lies below it.
pub proof fn every_operator_is_charged(
    m: LearnedModel,
    total: OperatorSamples,
    a: Seq<PlanNode>,
    b: Seq<PlanNode>,
    n: PlanNode,
)
    requires
        !is_blank(m),
    ensures
        plan_cost(m, total, a) is Some && plan_cost(m, total, b) is Some && plan_cost(m, total, a)->0 + plan_cost(m, total, b)->0
            < u64::MAX ==> plan_cost(m, total, a + b) is Some && plan_cost(m, total, a + b)->0 == plan_cost(m, total, a)->0
            + plan_cost(m, total, b)->0,
        plan_cost(m, total, b) is None ==> plan_cost(m, total, a + b) == plan_cost(m, total, a),
        plan_cost(m, total, a) is None ==> plan_cost(m, total, a + b) == plan_cost(m, total, b),
        n.children@.len() == 0 ==> plan_cost(m, total, seq![n]) == own_cost(m.ops, total, n),
        own_cost(m.ops, total, n) is None ==> plan_cost(m, total, seq![n]) == plan_cost(m, total, n.children@),
        own_cost(m.ops, total, n) is Some && plan_cost(m, total, n.children@) is Some && own_cost(m.ops, total, n)->0
            + plan_cost(m, total, n.children@)->0 < u64::MAX ==> plan_cost(m, total, seq![n]) is Some && plan_cost(
            m,
            total,
            seq![n],
        )->0 == own_cost(m.ops, total, n)->0 + plan_cost(m, total, n.children@)->0,
{
    costs_append(m.ops, total, a, b);
    unpriced_is_free(m.ops, total, a);
    unpriced_is_free(m.ops, total, b);
    unpriced_is_free(m.ops, total, n.children@);
    assert(seq![n].drop_last() =~= Seq::<PlanNode>::empty());
    assert(seq![n].last() == n);
    assert(costs_in(m.ops, total, Seq::<PlanNode>::empty()) == (0nat, 0nat));
    assert(costs_in(m.ops, total, seq![n]) == costs_at(m.ops, total, n));
    if n.children@.len() == 0 {
        assert(n.children@ =~= Seq::<PlanNode>::empty());
    }
}

proof fn costs_append(ops: Rates, total: OperatorSamples, a: Seq<PlanNode>, b: Seq<PlanNode>)
    ensures
        costs_in(ops, total, a + b).0 == costs_in(ops, total, a).0 + costs_in(ops, total, b).0,
        costs_in(ops, total, a + b).1 == costs_in(ops, total, a).1 + costs_in(ops, total, b).1,
    decreases b.len(),
{
    if b.len() == 0 {
        assert(a + b =~= a);
    } else {
        costs_append(ops, total, a, b.drop_last());
        assert((a + b).drop_last() =~= a + b.drop_last());
        assert((a + b).last() == b.last());
    }
}

proof fn unpriced_is_free(ops: Rates, total: OperatorSamples, roots: Seq<PlanNode>)
    ensures
        costs_in(ops, total, roots).1 == 0 ==> costs_in(ops, total, roots).0 == 0,
    decreases roots, roots.len(),
{
    if roots.len() > 0 {
        unpriced_is_free(ops, total, roots.drop_last());
        unpriced_tree_is_free(ops, total, roots.last());
    }
}

proof fn unpriced_tree_is_free(ops: Rates, total: OperatorSamples, n: PlanNode)
    ensures
        costs_at(ops, total, n).1 == 0 ==> costs_at(ops, total, n).0 == 0,
    decreases n,
{
    unpriced_is_free(ops, total, n.children@);
}

/// An operator costs what it consumes at the rate of its kind, or of everything
/// where its kind was never seen. One that writes is not priced here.
pub proof fn an_operator_costs_its_input_at_its_rate(ops: Rates, total: OperatorSamples, n: PlanNode, rate: u64, bytes: u64)
    requires
        input_for(ops, total, n) == Some(bytes),
        weighted_rate(known(ops, n.cost_key@)) == Some(rate) || (weighted_rate(known(ops, n.cost_key@)) is None && weighted_rate(
            total,
        ) == Some(rate)),
        (bytes as nat) * (rate as nat) < u64::MAX,
    ensures
        n.writes ==> own_cost(ops, total, n) is None,
        !n.writes ==> own_cost(ops, total, n) is Some && (2 * own_cost(ops, total, n)->0 - 1) * 1_000_000 <= 2 * (bytes
            * rate) < (2 * own_cost(ops, total, n)->0 + 1) * 1_000_000,
{
    let t = nearest((bytes as nat) * (rate as nat), 1_000_000);
    rounding_is_within_half_a_step((bytes as nat) * (rate as nat), 1_000_000);
    assert(t <= (bytes as nat) * (rate as nat) + 1);
    assert((bytes as nat) * (rate as nat) == bytes * rate);
}

/// Each kind of operator counts in the total: a kind more adds what is known of
/// it.
pub proof fn every_kind_is_in_the_total(ops: Rates, key: Text, s: OperatorSamples, few: OperatorSamples, more: OperatorSamples)
    requires
        !ops.contains_key(key),
        is_total(ops, few),
        is_total(ops.insert(key, s), more),
    ensures
        more == merged(few, s),
{
    let p = choose|keys: Seq<Text>| #[trigger] lists_keys(ops, keys) && few == totals(ops, keys);
    let wide = ops.insert(key, s);
    let q = p.push(key);
    assert(!p.contains(key));
    assert forall|k: Text| q.contains(k) == wide.contains_key(k) by {
        assert(p.contains(k) == ops.contains_key(k));
        if p.contains(k) {
            let i = choose|i: int| 0 <= i < p.len() && p[i] == k;
            assert(q[i] == k);
        }
        if k == key {
            assert(q[p.len() as int] == k);
        }
    }
    assert(lists_keys(wide, q));
    assert(q.drop_last() =~= p);
    assert(p.no_duplicates());
    totals_ignore(ops, wide, p);
    assert(is_total(wide, totals(wide, q)));
    total_is_unique(wide, more, totals(wide, q));
}

proof fn totals_ignore(a: Rates, b: Rates, keys: Seq<Text>)
    requires
        forall|i: int| 0 <= i < keys.len() ==> a[#[trigger] keys[i]] == b[keys[i]],
    ensures
        totals(a, keys) == totals(b, keys),
    decreases keys.len(),
{
    if keys.len() > 0 {
        let head = keys.drop_last();
        assert forall|i: int| 0 <= i < head.len() implies a[#[trigger] head[i]] == b[head[i]] by {
            assert(head[i] == keys[i]);
        }
        totals_ignore(a, b, head);
        assert(a[keys[keys.len() - 1]] == b[keys[keys.len() - 1]]);
    }
}

/// What the operators of a plan account for is all of their times, and what a
/// plan without a timed writer wrote in is the rest of its statement's time.
pub proof fn a_write_takes_the_rest(a: Seq<PlanNode>, b: Seq<PlanNode>, n: PlanNode, total: u64)
    ensures
        accounted_in(a + b) == accounted_in(a) + accounted_in(b),
        accounted_in(seq![n]) == accounted_in(n.children@) + (match n.exclusive_time {
            Some(t) => t as int,
            None => 0,
        }),
        accounted_in(Seq::<PlanNode>::empty()) == 0,
        write_time_in(seq![n]) is None && n.statement_time == Some(total) ==> write_timing_of(seq![n]) is Some && (
        accounted_in(seq![n]) <= total ==> write_timing_of(seq![n])->0 + accounted_in(seq![n]) == total) && (accounted_in(seq![n])
            > total ==> write_timing_of(seq![n])->0 == 0),
        n.writes && n.exclusive_time is Some ==> write_timing_of(seq![n]) == n.exclusive_time,
    decreases b.len(),
{
    assert(seq![n].drop_last() =~= Seq::<PlanNode>::empty());
    assert(seq![n].last() == n);
    assert(accounted_in(Seq::<PlanNode>::empty()) == 0);
    assert(write_time_in(Seq::<PlanNode>::empty()) is None);
    assert(accounted_in(seq![n]) == accounted_at(n));
    assert(write_time_in(seq![n]) == write_time_at(n));
    if b.len() == 0 {
        assert(a + b =~= a);
    } else {
        a_write_takes_the_rest(a, b.drop_last(), n, total);
        assert((a + b).drop_last() =~= a + b.drop_last());
        assert((a + b).last() == b.last());
    }
}

/// A cost at a factor: that many millionths of it, rounded down.
pub proof fn a_spool_is_a_part_of_a_write(w: u64, factor: u64)
    ensures
        spooled(Some(w), factor) is Some,
        spooled(Some(w), factor)->0 < u64::MAX ==> spooled(Some(w), factor)->0 * 1000000 <= w * factor < (spooled(
            Some(w),
            factor,
        )->0 + 1) * 1000000,
        spooled(None, factor) is None,
{
    assert(w * factor >= 0) by (nonlinear_arith);
}

/// The middle of a sorted list: of one number it is that number, of two their
/// mean, and otherwise as many lie on one side of it as on the other.
pub proof fn a_median_is_in_the_middle(s: Seq<u64>, i: int)
    requires
        s.len() > 0,
        forall|i: int, j: int| 0 <= i <= j < s.len() ==> s[i] <= s[j],
        0 <= i < s.len(),
    ensures
        s.len() == 1 ==> twice_middle(s) == 2 * s[0],
        s.len() == 2 ==> twice_middle(s) == s[0] + s[1],
        2 * i + 1 < s.len() ==> 2 * s[i] <= twice_middle(s),
        2 * i + 1 > s.len() ==> 2 * s[i] >= twice_middle(s),
        2 * i + 1 == s.len() ==> 2 * s[i] == twice_middle(s),
{
    let mid = s.len() / 2;
    if s.len() % 2 == 0 {
        assert(s[mid - 1] <= s[mid as int]);
        if i <= mid - 1 {
            assert(s[i] <= s[mid - 1]);
        } else {
            assert(s[mid as int] <= s[i]);
        }
    } else {
        if i <= mid {
            assert(s[i] <= s[mid as int]);
        } else {
            assert(s[mid as int] <= s[i]);
        }
    }
}

/// A write costs its bytes at the median rate of the relations written through
/// the path it goes by; no rows cost nothing.
pub proof fn a_write_costs_its_bytes(m: LearnedModel, path: Text, width: u64, rows: u64, r: Option<u64>, rate: u64)
    requires
        write_priced(m, path, Some(width), rows, r),
        rows > 0,
        written(m.writes, path).len() > 0,
        forall|x: u64| #[trigger] is_median_rate(written(m.writes, path), Some(x)) ==> x == rate,
        bytes_in(rows as nat, width as nat) < u64::MAX,
        (bytes_in(rows as nat, width as nat) as nat) * (rate as nat) < u64::MAX,
        m.writes.contains_key(path),
    ensures
        r is Some,
        (2 * r->0 - 1) * 1_000_000 <= 2 * (bytes_in(rows as nat, width as nat) * rate) < (2 * r->0 + 1) * 1_000_000,
        (2 * bytes_in(rows as nat, width as nat) - 1) * 1000 <= 2 * (rows * width) < (2 * bytes_in(rows as nat, width as nat) + 1)
            * 1000,
{
    let b = bytes_in(rows as nat, width as nat);
    rounding_is_within_half_a_step((b as nat) * (rate as nat), 1_000_000);
    rounding_is_within_half_a_step((rows as nat) * (width as nat), 1000);
    assert((b as nat) * (rate as nat) == b * rate);
    assert((rows as nat) * (width as nat) == rows * width);
    let t = nearest((b as nat) * (rate as nat), 1_000_000);
    assert(t <= (b as nat) * (rate as nat) + 1);
    assert(m.writes[path].len() > 0);
}

/// The rate of an observed write is its time over its bytes.
pub proof fn a_write_is_observed_at_its_rate(ops: Rates, total: OperatorSamples, roots: Seq<PlanNode>, rows: u64, t: u64, width: u64)
    requires
        rows > 0,
        write_timing_of(roots) == Some(t),
        payload_in(ops, total, roots) == Some(width),
        t > 0,
        bytes_in(rows as nat, width as nat) > 0,
        t * 1_000_000 < u64::MAX,
    ensures
        observed_rate(ops, total, roots, rows) is Some,
        (2 * observed_rate(ops, total, roots, rows)->0 - 1) * bytes_in(rows as nat, width as nat) <= 2 * (t * 1_000_000) < (2
            * observed_rate(ops, total, roots, rows)->0 + 1) * bytes_in(rows as nat, width as nat),
        observed_rate(ops, total, roots, 0) is None,
{
    let b = bytes_in(rows as nat, width as nat);
    let r = nearest((t as nat) * 1_000_000, b as nat);
    rounding_is_within_half_a_step((t as nat) * 1_000_000, b as nat);
    assert(r <= (t as nat) * 1_000_000 + 1) by (nonlinear_arith)
        requires
            2 * ((t as nat) * 1_000_000) >= (2 * r - 1) * b,
            b >= 1,
            r >= 0,
    ;
}

/// The first operator that writes, in the order of the plan and each before what
/// lies below it, tells the time of a write and the path it took.
pub proof fn the_first_writer_counts(a: Seq<PlanNode>, b: Seq<PlanNode>, n: PlanNode)
    ensures
        write_time_in(a) is Some ==> write_time_in(a + b) == write_time_in(a),
        write_time_in(a) is None ==> write_time_in(a + b) == write_time_in(b),
        n.writes && n.exclusive_time is Some ==> write_time_in(seq![n]) == n.exclusive_time,
        !n.writes || n.exclusive_time is None ==> write_time_in(seq![n]) == write_time_in(n.children@),
        writer_in(a) is Some ==> writer_in(a + b) == writer_in(a),
        writer_in(a) is None ==> writer_in(a + b) == writer_in(b),
        n.writes ==> writer_in(seq![n]) == Some(n.operator@) && write_path_of(seq![n]) == n.operator@,
        !n.writes ==> writer_in(seq![n]) == writer_in(n.children@),
    decreases b.len(),
{
    let one = seq![n];
    assert(one.drop_last() =~= Seq::<PlanNode>::empty());
    assert(write_time_in(one.drop_last()) is None);
    assert(writer_in(one.drop_last()) is None);
    assert(one.last() == n);
    assert(write_time_in(one) == write_time_at(n));
    assert(writer_in(one) == writer_at(n));
    if b.len() == 0 {
        assert(a + b =~= a);
    } else {
        the_first_writer_counts(a, b.drop_last(), n);
        assert((a + b).drop_last() =~= a + b.drop_last());
        assert((a + b).last() == b.last());
    }
}

/// What was written is as wide as a row of the first operator that does not
/// itself write.
pub proof fn a_payload_is_what_the_writer_takes_in(
    ops: Rates,
    total: OperatorSamples,
    a: Seq<PlanNode>,
    b: Seq<PlanNode>,
    n: PlanNode,
)
    ensures
        payload_in(ops, total, a) is Some ==> payload_in(ops, total, a + b) == payload_in(ops, total, a),
        payload_in(ops, total, a) is None ==> payload_in(ops, total, a + b) == payload_in(ops, total, b),
        n.writes ==> payload_in(ops, total, seq![n]) == payload_in(ops, total, n.children@),
        !n.writes ==> payload_in(ops, total, seq![n]) == width_for(ops, total, n),
    decreases b.len(),
{
    let one = seq![n];
    assert(one.drop_last() =~= Seq::<PlanNode>::empty());
    assert(payload_in(ops, total, one.drop_last()) is None);
    assert(one.last() == n);
    assert(payload_in(ops, total, one) == payload_at(ops, total, n));
    if b.len() == 0 {
        assert(a + b =~= a);
    } else {
        a_payload_is_what_the_writer_takes_in(ops, total, a, b.drop_last(), n);
        assert((a + b).drop_last() =~= a + b.drop_last());
        assert((a + b).last() == b.last());
    }
}

/// A row is as wide as the plan says; where it does not say, as wide as rows of
/// that kind of operator were, and else as wide as all rows were.
pub proof fn a_row_is_as_wide_as_is_known_of_it(ops: Rates, total: OperatorSamples, n: PlanNode, w: u64)
    ensures
        n.row_width == Some(w) && 0 < w * 1000 <= u64::MAX ==> width_for(ops, total, n) == Some((w * 1000) as u64),
        n.row_width is None && mean_width(known(ops, n.cost_key@)) is Some ==> width_for(ops, total, n) == mean_width(
            known(ops, n.cost_key@),
        ),
        n.row_width is None && mean_width(known(ops, n.cost_key@)) is None ==> width_for(ops, total, n) == mean_width(
            total,
        ),
        n.row_width == Some(0u64) ==> width_for(ops, total, n) == width_for(
            ops,
            total,
            PlanNode { row_width: None, ..n },
        ),
{
}

} // verus!
