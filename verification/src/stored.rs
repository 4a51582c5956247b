//! A cost model as it is kept between runs.

use vstd::prelude::*;

use crate::learned::{CostBasis, LearnedCostModel, LearnedModel, OperatorSamples, WriteSamples};
use crate::table::TextMap;
use crate::text::Text;

verus! {

/// What is kept of one kind of operator.
#[derive(Debug)]
pub struct StoredOperator {
    pub key: String,
    pub samples: OperatorSamples,
}

/// The rate at which one relation was written.
#[derive(Debug)]
pub struct StoredRate {
    pub relation: String,
    pub rate: u64,
}

/// What is kept of one write path.
#[derive(Debug)]
pub struct StoredPath {
    pub path: String,
    pub rates: Vec<StoredRate>,
}

/// What is kept of a cost model.
#[derive(Debug)]
pub struct StoredModel {
    pub operators: Vec<StoredOperator>,
    pub paths: Vec<StoredPath>,
    pub basis: CostBasis,
}

/// What the first `n` entries keep of operators; the last entry for a kind of
/// operator counts.
pub open spec fn kept_operators(list: Seq<StoredOperator>, n: nat) -> Map<Text, OperatorSamples>
    decreases n,
{
    if n == 0 {
        Map::empty()
    } else {
        kept_operators(list, (n - 1) as nat).insert(list[n - 1].key@, list[n - 1].samples)
    }
}

/// What the first `n` entries keep of rates.
pub open spec fn kept_rates(list: Seq<StoredRate>, n: nat) -> Map<Text, u64>
    decreases n,
{
    if n == 0 {
        Map::empty()
    } else {
        kept_rates(list, (n - 1) as nat).insert(list[n - 1].relation@, list[n - 1].rate)
    }
}

/// What the first `n` entries keep of write paths.
pub open spec fn kept_paths(list: Seq<StoredPath>, n: nat) -> Map<Text, Map<Text, u64>>
    decreases n,
{
    if n == 0 {
        Map::empty()
    } else {
        kept_paths(list, (n - 1) as nat).insert(list[n - 1].path@, kept_rates(list[n - 1].rates@, list[n - 1].rates@.len()))
    }
}

/// The model that was kept.
pub open spec fn kept_model(s: StoredModel) -> LearnedModel {
    LearnedModel {
        ops: kept_operators(s.operators@, s.operators@.len()),
        writes: kept_paths(s.paths@, s.paths@.len()),
        basis: s.basis,
    }
}

/// A longer list keeps the same of its first entries.
proof fn operators_alike(a: Seq<StoredOperator>, b: Seq<StoredOperator>, n: nat)
    requires
        n <= a.len(),
        n <= b.len(),
        forall|i: int| 0 <= i < n ==> a[i] == b[i],
    ensures
        kept_operators(a, n) == kept_operators(b, n),
    decreases n,
{
    if n > 0 {
        operators_alike(a, b, (n - 1) as nat);
    }
}

proof fn rates_alike(a: Seq<StoredRate>, b: Seq<StoredRate>, n: nat)
    requires
        n <= a.len(),
        n <= b.len(),
        forall|i: int| 0 <= i < n ==> a[i] == b[i],
    ensures
        kept_rates(a, n) == kept_rates(b, n),
    decreases n,
{
    if n > 0 {
        rates_alike(a, b, (n - 1) as nat);
    }
}

proof fn paths_alike(a: Seq<StoredPath>, b: Seq<StoredPath>, n: nat)
    requires
        n <= a.len(),
        n <= b.len(),
        forall|i: int| 0 <= i < n ==> a[i] == b[i],
    ensures
        kept_paths(a, n) == kept_paths(b, n),
    decreases n,
{
    if n > 0 {
        paths_alike(a, b, (n - 1) as nat);
    }
}

/// `m` is `whole`, as far as the first `n` of `keys` go.
pub open spec fn begins<V>(m: Map<Text, V>, whole: Map<Text, V>, keys: Seq<Text>, n: nat) -> bool {
    &&& forall|k: Text| #[trigger] m.contains_key(k) <==> keys.take(n as int).contains(k)
    &&& forall|k: Text| #[trigger] m.contains_key(k) ==> m[k] == whole[k]
}

proof fn begins_further<V>(m: Map<Text, V>, whole: Map<Text, V>, keys: Seq<Text>, n: nat)
    requires
        begins(m, whole, keys, n),
        n < keys.len(),
    ensures
        begins(m.insert(keys[n as int], whole[keys[n as int]]), whole, keys, n + 1),
{
    let after = m.insert(keys[n as int], whole[keys[n as int]]);
    let before = keys.take(n as int);
    let longer = keys.take(n as int + 1);
    assert(longer =~= before.push(keys[n as int]));
    assert forall|k: Text| #[trigger] after.contains_key(k) <==> longer.contains(k) by {
        if longer.contains(k) {
            let i = choose|i: int| 0 <= i < longer.len() && longer[i] == k;
            if i < n {
                assert(before[i] == k);
            }
        }
        if before.contains(k) {
            let i = choose|i: int| 0 <= i < before.len() && before[i] == k;
            assert(longer[i] == k);
        }
        assert(longer[n as int] == keys[n as int]);
    }
}

proof fn begins_whole<V>(m: Map<Text, V>, whole: Map<Text, V>, keys: Seq<Text>)
    requires
        begins(m, whole, keys, keys.len()),
        forall|key: Text| keys.contains(key) <==> #[trigger] whole.contains_key(key),
    ensures
        m == whole,
{
    assert(keys.take(keys.len() as int) =~= keys);
    assert(m =~= whole);
}

fn store_rates(w: &WriteSamples) -> (r: Vec<StoredRate>)
    requires
        w.wf(),
    ensures
        kept_rates(r@, r@.len()) == w@,
{
    let rates = w.rates();
    let count: usize = rates.len();
    let ghost keys = rates.keys();
    let mut out: Vec<StoredRate> = Vec::new();
    let mut i: usize = 0;
    while i < count
        invariant
            rates.wf(),
            keys == rates.keys(),
            i <= count == keys.len(),
            out@.len() == i,
            begins(kept_rates(out@, i as nat), rates@, keys, i as nat),
        decreases count - i,
    {
        let ghost had = out@;
        out.push(StoredRate { relation: rates.key_at(i).clone(), rate: *rates.value_at(i) });
        proof {
            rates_alike(out@, had, i as nat);
            begins_further(kept_rates(had, i as nat), rates@, keys, i as nat);
        }
        i = i + 1;
    }
    proof {
        rates.keys_are_the_domain();
        begins_whole(kept_rates(out@, i as nat), rates@, keys);
    }
    out
}

fn restore_rates(list: &Vec<StoredRate>) -> (r: WriteSamples)
    ensures
        r.wf(),
        r@ == kept_rates(list@, list@.len()),
{
    let mut out = WriteSamples::new();
    let mut i: usize = 0;
    while i < list.len()
        invariant
            i <= list@.len(),
            out.wf(),
            out@ == kept_rates(list@, i as nat),
        decreases list@.len() - i,
    {
        out.observe(list[i].relation.as_str(), list[i].rate);
        i = i + 1;
    }
    out
}

impl LearnedCostModel {
    /// What to keep of the model. Restoring it gives the model back.
    pub fn store(&self) -> (r: StoredModel)
        requires
            self.wf(),
        ensures
            kept_model(r) == self@,
    {
        let (ops, writes, basis) = self.parts();
        let mut operators: Vec<StoredOperator> = Vec::new();
        let count: usize = ops.len();
        let ghost keys = ops.keys();
        let mut i: usize = 0;
        while i < count
            invariant
                ops.wf(),
                keys == ops.keys(),
                i <= count == keys.len(),
                operators@.len() == i,
                begins(kept_operators(operators@, i as nat), ops@, keys, i as nat),
            decreases count - i,
        {
            let ghost had = operators@;
            operators.push(StoredOperator { key: ops.key_at(i).clone(), samples: *ops.value_at(i) });
            proof {
                operators_alike(operators@, had, i as nat);
                begins_further(kept_operators(had, i as nat), ops@, keys, i as nat);
            }
            i = i + 1;
        }
        proof {
            ops.keys_are_the_domain();
            begins_whole(kept_operators(operators@, i as nat), ops@, keys);
        }
        let mut paths: Vec<StoredPath> = Vec::new();
        let many: usize = writes.len();
        let ghost names = writes.keys();
        let ghost whole = writes@.map_values(|w: WriteSamples| w@);
        proof {
            writes.keys_are_the_domain();
        }
        let mut j: usize = 0;
        while j < many
            invariant
                writes.wf(),
                forall|p: Text| #[trigger] writes@.contains_key(p) ==> writes@[p].wf(),
                names == writes.keys(),
                forall|key: Text| names.contains(key) <==> #[trigger] writes@.contains_key(key),
                whole == writes@.map_values(|w: WriteSamples| w@),
                j <= many == names.len(),
                paths@.len() == j,
                begins(kept_paths(paths@, j as nat), whole, names, j as nat),
            decreases many - j,
        {
            let ghost had = paths@;
            let path = writes.key_at(j).clone();
            let rates = store_rates(writes.value_at(j));
            proof {
                assert(whole[names[j as int]] == kept_rates(rates@, rates@.len()));
            }
            paths.push(StoredPath { path, rates });
            proof {
                paths_alike(paths@, had, j as nat);
                begins_further(kept_paths(had, j as nat), whole, names, j as nat);
            }
            j = j + 1;
        }
        proof {
            assert forall|key: Text| names.contains(key) <==> #[trigger] whole.contains_key(key) by {
                assert(whole.contains_key(key) == writes@.contains_key(key));
            }
            begins_whole(kept_paths(paths@, j as nat), whole, names);
        }
        StoredModel { operators, paths, basis }
    }

    /// The model that was kept.
    pub fn restore(s: &StoredModel) -> (r: LearnedCostModel)
        ensures
            r.wf(),
            r@ == kept_model(*s),
    {
        let mut ops: TextMap<OperatorSamples> = TextMap::new();
        let mut i: usize = 0;
        while i < s.operators.len()
            invariant
                i <= s.operators@.len(),
                ops.wf(),
                ops@ == kept_operators(s.operators@, i as nat),
            decreases s.operators@.len() - i,
        {
            ops.insert(s.operators[i].key.as_str(), s.operators[i].samples);
            i = i + 1;
        }
        let mut writes: TextMap<WriteSamples> = TextMap::new();
        let mut j: usize = 0;
        proof {
            assert(writes@.map_values(|w: WriteSamples| w@) =~= kept_paths(s.paths@, 0));
        }
        while j < s.paths.len()
            invariant
                j <= s.paths@.len(),
                writes.wf(),
                forall|p: Text| #[trigger] writes@.contains_key(p) ==> writes@[p].wf(),
                writes@.map_values(|w: WriteSamples| w@) == kept_paths(s.paths@, j as nat),
            decreases s.paths@.len() - j,
        {
            let ghost had = writes@;
            let rates = restore_rates(&s.paths[j].rates);
            let ghost path = s.paths@[j as int].path@;
            let ghost kept = rates;
            writes.insert(s.paths[j].path.as_str(), rates);
            proof {
                assert(writes@.map_values(|w: WriteSamples| w@) =~= had.map_values(|w: WriteSamples| w@).insert(path, kept@));
            }
            j = j + 1;
        }
        LearnedCostModel::of(ops, writes, s.basis)
    }
}

/// Everything that was written down is kept: of a kind of operator and of a
/// relation the last entry counts, and a path keeps all of its relations.
pub proof fn every_entry_is_kept(
    operators: Seq<StoredOperator>,
    o: StoredOperator,
    rates: Seq<StoredRate>,
    r: StoredRate,
    paths: Seq<StoredPath>,
    p: StoredPath,
    key: Text,
)
    ensures
        kept_operators(operators.push(o), operators.len() + 1)[o.key@] == o.samples,
        kept_operators(operators.push(o), operators.len() + 1).dom() == kept_operators(operators, operators.len()).dom().insert(
            o.key@,
        ),
        key != o.key@ && kept_operators(operators, operators.len()).contains_key(key) ==> kept_operators(
            operators.push(o),
            operators.len() + 1,
        )[key] == kept_operators(operators, operators.len())[key],
        kept_rates(rates.push(r), rates.len() + 1)[r.relation@] == r.rate,
        kept_rates(rates.push(r), rates.len() + 1).dom() == kept_rates(rates, rates.len()).dom().insert(r.relation@),
        key != r.relation@ && kept_rates(rates, rates.len()).contains_key(key) ==> kept_rates(rates.push(r), rates.len() + 1)[key]
            == kept_rates(rates, rates.len())[key],
        kept_paths(paths.push(p), paths.len() + 1)[p.path@] == kept_rates(p.rates@, p.rates@.len()),
        key != p.path@ && kept_paths(paths, paths.len()).contains_key(key) ==> kept_paths(paths.push(p), paths.len() + 1)[key]
            == kept_paths(paths, paths.len())[key],
{
    entries_taken(operators, operators.push(o), operators.len());
    rates_taken(rates, rates.push(r), rates.len());
    paths_taken(paths, paths.push(p), paths.len());
    assert(operators.push(o)[operators.len() as int] == o);
    assert(rates.push(r)[rates.len() as int] == r);
    assert(paths.push(p)[paths.len() as int] == p);
    assert(kept_operators(operators.push(o), operators.len() + 1).dom() =~= kept_operators(operators, operators.len()).dom().insert(
        o.key@,
    ));
    assert(kept_rates(rates.push(r), rates.len() + 1).dom() =~= kept_rates(rates, rates.len()).dom().insert(r.relation@));
}

proof fn entries_taken(a: Seq<StoredOperator>, b: Seq<StoredOperator>, n: nat)
    requires
        n <= a.len(),
        n <= b.len(),
        forall|i: int| 0 <= i < n ==> a[i] == b[i],
    ensures
        kept_operators(a, n) == kept_operators(b, n),
    decreases n,
{
    if n > 0 {
        entries_taken(a, b, (n - 1) as nat);
    }
}

proof fn rates_taken(a: Seq<StoredRate>, b: Seq<StoredRate>, n: nat)
    requires
        n <= a.len(),
        n <= b.len(),
        forall|i: int| 0 <= i < n ==> a[i] == b[i],
    ensures
        kept_rates(a, n) == kept_rates(b, n),
    decreases n,
{
    if n > 0 {
        rates_taken(a, b, (n - 1) as nat);
    }
}

proof fn paths_taken(a: Seq<StoredPath>, b: Seq<StoredPath>, n: nat)
    requires
        n <= a.len(),
        n <= b.len(),
        forall|i: int| 0 <= i < n ==> a[i] == b[i],
    ensures
        kept_paths(a, n) == kept_paths(b, n),
    decreases n,
{
    if n > 0 {
        paths_taken(a, b, (n - 1) as nat);
    }
}

} // verus!
