//! Query plans as the engine reports them: trees of operators, and what a
//! region of one is worth.

use vstd::prelude::*;

use crate::text::{text_eq, Text};

verus! {

/// One operator of a plan, with what lies below it.
#[derive(Debug)]
pub struct PlanNode {
    pub operator: String,
    /// The kind of operator that its cost is learned under: its name, with the
    /// functions it computes where it aggregates.
    pub cost_key: String,
    /// The base relation that it scans, where it scans one.
    pub relation: Option<String>,
    /// The name of the common table expression whose body it is the root of.
    pub subplan: Option<String>,
    /// Whether it writes its input out. Such an operator's own output is a
    /// count of what it wrote.
    pub writes: bool,
    /// Whether it makes fewer rows of many.
    pub aggregates: bool,
    /// Its own time, in nanoseconds, where the plan was executed.
    pub exclusive_time: Option<u64>,
    /// The whole statement's time, in nanoseconds, where it was reported.
    pub statement_time: Option<u64>,
    /// The rows it emitted, where the plan was executed.
    pub cardinality: Option<u64>,
    /// The rows it was estimated to emit.
    pub estimated_cardinality: Option<u64>,
    /// The rows it scanned, where that was reported.
    pub rows_scanned: Option<u64>,
    /// The bytes of one of its output rows, where they were reported.
    pub row_width: Option<u64>,
    pub children: Vec<PlanNode>,
}

/// The rows an operator emits: as measured, or else as estimated.
pub open spec fn rows_of(n: PlanNode) -> Option<u64> {
    match n.cardinality {
        Some(c) => Some(c),
        None => n.estimated_cardinality,
    }
}

impl PlanNode {
    /// The rows the operator emits: as measured, or else as estimated.
    pub fn rows(&self) -> (r: Option<u64>)
        ensures
            r == rows_of(*self),
    {
        match self.cardinality {
            Some(c) => Some(c),
            None => self.estimated_cardinality,
        }
    }
}

/// `x`, or the largest machine number where `x` is larger.
pub open spec fn cap64(x: nat) -> u64 {
    if x <= u64::MAX {
        x as u64
    } else {
        u64::MAX
    }
}

/// The sum of `a` and `b`, or the largest machine number where that is larger.
pub fn add_capped(a: u64, b: u64) -> (r: u64)
    ensures
        r == cap64((a + b) as nat),
{
    if a <= u64::MAX - b {
        a + b
    } else {
        u64::MAX
    }
}

/// The first operator, in the order of the listing and each before what lies
/// below it, that is the root of the common table expression `name`.
pub open spec fn subplan_in(roots: Seq<PlanNode>, name: Text) -> Option<PlanNode>
    decreases roots, roots.len(),
{
    if roots.len() == 0 {
        None
    } else {
        match subplan_in(roots.drop_last(), name) {
            Some(n) => Some(n),
            None => subplan_at(roots.last(), name),
        }
    }
}

/// The operator itself, or the first below it, that is the root of the common
/// table expression `name`.
pub open spec fn subplan_at(n: PlanNode, name: Text) -> Option<PlanNode>
    decreases n,
{
    if n.subplan matches Some(s) && s@ == name {
        Some(n)
    } else {
        subplan_in(n.children@, name)
    }
}

/// The operator itself, or the first below it, that is the root of the common
/// table expression `name`.
fn subplan_below<'a>(n: &'a PlanNode, name: &str) -> (r: Option<&'a PlanNode>)
    ensures
        match r {
            Some(p) => subplan_at(*n, name@) == Some(*p),
            None => subplan_at(*n, name@) is None,
        },
    decreases n,
{
    if let Some(s) = &n.subplan {
        if text_eq(s.as_str(), name) {
            return Some(n);
        }
    }
    let mut i: usize = 0;
    while i < n.children.len()
        invariant
            i <= n.children@.len(),
            subplan_in(n.children@.take(i as int), name@) is None,
            !(n.subplan matches Some(s) && s@ == name@),
        decreases n.children@.len() - i,
    {
        proof {
            let t = n.children@.take(i + 1);
            assert(t.drop_last() =~= n.children@.take(i as int));
            assert(t.last() == n.children@[i as int]);
        }
        let found = subplan_below(&n.children[i], name);
        if let Some(p) = found {
            proof {
                subplan_extends(n.children@, name@, i + 1);
            }
            return Some(p);
        }
        i = i + 1;
    }
    proof {
        assert(n.children@.take(n.children@.len() as int) =~= n.children@);
    }
    None
}

/// What is found among the first operators is what is found.
proof fn subplan_extends(roots: Seq<PlanNode>, name: Text, k: int)
    requires
        0 <= k <= roots.len(),
        subplan_in(roots.take(k), name) is Some,
    ensures
        subplan_in(roots, name) == subplan_in(roots.take(k), name),
    decreases roots.len() - k,
{
    if k < roots.len() {
        let t = roots.take(k + 1);
        assert(t.drop_last() =~= roots.take(k));
        subplan_extends(roots, name, k + 1);
    } else {
        assert(roots.take(k) =~= roots);
    }
}

/// The root of the common table expression `name` in a plan.
pub fn find_subplan<'a>(roots: &'a Vec<PlanNode>, name: &str) -> (r: Option<&'a PlanNode>)
    ensures
        match r {
            Some(p) => subplan_in(roots@, name@) == Some(*p),
            None => subplan_in(roots@, name@) is None,
        },
{
    let mut i: usize = 0;
    while i < roots.len()
        invariant
            i <= roots@.len(),
            subplan_in(roots@.take(i as int), name@) is None,
        decreases roots@.len() - i,
    {
        proof {
            let t = roots@.take(i + 1);
            assert(t.drop_last() =~= roots@.take(i as int));
            assert(t.last() == roots@[i as int]);
        }
        if let Some(p) = subplan_below(&roots[i], name) {
            proof {
                subplan_extends(roots@, name@, i + 1);
            }
            return Some(p);
        }
        i = i + 1;
    }
    proof {
        assert(roots@.take(roots@.len() as int) =~= roots@);
    }
    None
}

/// The rows that the operators of a plan emit together, and how many operators
/// that counts. Operators that write, and those that say nothing of their
/// rows, do not count.
pub open spec fn rows_in(roots: Seq<PlanNode>) -> (nat, nat)
    decreases roots, roots.len(),
{
    if roots.len() == 0 {
        (0, 0)
    } else {
        let (a, b) = rows_in(roots.drop_last());
        let (c, d) = rows_at(roots.last());
        (a + c, b + d)
    }
}

/// The rows that the operator and those below it emit together, and how many
/// operators that counts.
pub open spec fn rows_at(n: PlanNode) -> (nat, nat)
    decreases n,
{
    let (a, b) = rows_in(n.children@);
    if n.writes || rows_of(n) is None {
        (a, b)
    } else {
        (a + rows_of(n)->Some_0 as nat, b + 1)
    }
}

/// How many operators of a plan do not write.
pub open spec fn operators_in(roots: Seq<PlanNode>) -> nat
    decreases roots, roots.len(),
{
    if roots.len() == 0 {
        0
    } else {
        operators_in(roots.drop_last()) + operators_at(roots.last())
    }
}

/// How many of the operator and those below it do not write.
pub open spec fn operators_at(n: PlanNode) -> nat
    decreases n,
{
    operators_in(n.children@) + if n.writes {
        0nat
    } else {
        1
    }
}

/// The rows that the operator and those below it emit together, and whether
/// that counts any operator.
fn sum_rows(n: &PlanNode) -> (r: (u64, bool))
    ensures
        r.0 == cap64(rows_at(*n).0),
        r.1 == (rows_at(*n).1 > 0),
    decreases n,
{
    let mut total: u64 = 0;
    let mut any = false;
    let mut i: usize = 0;
    while i < n.children.len()
        invariant
            i <= n.children@.len(),
            total == cap64(rows_in(n.children@.take(i as int)).0),
            any == (rows_in(n.children@.take(i as int)).1 > 0),
        decreases n.children@.len() - i,
    {
        proof {
            let t = n.children@.take(i + 1);
            assert(t.drop_last() =~= n.children@.take(i as int));
            assert(t.last() == n.children@[i as int]);
        }
        let (more, some) = sum_rows(&n.children[i]);
        total = add_capped(total, more);
        any = any || some;
        i = i + 1;
    }
    proof {
        assert(n.children@.take(n.children@.len() as int) =~= n.children@);
    }
    if !n.writes {
        if let Some(rows) = n.rows() {
            total = add_capped(total, rows);
            any = true;
        }
    }
    (total, any)
}

/// How many of the operator and those below it do not write, or the largest
/// machine number where that is more.
fn count_operators(n: &PlanNode) -> (r: u64)
    ensures
        r == cap64(operators_at(*n)),
    decreases n,
{
    let mut total: u64 = 0;
    let mut i: usize = 0;
    while i < n.children.len()
        invariant
            i <= n.children@.len(),
            total == cap64(operators_in(n.children@.take(i as int))),
        decreases n.children@.len() - i,
    {
        proof {
            let t = n.children@.take(i + 1);
            assert(t.drop_last() =~= n.children@.take(i as int));
            assert(t.last() == n.children@[i as int]);
        }
        total = add_capped(total, count_operators(&n.children[i]));
        i = i + 1;
    }
    proof {
        assert(n.children@.take(n.children@.len() as int) =~= n.children@);
    }
    if !n.writes {
        total = add_capped(total, 1);
    }
    total
}

/// The rows that a plan moves: every operator's output, summed. None where no
/// operator says how many.
pub open spec fn cardinality_cost(roots: Seq<PlanNode>) -> Option<u64> {
    if rows_in(roots).1 > 0 {
        Some(cap64(rows_in(roots).0))
    } else {
        None
    }
}

/// The operators of a plan, counted. None where there is none.
pub open spec fn operator_cost(roots: Seq<PlanNode>) -> Option<u64> {
    if operators_in(roots) > 0 {
        Some(cap64(operators_in(roots)))
    } else {
        None
    }
}

/// Prices a plan in the rows it moves.
pub fn cost_in_rows(roots: &Vec<PlanNode>) -> (r: Option<u64>)
    ensures
        r == cardinality_cost(roots@),
{
    let mut total: u64 = 0;
    let mut any = false;
    let mut i: usize = 0;
    while i < roots.len()
        invariant
            i <= roots@.len(),
            total == cap64(rows_in(roots@.take(i as int)).0),
            any == (rows_in(roots@.take(i as int)).1 > 0),
        decreases roots@.len() - i,
    {
        proof {
            let t = roots@.take(i + 1);
            assert(t.drop_last() =~= roots@.take(i as int));
            assert(t.last() == roots@[i as int]);
        }
        let (more, some) = sum_rows(&roots[i]);
        total = add_capped(total, more);
        any = any || some;
        i = i + 1;
    }
    proof {
        assert(roots@.take(roots@.len() as int) =~= roots@);
    }
    if any {
        Some(total)
    } else {
        None
    }
}

/// Prices a plan in operators.
pub fn cost_in_operators(roots: &Vec<PlanNode>) -> (r: Option<u64>)
    ensures
        r == operator_cost(roots@),
{
    let mut total: u64 = 0;
    let mut i: usize = 0;
    while i < roots.len()
        invariant
            i <= roots@.len(),
            total == cap64(operators_in(roots@.take(i as int))),
        decreases roots@.len() - i,
    {
        proof {
            let t = roots@.take(i + 1);
            assert(t.drop_last() =~= roots@.take(i as int));
            assert(t.last() == roots@[i as int]);
        }
        total = add_capped(total, count_operators(&roots[i]));
        i = i + 1;
    }
    proof {
        assert(roots@.take(roots@.len() as int) =~= roots@);
    }
    if total > 0 {
        Some(total)
    } else {
        None
    }
}

/// Prices one operator and what lies below it in the rows it moves.
pub fn region_in_rows(n: &PlanNode) -> (r: Option<u64>)
    ensures
        r == cardinality_cost(seq![*n]),
{
    let (total, any) = sum_rows(n);
    proof {
        assert(seq![*n].drop_last() =~= Seq::<PlanNode>::empty());
        assert(rows_in(Seq::<PlanNode>::empty()) == (0nat, 0nat));
        assert(seq![*n].last() == *n);
    }
    if any {
        Some(total)
    } else {
        None
    }
}

/// Prices one operator and what lies below it in operators.
pub fn region_in_operators(n: &PlanNode) -> (r: Option<u64>)
    ensures
        r == operator_cost(seq![*n]),
{
    let total = count_operators(n);
    proof {
        assert(seq![*n].drop_last() =~= Seq::<PlanNode>::empty());
        assert(operators_in(Seq::<PlanNode>::empty()) == 0);
        assert(seq![*n].last() == *n);
    }
    if total > 0 {
        Some(total)
    } else {
        None
    }
}

/// Every operator that emits counts: two plans together move what each moves,
/// and a tree what its root emits and what lies below it. An operator that
/// writes, or says nothing of its rows, adds nothing.
pub proof fn every_operator_moves_its_rows(a: Seq<PlanNode>, b: Seq<PlanNode>, n: PlanNode)
    ensures
        cardinality_cost(a) is Some && cardinality_cost(b) is Some && cardinality_cost(a)->0 + cardinality_cost(b)->0
            < u64::MAX ==> cardinality_cost(a + b) is Some && cardinality_cost(a + b)->0 == cardinality_cost(a)->0
            + cardinality_cost(b)->0,
        cardinality_cost(a) is None ==> cardinality_cost(a + b) == cardinality_cost(b),
        cardinality_cost(b) is None ==> cardinality_cost(a + b) == cardinality_cost(a),
        n.children@.len() == 0 ==> cardinality_cost(seq![n]) == (if n.writes {
            None
        } else {
            rows_of(n)
        }),
        n.writes || rows_of(n) is None ==> cardinality_cost(seq![n]) == cardinality_cost(n.children@),
        !n.writes && rows_of(n) is Some && cardinality_cost(n.children@) is Some && cardinality_cost(n.children@)->0 + rows_of(
            n,
        )->0 < u64::MAX ==> cardinality_cost(seq![n]) is Some && cardinality_cost(seq![n])->0 == cardinality_cost(
            n.children@,
        )->0 + rows_of(n)->0,
        rows_of(n) == (if n.cardinality is Some {
            n.cardinality
        } else {
            n.estimated_cardinality
        }),
{
    rows_append(a, b);
    rowless_is_nothing(a);
    rowless_is_nothing(b);
    rowless_is_nothing(n.children@);
    assert(seq![n].drop_last() =~= Seq::<PlanNode>::empty());
    assert(seq![n].last() == n);
    assert(rows_in(Seq::<PlanNode>::empty()) == (0nat, 0nat));
    assert(rows_in(seq![n]) == rows_at(n));
    if n.children@.len() == 0 {
        assert(n.children@ =~= Seq::<PlanNode>::empty());
    }
}

proof fn rows_append(a: Seq<PlanNode>, b: Seq<PlanNode>)
    ensures
        rows_in(a + b).0 == rows_in(a).0 + rows_in(b).0,
        rows_in(a + b).1 == rows_in(a).1 + rows_in(b).1,
        operators_in(a + b) == operators_in(a) + operators_in(b),
    decreases b.len(),
{
    if b.len() == 0 {
        assert(a + b =~= a);
    } else {
        rows_append(a, b.drop_last());
        assert((a + b).drop_last() =~= a + b.drop_last());
        assert((a + b).last() == b.last());
    }
}

proof fn rowless_is_nothing(roots: Seq<PlanNode>)
    ensures
        rows_in(roots).1 == 0 ==> rows_in(roots).0 == 0,
    decreases roots, roots.len(),
{
    if roots.len() > 0 {
        rowless_is_nothing(roots.drop_last());
        rowless_tree(roots.last());
    }
}

proof fn rowless_tree(n: PlanNode)
    ensures
        rows_at(n).1 == 0 ==> rows_at(n).0 == 0,
    decreases n,
{
    rowless_is_nothing(n.children@);
}

/// Every operator that does not write is counted, once.
pub proof fn every_operator_is_counted(a: Seq<PlanNode>, b: Seq<PlanNode>, n: PlanNode)
    ensures
        operators_in(a + b) == operators_in(a) + operators_in(b),
        operators_in(seq![n]) == operators_in(n.children@) + (if n.writes {
            0int
        } else {
            1
        }),
        operators_in(Seq::<PlanNode>::empty()) == 0,
        operator_cost(a) is None <==> operators_in(a) == 0,
        operator_cost(a) is Some && operators_in(a) <= u64::MAX ==> operator_cost(a)->0 == operators_in(a),
{
    rows_append(a, b);
    assert(seq![n].drop_last() =~= Seq::<PlanNode>::empty());
    assert(operators_in(Seq::<PlanNode>::empty()) == 0);
    assert(operators_in(seq![n]) == operators_at(n));
}

/// What is found under a name bears that name, and the first in the order of
/// the listing is found, an operator before what lies below it.
pub proof fn the_first_of_a_name_is_found(a: Seq<PlanNode>, b: Seq<PlanNode>, n: PlanNode, name: Text)
    ensures
        subplan_in(a + b, name) == (if subplan_in(a, name) is Some {
            subplan_in(a, name)
        } else {
            subplan_in(b, name)
        }),
        n.subplan is Some && n.subplan->0@ == name ==> subplan_in(seq![n], name) == Some(n),
        n.subplan is None || n.subplan->0@ != name ==> subplan_in(seq![n], name) == subplan_in(n.children@, name),
        subplan_in(a, name) is Some ==> subplan_in(a, name)->0.subplan is Some && subplan_in(a, name)->0.subplan->0@ == name,
        subplan_in(Seq::<PlanNode>::empty(), name) is None,
    decreases b.len(),
{
    bears_the_name(a, name);
    assert(seq![n].drop_last() =~= Seq::<PlanNode>::empty());
    assert(seq![n].last() == n);
    assert(subplan_in(Seq::<PlanNode>::empty(), name) is None);
    assert(subplan_in(seq![n], name) == subplan_at(n, name));
    if b.len() == 0 {
        assert(a + b =~= a);
        assert(b =~= Seq::<PlanNode>::empty());
    } else {
        the_first_of_a_name_is_found(a, b.drop_last(), n, name);
        assert((a + b).drop_last() =~= a + b.drop_last());
        assert((a + b).last() == b.last());
    }
}

proof fn bears_the_name(roots: Seq<PlanNode>, name: Text)
    ensures
        subplan_in(roots, name) is Some ==> subplan_in(roots, name)->0.subplan is Some && subplan_in(roots, name)->0.subplan->0@
            == name,
    decreases roots, roots.len(),
{
    if roots.len() > 0 {
        bears_the_name(roots.drop_last(), name);
        tree_bears_the_name(roots.last(), name);
    }
}

proof fn tree_bears_the_name(n: PlanNode, name: Text)
    ensures
        subplan_at(n, name) is Some ==> subplan_at(n, name)->0.subplan is Some && subplan_at(n, name)->0.subplan->0@ == name,
    decreases n,
{
    bears_the_name(n.children@, name);
}

/// A sum that fits is the sum; one that does not is the largest number.
pub proof fn a_cap_only_caps(x: nat)
    ensures
        x <= u64::MAX ==> cap64(x) == x,
        x > u64::MAX ==> cap64(x) == u64::MAX,
{
}

} // verus!
