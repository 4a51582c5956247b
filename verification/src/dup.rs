//! What a View costs by not being a table.
//!
//! The Views of a set are inlined into each consumer's query as materialized
//! common table expressions, the engine plans those queries, and the regions
//! of the plans that compute the Views are priced. Every consumer computes the
//! Views; one computation would survive materializing them; the rest is the
//! duplicate.
//!
//! The engine is asked from outside: [`plan_duplicates`] says what to ask it,
//! and [`build_once_cost`] and [`duplicate_cost_set`] read the answers.

use vstd::prelude::*;
use vstd::string::*;

use crate::combo::{canonical, canonical_order};
use crate::common::{
    consumers_first, contracted, contracting_leaves_the_other_reads, inline_listed, is_transitive_dep, marked_from_last, stuck_at,
};
use crate::dag::{dedup, firsts, Dag, Graph, GraphModel, MaterializeMode, NodeModel};
use crate::learned::{is_total, payload_in, plan_cost, spool, spooled, write_priced, LearnedCostModel, OperatorSamples};
use crate::order::{list_of, listing, stably_sorted};
use crate::plan::{
    add_capped, cap64, cardinality_cost, cost_in_operators, cost_in_rows, find_subplan, operator_cost, region_in_operators,
    region_in_rows, subplan_in, PlanNode,
};
use crate::search::clamped;
use crate::sql::{
    dialect_for_db, named_dialect, renamings, rewrite_node_refs, rewritten_refs, text_in, unicode_lower,
    wrap_in_materialized_cte, wrapped_in_cte, Dialect, Renaming,
};
use crate::text::{
    chars_of, contains_text, copy_texts, decimal, decimal_text, joined, join, text_eq, texts, to_ascii_lower, ascii_lower, Text,
};
use crate::topo::grounded;
use crate::walk::{frontier, is_view, transitive_dep};

verus! {

/// How a plan region is turned into a number.
#[derive(Debug, Clone, Copy, PartialEq, Eq, Structural)]
pub enum SubtreeCostMethod {
    /// Nanoseconds, by rates fitted to executed plans.
    LearnedCost,
    /// The rows that the operators emit, summed.
    Cardinality,
    /// The operators, counted.
    Operators,
}

impl Default for SubtreeCostMethod {
    fn default() -> (r: SubtreeCostMethod)
        ensures
            r == SubtreeCostMethod::LearnedCost,
    {
        SubtreeCostMethod::LearnedCost
    }
}

/// The name of a method.
pub open spec fn method_name(m: SubtreeCostMethod) -> Text {
    match m {
        SubtreeCostMethod::LearnedCost => "learned_cost"@,
        SubtreeCostMethod::Cardinality => "cardinality"@,
        SubtreeCostMethod::Operators => "operators"@,
    }
}

/// The method that a lower-case name stands for.
pub open spec fn named_method(lower: Text) -> Option<SubtreeCostMethod> {
    if lower == "learned_cost"@ || lower == "learnedcost"@ {
        Some(SubtreeCostMethod::LearnedCost)
    } else if lower == "cardinality"@ || lower == "rows"@ {
        Some(SubtreeCostMethod::Cardinality)
    } else if lower == "operators"@ || lower == "operator_count"@ {
        Some(SubtreeCostMethod::Operators)
    } else {
        None
    }
}

/// What is said of a name that stands for no method.
pub open spec fn unknown_method(lower: Text) -> Text {
    "unknown subtree cost method '"@ + lower + "'; expected learned_cost, cardinality or operators"@
}

impl SubtreeCostMethod {
    /// The method's name.
    pub fn as_str(&self) -> (r: &'static str)
        ensures
            r@ == method_name(*self),
    {
        match self {
            SubtreeCostMethod::LearnedCost => "learned_cost",
            SubtreeCostMethod::Cardinality => "cardinality",
            SubtreeCostMethod::Operators => "operators",
        }
    }

    /// The method that `s` names, whatever the case of its letters.
    pub fn parse(s: &str) -> (r: Result<SubtreeCostMethod, String>)
        ensures
            match r {
                Ok(m) => named_method(ascii_lower(s@)) == Some(m),
                Err(message) => named_method(ascii_lower(s@)) is None && message@ == unknown_method(ascii_lower(s@)),
            },
    {
        let lower = to_ascii_lower(s);
        let l = lower.as_str();
        if text_eq(l, "learned_cost") || text_eq(l, "learnedcost") {
            Ok(SubtreeCostMethod::LearnedCost)
        } else if text_eq(l, "cardinality") || text_eq(l, "rows") {
            Ok(SubtreeCostMethod::Cardinality)
        } else if text_eq(l, "operators") || text_eq(l, "operator_count") {
            Ok(SubtreeCostMethod::Operators)
        } else {
            let mut message = "unknown subtree cost method '".to_owned();
            message.append(l);
            message.append("'; expected learned_cost, cardinality or operators");
            Err(message)
        }
    }

    /// The cost model that the method names.
    pub fn coster<'a>(&self, model: &'a LearnedCostModel) -> (r: Coster<'a>)
        ensures
            r == match *self {
                SubtreeCostMethod::LearnedCost => Coster::Learned(LearnedSubtreeCost(model)),
                SubtreeCostMethod::Cardinality => Coster::Rows(CardinalitySubtreeCost),
                SubtreeCostMethod::Operators => Coster::Count(OperatorCountSubtreeCost),
            },
    {
        match self {
            SubtreeCostMethod::LearnedCost => Coster::Learned(LearnedSubtreeCost(model)),
            SubtreeCostMethod::Cardinality => Coster::Rows(CardinalitySubtreeCost),
            SubtreeCostMethod::Operators => Coster::Count(OperatorCountSubtreeCost),
        }
    }
}

impl std::str::FromStr for SubtreeCostMethod {
    type Err = String;

    fn from_str(s: &str) -> (r: Result<SubtreeCostMethod, String>)
        ensures
            match r {
                Ok(m) => named_method(ascii_lower(s@)) == Some(m),
                Err(message) => named_method(ascii_lower(s@)) is None && message@ == unknown_method(ascii_lower(s@)),
            },
    {
        SubtreeCostMethod::parse(s)
    }
}

/// A method's name stands for the method.
pub proof fn method_name_round_trips(m: SubtreeCostMethod)
    ensures
        named_method(ascii_lower(method_name(m))) == Some(m),
{
    reveal_strlit("learned_cost");
    reveal_strlit("learnedcost");
    reveal_strlit("cardinality");
    reveal_strlit("rows");
    reveal_strlit("operators");
    reveal_strlit("operator_count");
    let name = method_name(m);
    assert(ascii_lower(name) =~= name);
    assert("cardinality"@[0] == 'c');
    assert("operators"@[0] == 'o');
    assert("learned_cost"@[0] == 'l');
    assert("learnedcost"@[0] == 'l');
    assert("rows"@[0] == 'r');
}

/// `r` is what spooling a region costs, at `factor` millionths of its write.
pub open spec fn spool_priced<C: SubtreeCost>(
    coster: &C,
    path: Text,
    region: PlanNode,
    rows: u64,
    factor: u64,
    r: Option<u64>,
) -> bool {
    if factor == 0 {
        r == Some(0u64)
    } else {
        exists|w: Option<u64>| #[trigger] coster.prices_write(path, seq![region], rows, w) && r == spooled(w, factor)
    }
}

/// What a region of a query plan is worth.
pub trait SubtreeCost {
    /// The model can be asked.
    spec fn ready(&self) -> bool;

    /// `r` is what the plan is worth: none where the model cannot price it at
    /// all, which is not a cost of zero.
    spec fn prices(&self, roots: Seq<PlanNode>, r: Option<u64>) -> bool;

    /// `r` is what writing `rows` rows of the plan's result through `path`
    /// costs: none where the model does not know.
    spec fn prices_write(&self, path: Text, roots: Seq<PlanNode>, rows: u64, r: Option<u64>) -> bool;

    /// What a whole plan is worth.
    fn cost(&self, roots: &Vec<PlanNode>) -> (r: Option<u64>)
        requires
            self.ready(),
        ensures
            self.prices(roots@, r),
    ;

    /// What one operator and those below it are worth.
    fn region_cost(&self, region: &PlanNode) -> (r: Option<u64>)
        requires
            self.ready(),
        ensures
            self.prices(seq![*region], r),
    ;

    /// What writing `rows` rows of a region's result through `path` costs.
    fn write_cost(&self, path: &str, region: &PlanNode, rows: u64) -> (r: Option<u64>)
        requires
            self.ready(),
        ensures
            self.prices_write(path@, seq![*region], rows, r),
    ;

    /// What spooling `rows` rows of a region's result costs, at `factor`
    /// millionths of its write. A model that cannot price a write cannot price a
    /// spool either.
    fn spool_cost(&self, path: &str, region: &PlanNode, rows: u64, factor: u64) -> (r: Option<u64>)
        requires
            self.ready(),
        ensures
            factor == 0 ==> r == Some(0u64),
            factor > 0 ==> exists|w: Option<u64>|
                #[trigger] self.prices_write(path@, seq![*region], rows, w) && r == spooled(w, factor),
    {
        if factor == 0 {
            return Some(0);
        }
        let w = self.write_cost(path, region, rows);
        let r = spool(w, factor);
        proof {
            assert(self.prices_write(path@, seq![*region], rows, w));
        }
        r
    }
}

/// Nanoseconds, by learned rates.
pub struct LearnedSubtreeCost<'a>(pub &'a LearnedCostModel);

impl<'a> SubtreeCost for LearnedSubtreeCost<'a> {
    open spec fn ready(&self) -> bool {
        self.0.wf()
    }

    open spec fn prices(&self, roots: Seq<PlanNode>, r: Option<u64>) -> bool {
        exists|total: OperatorSamples| #[trigger] is_total(self.0@.ops, total) && r == plan_cost(self.0@, total, roots)
    }

    open spec fn prices_write(&self, path: Text, roots: Seq<PlanNode>, rows: u64, r: Option<u64>) -> bool {
        exists|total: OperatorSamples|
            #[trigger] is_total(self.0@.ops, total) && write_priced(
                self.0@,
                path,
                payload_in(self.0@.ops, total, roots),
                rows,
                r,
            )
    }

    fn cost(&self, roots: &Vec<PlanNode>) -> (r: Option<u64>) {
        self.0.cost(roots)
    }

    fn region_cost(&self, region: &PlanNode) -> (r: Option<u64>) {
        self.0.region_cost(region)
    }

    fn write_cost(&self, path: &str, region: &PlanNode, rows: u64) -> (r: Option<u64>) {
        self.0.region_write_cost(path, region, rows)
    }
}

/// The rows that the operators emit, summed. Writes are not priced.
#[derive(Debug)]
pub struct CardinalitySubtreeCost;

impl SubtreeCost for CardinalitySubtreeCost {
    open spec fn ready(&self) -> bool {
        true
    }

    open spec fn prices(&self, roots: Seq<PlanNode>, r: Option<u64>) -> bool {
        r == cardinality_cost(roots)
    }

    open spec fn prices_write(&self, path: Text, roots: Seq<PlanNode>, rows: u64, r: Option<u64>) -> bool {
        r is None
    }

    fn cost(&self, roots: &Vec<PlanNode>) -> (r: Option<u64>) {
        cost_in_rows(roots)
    }

    fn region_cost(&self, region: &PlanNode) -> (r: Option<u64>) {
        region_in_rows(region)
    }

    fn write_cost(&self, path: &str, region: &PlanNode, rows: u64) -> (r: Option<u64>) {
        None
    }
}

/// The operators, counted. Writes are not priced.
#[derive(Debug)]
pub struct OperatorCountSubtreeCost;

impl SubtreeCost for OperatorCountSubtreeCost {
    open spec fn ready(&self) -> bool {
        true
    }

    open spec fn prices(&self, roots: Seq<PlanNode>, r: Option<u64>) -> bool {
        r == operator_cost(roots)
    }

    open spec fn prices_write(&self, path: Text, roots: Seq<PlanNode>, rows: u64, r: Option<u64>) -> bool {
        r is None
    }

    fn cost(&self, roots: &Vec<PlanNode>) -> (r: Option<u64>) {
        cost_in_operators(roots)
    }

    fn region_cost(&self, region: &PlanNode) -> (r: Option<u64>) {
        region_in_operators(region)
    }

    fn write_cost(&self, path: &str, region: &PlanNode, rows: u64) -> (r: Option<u64>) {
        None
    }
}

/// One of the cost models.
pub enum Coster<'a> {
    Learned(LearnedSubtreeCost<'a>),
    Rows(CardinalitySubtreeCost),
    Count(OperatorCountSubtreeCost),
}

impl<'a> SubtreeCost for Coster<'a> {
    open spec fn ready(&self) -> bool {
        match self {
            Coster::Learned(c) => c.ready(),
            Coster::Rows(c) => c.ready(),
            Coster::Count(c) => c.ready(),
        }
    }

    open spec fn prices(&self, roots: Seq<PlanNode>, r: Option<u64>) -> bool {
        match self {
            Coster::Learned(c) => c.prices(roots, r),
            Coster::Rows(c) => c.prices(roots, r),
            Coster::Count(c) => c.prices(roots, r),
        }
    }

    open spec fn prices_write(&self, path: Text, roots: Seq<PlanNode>, rows: u64, r: Option<u64>) -> bool {
        match self {
            Coster::Learned(c) => c.prices_write(path, roots, rows, r),
            Coster::Rows(c) => c.prices_write(path, roots, rows, r),
            Coster::Count(c) => c.prices_write(path, roots, rows, r),
        }
    }

    fn cost(&self, roots: &Vec<PlanNode>) -> (r: Option<u64>) {
        match self {
            Coster::Learned(c) => c.cost(roots),
            Coster::Rows(c) => c.cost(roots),
            Coster::Count(c) => c.cost(roots),
        }
    }

    fn region_cost(&self, region: &PlanNode) -> (r: Option<u64>) {
        match self {
            Coster::Learned(c) => c.region_cost(region),
            Coster::Rows(c) => c.region_cost(region),
            Coster::Count(c) => c.region_cost(region),
        }
    }

    fn write_cost(&self, path: &str, region: &PlanNode, rows: u64) -> (r: Option<u64>) {
        match self {
            Coster::Learned(c) => c.write_cost(path, region, rows),
            Coster::Rows(c) => c.write_cost(path, region, rows),
            Coster::Count(c) => c.write_cost(path, region, rows),
        }
    }
}

/// How a character of an id stands in a name. What would need quotes there, and
/// the underscore that spells it, take two characters.
pub open spec fn letter_code(c: char) -> Text {
    if c == '_' {
        seq!['_', '_']
    } else if c == '.' {
        seq!['_', 'd']
    } else if c == '"' {
        seq!['_', 'q']
    } else {
        seq![c]
    }
}

/// An id, character by character, as it stands in a name.
pub open spec fn coded(id: Text) -> Text
    decreases id.len(),
{
    if id.len() == 0 {
        Seq::<char>::empty()
    } else {
        letter_code(id[0]) + coded(id.skip(1))
    }
}

/// The name that a View is inlined under: `dee_dup_` and its id.
pub open spec fn cte_text(view_id: Text) -> Text {
    "dee_dup_"@ + coded(view_id)
}

proof fn coded_push(id: Text, c: char)
    ensures
        coded(id.push(c)) == coded(id) + letter_code(c),
    decreases id.len(),
{
    if id.len() == 0 {
        assert(id.push(c).skip(1) =~= Seq::<char>::empty());
        assert(coded(id.push(c).skip(1)) =~= Seq::<char>::empty());
        assert(coded(id.push(c)) =~= letter_code(c));
        assert(coded(id) + letter_code(c) =~= letter_code(c));
    } else {
        coded_push(id.skip(1), c);
        assert(id.push(c).skip(1) =~= id.skip(1).push(c));
        assert(coded(id.push(c)) =~= coded(id) + letter_code(c));
    }
}

proof fn coded_tells_apart(a: Text, b: Text)
    requires
        coded(a) == coded(b),
    ensures
        a == b,
    decreases a.len(),
{
    if a.len() == 0 || b.len() == 0 {
        if a.len() > 0 {
            assert(coded(a).len() > 0);
        }
        if b.len() > 0 {
            assert(coded(b).len() > 0);
        }
        assert(a =~= b);
    } else {
        let (x, y) = (letter_code(a[0]), letter_code(b[0]));
        assert(coded(a)[0] == x[0] && coded(b)[0] == y[0]);
        if x.len() == 2 && y.len() == 2 {
            assert(coded(a)[1] == x[1] && coded(b)[1] == y[1]);
        }
        assert(a[0] == b[0]);
        assert(coded(a.skip(1)) =~= coded(a).skip(x.len() as int));
        assert(coded(b.skip(1)) =~= coded(b).skip(y.len() as int));
        coded_tells_apart(a.skip(1), b.skip(1));
        assert(a =~= seq![a[0]] + a.skip(1));
        assert(b =~= seq![b[0]] + b.skip(1));
    }
}

/// Two Views are never inlined under one name: not those of one bare name in
/// two schemas, and not those whose ids differ only in where a part ends.
pub proof fn different_views_get_different_names(a: Text, b: Text)
    requires
        a != b,
    ensures
        cte_text(a) != cte_text(b),
{
    if cte_text(a) == cte_text(b) {
        let n = "dee_dup_"@.len() as int;
        assert(coded(a) =~= cte_text(a).skip(n));
        assert(coded(b) =~= cte_text(b).skip(n));
        coded_tells_apart(a, b);
    }
}

/// The name that a View is inlined under, made of its whole qualified id so
/// that no two Views share one.
pub fn cte_name(view_id: &str) -> (r: String)
    ensures
        r@ == cte_text(view_id@),
{
    let chars = chars_of(view_id);
    let mut out = "dee_dup_".to_owned();
    let mut i: usize = 0;
    proof {
        assert(out@ =~= "dee_dup_"@ + coded(chars@.take(0)));
    }
    while i < chars.len()
        invariant
            i <= chars@.len(),
            out@ == "dee_dup_"@ + coded(chars@.take(i as int)),
        decreases chars@.len() - i,
    {
        proof {
            assert(chars@.take(i + 1) =~= chars@.take(i as int).push(chars@[i as int]));
            coded_push(chars@.take(i as int), chars@[i as int]);
        }
        let c = chars[i];
        if c == '_' || c == '.' || c == '"' {
            out.push('_');
        }
        out.push(if c == '.' {
            'd'
        } else if c == '"' {
            'q'
        } else {
            c
        });
        proof {
            assert(out@ =~= "dee_dup_"@ + coded(chars@.take(i + 1)));
        }
        i = i + 1;
    }
    proof {
        assert(chars@.take(chars@.len() as int) =~= chars@);
    }
    out
}

/// What building one member of a set costs.
#[derive(Debug)]
pub struct MemberBuild {
    pub view: String,
    /// Computing it.
    pub compute: u64,
    /// Writing it out; none where the model does not know, which is not free.
    pub write: Option<u64>,
}

/// What something costs one consumer.
#[derive(Debug)]
pub struct ConsumerCost {
    pub consumer: String,
    pub cost: u64,
}

/// What a set of Views duplicates between its consumers, and the numbers
/// behind it.
#[derive(Debug)]
pub struct DuplicateCost {
    /// The members, consumer-most first.
    pub views: Vec<String>,
    /// What building every member once costs.
    pub build_once: u64,
    /// What building each member costs, in the order of `views`.
    pub build_per_member: Vec<MemberBuild>,
    /// What each consumer's plan spends on the members it can see.
    pub per_consumer: Vec<ConsumerCost>,
    /// What each consumer's whole plan costs.
    pub consumer_total: Vec<ConsumerCost>,
    /// What the consumers spend on the members, less building each once. It is
    /// negative where the engine plans the members more cheaply inside their
    /// consumers than standing alone.
    pub duplicate: i64,
    /// What writing every member costs; none unless each could be priced.
    pub write_total: Option<u64>,
}

/// The Views outside `set` that have a member of it among what they read.
pub open spec fn between_set(g: GraphModel, set: Set<Text>) -> spec_fn(Text) -> bool {
    |d: Text|
        !set.contains(d) && is_view(g, d) && exists|s: Text| set.contains(s) && #[trigger] transitive_dep(g, d, s)
}

/// `after` is `g` with every View between the members of `set` and the nodes
/// of `targets` inlined into those nodes.
pub open spec fn graph_contracted(
    g: GraphModel,
    dialect: Dialect,
    set: Set<Text>,
    targets: Set<Text>,
    after: GraphModel,
) -> bool {
    &&& after.dom() == g.dom()
    &&& forall|id: Text|
        #[trigger] g.contains_key(id) ==> if targets.contains(id) {
            contracted(g, dialect, between_set(g, set), g[id], after[id])
        } else {
            after[id] == g[id]
        }
}

/// Contracting the target `id` comes to the View `v`, which cannot be inlined.
pub open spec fn target_stuck(
    g: GraphModel,
    dialect: Dialect,
    set: Set<Text>,
    targets: Set<Text>,
    id: Text,
    v: Text,
) -> bool {
    targets.contains(id) && g.contains_key(id) && stuck_at(g, dialect, between_set(g, set), g[id], v)
}

/// Contracting some target comes to the View `v`, which cannot be inlined.
pub open spec fn contraction_stuck(g: GraphModel, dialect: Dialect, set: Set<Text>, targets: Set<Text>, v: Text) -> bool {
    exists|id: Text| #[trigger] target_stuck(g, dialect, set, targets, id, v)
}

/// Whether `id` reads a member of `set`, directly or not.
fn reads_any(g: &Graph, id: &str, set: &Vec<String>) -> (r: bool)
    requires
        g.wf(),
    ensures
        r == exists|s: Text| texts(set@).to_set().contains(s) && #[trigger] transitive_dep(g@, id@, s),
{
    let mut i: usize = 0;
    while i < set.len()
        invariant
            i <= set@.len(),
            g.wf(),
            forall|k: int| 0 <= k < i ==> !transitive_dep(g@, id@, (#[trigger] set@[k])@),
        decreases set@.len() - i,
    {
        if is_transitive_dep(g, id, set[i].as_str()) {
            proof {
                assert(texts(set@)[i as int] == set@[i as int]@);
                assert(texts(set@).to_set().contains(set@[i as int]@));
            }
            return true;
        }
        i = i + 1;
    }
    proof {
        assert forall|s: Text| texts(set@).to_set().contains(s) implies !(#[trigger] transitive_dep(g@, id@, s)) by {
            let k = choose|k: int| 0 <= k < texts(set@).len() && texts(set@)[k] == s;
            assert(set@[k]@ == s);
        }
    }
    false
}

/// Inlines every View between the members of `set` and the nodes of `targets`
/// into those nodes. The id of a View that cannot be inlined, where there is
/// one.
pub fn contract_intermediate_views_set(
    g: &Graph,
    dialect: Dialect,
    set: &Vec<String>,
    targets: &Vec<String>,
) -> (r: Result<Graph, String>)
    requires
        g.wf(),
    ensures
        r matches Ok(minor) ==> minor.wf() && graph_contracted(
            g@,
            dialect,
            texts(set@).to_set(),
            texts(targets@).to_set(),
            minor@,
        ),
        r matches Err(v) ==> contraction_stuck(g@, dialect, texts(set@).to_set(), texts(targets@).to_set(), v@),
{
    let ghost members = texts(set@).to_set();
    let ghost pick = between_set(g@, members);
    let order = g.topological_sort();
    let ghost topo = texts(order@);
    let mut keep: Vec<bool> = Vec::new();
    let mut k: usize = 0;
    while k < order.len()
        invariant
            k <= order@.len(),
            g.wf(),
            members == texts(set@).to_set(),
            pick == between_set(g@, members),
            keep@.len() == k,
            forall|i: int| 0 <= i < k ==> (#[trigger] keep@[i]) == pick(order@[i]@),
        decreases order@.len() - k,
    {
        let id = order[k].as_str();
        let mut take = false;
        if !contains_text(set, id) {
            if let Some(node) = g.get(id) {
                if node.materialize == MaterializeMode::View && reads_any(g, id, set) {
                    take = true;
                }
            }
        }
        keep.push(take);
        k = k + 1;
    }
    let list = marked_from_last(&order, &keep, Ghost(g@), Ghost(pick));
    let mut minor = g.copy();
    let ghost all = texts(targets@);
    let mut i: usize = 0;
    proof {
        assert forall|j: int| 0 <= j < list@.len() implies g@.contains_key((#[trigger] list@[j])@) by {
            assert(texts(list@)[j] == list@[j]@);
        }
        g.listed_is_view();
    }
    while i < targets.len()
        invariant
            i <= targets@.len(),
            g.wf(),
            minor.wf(),
            crate::dag::keyed(g@),
            members == texts(set@).to_set(),
            pick == between_set(g@, members),
            all == texts(targets@),
            consumers_first(g@, topo, pick, texts(list@)),
            forall|j: int| 0 <= j < list@.len() ==> g@.contains_key((#[trigger] list@[j])@),
            minor@.dom() == g@.dom(),
            forall|id: Text|
                #[trigger] g@.contains_key(id) ==> if all.take(i as int).contains(id) {
                    contracted(g@, dialect, pick, g@[id], minor@[id])
                } else {
                    minor@[id] == g@[id]
                },
        decreases targets@.len() - i,
    {
        let id = targets[i].as_str();
        let ghost before = minor@;
        let ghost next = all.take(i + 1);
        proof {
            assert(all[i as int] == id@);
            assert(next =~= all.take(i as int).push(id@));
            crate::dag::pushed_to_set(all.take(i as int), id@);
        }
        if let Some(m) = g.get(id) {
            match inline_listed(g, m, dialect, &list, Ghost(g@), Ghost(topo), Ghost(pick)) {
                Err(v) => {
                    proof {
                        assert(texts(targets@).to_set().contains(id@)) by {
                            assert(all.contains(id@));
                        }
                        assert(target_stuck(g@, dialect, texts(set@).to_set(), texts(targets@).to_set(), id@, v@));
                        assert(contraction_stuck(g@, dialect, texts(set@).to_set(), texts(targets@).to_set(), v@));
                    }
                    return Err(v);
                },
                Ok((text, deps)) => {
                    minor.rewrite_node(id, text, deps);
                    proof {
                        let node = NodeModel { query_text: text@, depends_on: texts(deps@).to_set(), ..g@[id@] };
                        assert(contracted(g@, dialect, pick, g@[id@], node));
                        assert(minor@[id@] =~= node) by {
                            kept_fields(g@, dialect, pick, g@[id@], before[id@], all.take(i as int).contains(id@));
                        }
                        assert(minor@.dom() =~= g@.dom());
                    }
                },
            }
        }
        proof {
            assert forall|x: Text| #[trigger] g@.contains_key(x) implies if next.contains(x) {
                contracted(g@, dialect, pick, g@[x], minor@[x])
            } else {
                minor@[x] == g@[x]
            } by {
                assert(next.to_set().contains(x) == all.take(i as int).to_set().insert(id@).contains(x));
            }
        }
        i = i + 1;
    }
    proof {
        assert(all.take(targets@.len() as int) =~= all);
        assert forall|id: Text| #[trigger] g@.contains_key(id) implies if all.to_set().contains(id) {
            contracted(g@, dialect, pick, g@[id], minor@[id])
        } else {
            minor@[id] == g@[id]
        } by {
            assert(all.to_set().contains(id) == all.contains(id));
        }
    }
    Ok(minor)
}

proof fn kept_fields(
    g: GraphModel,
    dialect: Dialect,
    pick: spec_fn(Text) -> bool,
    m: NodeModel,
    now: NodeModel,
    changed: bool,
)
    requires
        changed ==> contracted(g, dialect, pick, m, now),
        !changed ==> now == m,
        forall|v: Text| pick(v) ==> #[trigger] g.contains_key(v),
    ensures
        now.id == m.id,
        now.materialize == m.materialize,
        now.schema == m.schema,
{
    if changed {
        crate::common::contracting_keeps(g, dialect, pick, m, now, m.id);
    }
}

/// The renaming of each View to the name it is inlined under.
pub open spec fn cte_map(views: Seq<Text>) -> Seq<(Text, Text)> {
    views.map_values(|v: Text| (v, cte_text(v)))
}

/// The renaming of each of `views` to the name it is inlined under.
fn cte_mapping(views: &Vec<String>) -> (r: Vec<Renaming>)
    ensures
        renamings(r@) == cte_map(texts(views@)),
{
    let mut out: Vec<Renaming> = Vec::new();
    let mut i: usize = 0;
    while i < views.len()
        invariant
            i <= views@.len(),
            out@.len() == i,
            forall|k: int| 0 <= k < i ==> (#[trigger] out@[k])@ == (views@[k]@, cte_text(views@[k]@)),
        decreases views@.len() - i,
    {
        out.push(Renaming { node_id: views[i].clone(), new_name: cte_name(views[i].as_str()) });
        i = i + 1;
    }
    proof {
        assert(renamings(out@) =~= cte_map(texts(views@)));
    }
    out
}

/// The query of a member with its reads of other members moved to the names
/// they are inlined under.
pub open spec fn body_of(g: GraphModel, views: Seq<Text>, dialect: Dialect, v: Text) -> Option<Text> {
    if g.contains_key(v) {
        rewritten_refs(g[v].query_text, cte_map(views), dialect)
    } else {
        None
    }
}

/// `bodies` are the members' queries, in order, with their reads of each other
/// moved; none where one cannot be had.
pub open spec fn are_bodies(g: GraphModel, views: Seq<Text>, dialect: Dialect, bodies: Option<Seq<Text>>) -> bool {
    match bodies {
        Some(b) => b.len() == views.len() && forall|i: int|
            0 <= i < views.len() ==> body_of(g, views, dialect, #[trigger] views[i]) == Some(b[i]),
        None => exists|i: int| 0 <= i < views.len() && body_of(g, views, dialect, #[trigger] views[i]) is None,
    }
}

/// The text lists inside an optional list of strings.
pub open spec fn texts_of(s: Option<Vec<String>>) -> Option<Seq<Text>> {
    match s {
        Some(v) => Some(texts(v@)),
        None => None,
    }
}

/// Each member's query, in the order of `views`, with its reads of other
/// members moved to the names they are inlined under. That is what keeps a
/// downstream member from being charged for an upstream one.
pub fn member_bodies(g: &Graph, views: &Vec<String>, dialect: Dialect) -> (r: Option<Vec<String>>)
    requires
        g.wf(),
    ensures
        are_bodies(g@, texts(views@), dialect, texts_of(r)),
{
    let mapping = cte_mapping(views);
    let ghost all = texts(views@);
    let mut out: Vec<String> = Vec::new();
    let mut i: usize = 0;
    while i < views.len()
        invariant
            i <= views@.len(),
            g.wf(),
            all == texts(views@),
            renamings(mapping@) == cte_map(all),
            out@.len() == i,
            forall|k: int| 0 <= k < i ==> body_of(g@, all, dialect, all[k]) == Some((#[trigger] out@[k])@),
        decreases views@.len() - i,
    {
        proof {
            assert(all[i as int] == views@[i as int]@);
        }
        match g.get(views[i].as_str()) {
            None => {
                proof {
                    assert(body_of(g@, all, dialect, all[i as int]) is None);
                }
                return None;
            },
            Some(node) => {
                match rewrite_node_refs(node.query_text.as_str(), &mapping, dialect) {
                    None => {
                        proof {
                            assert(body_of(g@, all, dialect, all[i as int]) is None);
                        }
                        return None;
                    },
                    Some(body) => {
                        out.push(body);
                    },
                }
            },
        }
        i = i + 1;
    }
    proof {
        assert forall|k: int| 0 <= k < all.len() implies body_of(g@, all, dialect, #[trigger] all[k]) == Some(
            texts(out@)[k],
        ) by {
            assert(texts(out@)[k] == out@[k]@);
        }
    }
    Some(out)
}

/// `sql` with the first `n` Views before it as materialized common table
/// expressions, each ahead of those before.
pub open spec fn wrapped_views(
    sql: Text,
    views: Seq<Text>,
    bodies: Seq<Text>,
    dialect: Dialect,
    n: nat,
) -> Option<Text>
    decreases n,
{
    if n == 0 {
        Some(sql)
    } else {
        match wrapped_views(sql, views, bodies, dialect, (n - 1) as nat) {
            Some(s) => wrapped_in_cte(s, cte_text(views[n - 1]), bodies[n - 1], dialect),
            None => None,
        }
    }
}

/// `sql` with `views` before it as materialized common table expressions. They
/// come consumer-most first, so each ends up behind the ones it reads.
fn wrap_views(sql: &str, views: &Vec<String>, bodies: &Vec<String>, dialect: Dialect) -> (r: Option<String>)
    requires
        views@.len() == bodies@.len(),
    ensures
        text_in(r) == wrapped_views(sql@, texts(views@), texts(bodies@), dialect, views@.len()),
{
    let ghost names = texts(views@);
    let ghost queries = texts(bodies@);
    let mut out = sql.to_owned();
    let mut i: usize = 0;
    while i < views.len()
        invariant
            i <= views@.len() == bodies@.len(),
            names == texts(views@),
            queries == texts(bodies@),
            wrapped_views(sql@, names, queries, dialect, i as nat) == Some(out@),
        decreases views@.len() - i,
    {
        proof {
            assert(names[i as int] == views@[i as int]@);
            assert(queries[i as int] == bodies@[i as int]@);
        }
        let name = cte_name(views[i].as_str());
        match wrap_in_materialized_cte(out.as_str(), name.as_str(), bodies[i].as_str(), dialect) {
            Some(s) => {
                out = s;
            },
            None => {
                proof {
                    wrapping_stays_failed(sql@, names, queries, dialect, (i + 1) as nat, views@.len());
                }
                return None;
            },
        }
        i = i + 1;
    }
    Some(out)
}

proof fn wrapping_stays_failed(
    sql: Text,
    views: Seq<Text>,
    bodies: Seq<Text>,
    dialect: Dialect,
    k: nat,
    n: nat,
)
    requires
        k <= n,
        wrapped_views(sql, views, bodies, dialect, k) is None,
    ensures
        wrapped_views(sql, views, bodies, dialect, n) is None,
    decreases n,
{
    if k < n {
        wrapping_stays_failed(sql, views, bodies, dialect, k, (n - 1) as nat);
    }
}

/// The query that reads each of the first `n` members once.
pub open spec fn probe_columns(views: Seq<Text>, n: nat) -> Seq<Text>
    decreases n,
{
    if n == 0 {
        Seq::<Text>::empty()
    } else {
        probe_columns(views, (n - 1) as nat).push(
            "(SELECT count(*) FROM "@ + cte_text(views[n - 1]) + ") AS c"@ + decimal((n - 1) as nat),
        )
    }
}

/// The query whose plan shows what building every member once costs: each is
/// read once, because one that is not read is left out of the plan.
pub open spec fn probe_text(views: Seq<Text>) -> Text {
    "SELECT "@ + joined(probe_columns(views, views.len()), ", "@)
}

/// The query that reads each of `views` once.
fn probe_query(views: &Vec<String>) -> (r: String)
    ensures
        r@ == probe_text(texts(views@)),
{
    let ghost names = texts(views@);
    let mut columns: Vec<String> = Vec::new();
    let mut i: usize = 0;
    proof {
        assert(texts(columns@) =~= probe_columns(names, 0));
    }
    while i < views.len()
        invariant
            i <= views@.len(),
            names == texts(views@),
            texts(columns@) == probe_columns(names, i as nat),
        decreases views@.len() - i,
    {
        let ghost had = texts(columns@);
        let mut column = "(SELECT count(*) FROM ".to_owned();
        column.append(cte_name(views[i].as_str()).as_str());
        column.append(") AS c");
        column.append(decimal_text(i as u64).as_str());
        columns.push(column);
        proof {
            assert(names[i as int] == views@[i as int]@);
            assert(texts(columns@) =~= probe_columns(names, (i + 1) as nat));
        }
        i = i + 1;
    }
    let mut out = "SELECT ".to_owned();
    out.append(join(&columns, ", ").as_str());
    out
}

/// A consumer's query with the members that it can see inlined into it as
/// materialized common table expressions.
pub open spec fn consumer_text(
    g: GraphModel,
    consumer: Text,
    visible: Seq<Text>,
    bodies: Seq<Text>,
    dialect: Dialect,
) -> Option<Text> {
    if !g.contains_key(consumer) {
        None
    } else {
        match rewritten_refs(g[consumer].query_text, cte_map(visible), dialect) {
            Some(s) => wrapped_views(s, visible, bodies, dialect, visible.len()),
            None => None,
        }
    }
}

/// The query of `consumer` with every member of `visible` inlined into it as a
/// materialized common table expression, reads of members moved to those.
pub fn consumer_query(
    g: &Graph,
    consumer: &str,
    visible: &Vec<String>,
    bodies: &Vec<String>,
    dialect: Dialect,
) -> (r: Option<String>)
    requires
        g.wf(),
        visible@.len() == bodies@.len(),
    ensures
        text_in(r) == consumer_text(g@, consumer@, texts(visible@), texts(bodies@), dialect),
{
    match g.get(consumer) {
        None => None,
        Some(node) => {
            let mapping = cte_mapping(visible);
            match rewrite_node_refs(node.query_text.as_str(), &mapping, dialect) {
                None => None,
                Some(sql) => wrap_views(sql.as_str(), visible, bodies, dialect),
            }
        },
    }
}

/// Those of the first `n` members of `order` that are inlined into the query
/// the engine runs for `consumer`.
pub open spec fn visible_to(g: GraphModel, order: Seq<Text>, consumer: Text, n: nat) -> Seq<Text>
    decreases n,
{
    if n == 0 {
        Seq::<Text>::empty()
    } else {
        let rest = visible_to(g, order, consumer, (n - 1) as nat);
        if frontier(g, order[n - 1]).contains(consumer) {
            rest.push(order[n - 1])
        } else {
            rest
        }
    }
}

/// The bodies of those.
pub open spec fn visible_bodies(
    g: GraphModel,
    order: Seq<Text>,
    bodies: Seq<Text>,
    consumer: Text,
    n: nat,
) -> Seq<Text>
    decreases n,
{
    if n == 0 {
        Seq::<Text>::empty()
    } else {
        let rest = visible_bodies(g, order, bodies, consumer, (n - 1) as nat);
        if frontier(g, order[n - 1]).contains(consumer) {
            rest.push(bodies[n - 1])
        } else {
            rest
        }
    }
}

/// The consumers of the members of `order`: the nodes that any of them is
/// inlined into.
pub open spec fn consumers_of(g: GraphModel, order: Seq<Text>) -> Set<Text> {
    Set::new(|c: Text| exists|i: int| 0 <= i < order.len() && frontier(g, #[trigger] order[i]).contains(c))
}

/// A question to the engine: how it plans one consumer's query with the
/// members it can see inlined.
#[derive(Debug)]
pub struct ConsumerProbe {
    pub consumer: String,
    /// The members inlined, consumer-most first.
    pub members: Vec<String>,
    /// The query to plan; none where it cannot be written, and the consumer is
    /// left out.
    pub sql: Option<String>,
}

/// The questions to the engine that price a set of Views.
#[derive(Debug)]
pub struct DupPlan {
    /// The members, consumer-most first.
    pub order: Vec<String>,
    /// The members' queries, with their reads of each other moved.
    pub bodies: Vec<String>,
    /// The query that builds every member once.
    pub probe: String,
    pub consumers: Vec<ConsumerProbe>,
}

/// The names that the members of `order` are inlined under are distinct.
pub open spec fn distinct_names(order: Seq<Text>) -> bool {
    order.map_values(|v: Text| cte_text(v)).no_duplicates()
}

/// What `p` asks for one consumer.
pub open spec fn probes_consumer(
    g: GraphModel,
    minor: GraphModel,
    dialect: Dialect,
    order: Seq<Text>,
    bodies: Seq<Text>,
    p: ConsumerProbe,
) -> bool {
    &&& texts(p.members@) == visible_to(g, order, p.consumer@, order.len())
    &&& text_in(p.sql) == consumer_text(
        minor,
        p.consumer@,
        texts(p.members@),
        visible_bodies(g, order, bodies, p.consumer@, order.len()),
        dialect,
    )
}

/// The consumers of a list of questions.
pub open spec fn probe_names(s: Seq<ConsumerProbe>) -> Seq<Text> {
    s.map_values(|p: ConsumerProbe| p.consumer@)
}

/// `p` asks what prices the members of `order`, over the contracted graph
/// `minor`.
pub open spec fn asks(g: GraphModel, minor: GraphModel, dialect: Dialect, order: Seq<Text>, p: DupPlan) -> bool {
    let names = probe_names(p.consumers@);
    let set = order.to_set();
    &&& graph_contracted(g, dialect, set, set.union(consumers_of(g, order)), minor)
    &&& texts(p.order@) == order
    &&& are_bodies(minor, order, dialect, Some(texts(p.bodies@)))
    &&& wrapped_views(probe_text(order), order, texts(p.bodies@), dialect, order.len()) == Some(p.probe@)
    &&& listing(names, consumers_of(g, order))
    &&& forall|i: int|
        0 <= i < p.consumers@.len() ==> probes_consumer(
            g,
            minor,
            dialect,
            order,
            texts(p.bodies@),
            #[trigger] p.consumers@[i],
        )
}

/// Nothing can be asked about the members of `order`.
pub open spec fn cannot_ask(g: GraphModel, dialect: Dialect, order: Seq<Text>) -> bool {
    let set = order.to_set();
    ||| order.len() == 0
    ||| !distinct_names(order)
    ||| consumers_of(g, order) == Set::<Text>::empty()
    ||| exists|v: Text|
        #[trigger] contraction_stuck(g, dialect, set, set.union(consumers_of(g, order)), v)
    ||| exists|minor: GraphModel|
        #[trigger] graph_contracted(g, dialect, set, set.union(consumers_of(g, order)), minor) && (are_bodies(
            minor,
            order,
            dialect,
            None,
        ) || exists|bodies: Seq<Text>|
            #[trigger] are_bodies(minor, order, dialect, Some(bodies)) && wrapped_views(
                probe_text(order),
                order,
                bodies,
                dialect,
                order.len(),
            ) is None)
}

/// `r` is what to ask about the members of `order`.
pub open spec fn planned(g: GraphModel, dialect: Dialect, order: Seq<Text>, r: Option<DupPlan>) -> bool {
    match r {
        Some(p) => {
            &&& order.len() > 0
            &&& distinct_names(order)
            &&& consumers_of(g, order) != Set::<Text>::empty()
            &&& exists|minor: GraphModel| #[trigger] asks(g, minor, dialect, order, p)
        },
        None => cannot_ask(g, dialect, order),
    }
}

proof fn plan_is_right(g: GraphModel, minor: GraphModel, dialect: Dialect, order: Seq<Text>, p: DupPlan)
    requires
        order.len() > 0,
        distinct_names(order),
        consumers_of(g, order) != Set::<Text>::empty(),
        asks(g, minor, dialect, order, p),
    ensures
        planned(g, dialect, order, Some(p)),
{
    let r = Some(p);
    assert(asks(g, minor, dialect, order, r->0));
}

/// Whether the names that `order` is inlined under are distinct.
fn names_distinct(order: &Vec<String>) -> (r: bool)
    ensures
        r == distinct_names(texts(order@)),
{
    let ghost names = texts(order@).map_values(|v: Text| cte_text(v));
    let mut seen: Vec<String> = Vec::new();
    let mut i: usize = 0;
    while i < order.len()
        invariant
            i <= order@.len(),
            names == texts(order@).map_values(|v: Text| cte_text(v)),
            texts(seen@) == names.take(i as int),
            names.take(i as int).no_duplicates(),
        decreases order@.len() - i,
    {
        let name = cte_name(order[i].as_str());
        proof {
            assert(names[i as int] == name@);
        }
        if contains_text(&seen, name.as_str()) {
            proof {
                let k = choose|k: int| 0 <= k < names.take(i as int).len() && names.take(i as int)[k] == name@;
                assert(names[k] == names[i as int]);
            }
            return false;
        }
        let ghost had = texts(seen@);
        seen.push(name);
        proof {
            assert(texts(seen@) =~= had.push(names[i as int]));
            assert(names.take(i + 1) =~= had.push(names[i as int]));
            let next = names.take(i + 1);
            assert forall|a: int, b: int| 0 <= a < next.len() && 0 <= b < next.len() && a != b implies #[trigger] next[a]
                != #[trigger] next[b] by {
                if a == i {
                    assert(had[b] == names[b]);
                    if had[b] == names[i as int] {
                        assert(had.contains(names[i as int]));
                    }
                } else if b == i {
                    assert(had[a] == names[a]);
                    if had[a] == names[i as int] {
                        assert(had.contains(names[i as int]));
                    }
                } else {
                    assert(had[a] != had[b]);
                }
            }
        }
        i = i + 1;
    }
    proof {
        assert(names.take(order@.len() as int) =~= names);
    }
    true
}

/// The consumers of `order`, in lexicographic order.
fn list_consumers(g: &Graph, order: &Vec<String>) -> (r: Vec<String>)
    requires
        g.wf(),
    ensures
        listing(texts(r@), consumers_of(g@, texts(order@))),
{
    let ghost all = texts(order@);
    let mut found: Vec<String> = Vec::new();
    let mut i: usize = 0;
    proof {
        assert(texts(found@).to_set() =~= consumers_of(g@, all.take(0)));
    }
    while i < order.len()
        invariant
            i <= order@.len(),
            g.wf(),
            all == texts(order@),
            texts(found@).to_set() == consumers_of(g@, all.take(i as int)),
        decreases order@.len() - i,
    {
        let more = g.frontier_materializes(order[i].as_str());
        found = crate::dag::union_texts(&found, &more);
        proof {
            let head = all.take(i as int);
            let next = all.take(i + 1);
            assert(next =~= head.push(order@[i as int]@));
            assert forall|c: Text| consumers_of(g@, next).contains(c) == (consumers_of(g@, head).contains(c) || frontier(
                g@,
                order@[i as int]@,
            ).contains(c)) by {
                if consumers_of(g@, next).contains(c) {
                    let k = choose|k: int| 0 <= k < next.len() && frontier(g@, #[trigger] next[k]).contains(c);
                    if k < head.len() {
                        assert(head[k] == next[k]);
                    }
                }
                if consumers_of(g@, head).contains(c) {
                    let k = choose|k: int| 0 <= k < head.len() && frontier(g@, #[trigger] head[k]).contains(c);
                    assert(next[k] == head[k]);
                }
                assert(next[i as int] == order@[i as int]@);
            }
            assert(texts(found@).to_set() =~= consumers_of(g@, next));
        }
        i = i + 1;
    }
    proof {
        assert(all.take(order@.len() as int) =~= all);
    }
    list_of(&found)
}

/// Those of `order` that are inlined into the query of `consumer`, and their
/// bodies.
fn list_visible(g: &Graph, order: &Vec<String>, bodies: &Vec<String>, consumer: &str) -> (r: (Vec<String>, Vec<String>))
    requires
        g.wf(),
        order@.len() == bodies@.len(),
    ensures
        texts(r.0@) == visible_to(g@, texts(order@), consumer@, order@.len()),
        texts(r.1@) == visible_bodies(g@, texts(order@), texts(bodies@), consumer@, order@.len()),
        r.0@.len() == r.1@.len(),
{
    let ghost all = texts(order@);
    let ghost queries = texts(bodies@);
    let mut members: Vec<String> = Vec::new();
    let mut their: Vec<String> = Vec::new();
    let mut i: usize = 0;
    proof {
        assert(texts(members@) =~= visible_to(g@, all, consumer@, 0));
        assert(texts(their@) =~= visible_bodies(g@, all, queries, consumer@, 0));
    }
    while i < order.len()
        invariant
            i <= order@.len() == bodies@.len(),
            g.wf(),
            all == texts(order@),
            queries == texts(bodies@),
            members@.len() == their@.len(),
            texts(members@) == visible_to(g@, all, consumer@, i as nat),
            texts(their@) == visible_bodies(g@, all, queries, consumer@, i as nat),
        decreases order@.len() - i,
    {
        let reached = g.frontier_materializes(order[i].as_str());
        proof {
            assert(all[i as int] == order@[i as int]@);
            assert(queries[i as int] == bodies@[i as int]@);
            assert(texts(reached@).contains(consumer@) == texts(reached@).to_set().contains(consumer@));
        }
        if contains_text(&reached, consumer) {
            let ghost a = texts(members@);
            let ghost b = texts(their@);
            members.push(order[i].clone());
            their.push(bodies[i].clone());
            proof {
                assert(texts(members@) =~= a.push(all[i as int]));
                assert(texts(their@) =~= b.push(queries[i as int]));
            }
        }
        i = i + 1;
    }
    (members, their)
}

/// What to ask the engine in order to price `views` as a set. None where there
/// is no View, where two would be inlined under one name, where nothing
/// consumes them, or where a query cannot be rewritten.
pub fn plan_duplicates(dag: &Dag, views: &Vec<String>) -> (r: Option<DupPlan>)
    requires
        dag.wf(),
    ensures
        exists|order: Seq<Text>|
            #[trigger] stably_sorted(order, firsts(texts(views@)), canonical(dag.nodes.listed())) && planned(
                dag.nodes@,
                named_dialect(unicode_lower(dag.db@)),
                order,
                r,
            ),
{
    let dialect = dialect_for_db(dag.db.as_str());
    let once = dedup(views);
    let order = canonical_order(dag, &once);
    let ghost g = dag.nodes@;
    let ghost all = texts(order@);
    if order.len() == 0 {
        return None;
    }
    if !names_distinct(&order) {
        return None;
    }
    let names = list_consumers(&dag.nodes, &order);
    if names.len() == 0 {
        proof {
            assert(texts(names@).to_set() =~= Set::<Text>::empty());
        }
        return None;
    }
    let targets = crate::dag::union_texts(&order, &names);
    let minor = match contract_intermediate_views_set(&dag.nodes, dialect, &order, &targets) {
        Ok(m) => m,
        Err(v) => {
            proof {
                assert(contraction_stuck(g, dialect, all.to_set(), all.to_set().union(consumers_of(g, all)), v@));
            }
            return None;
        },
    };
    proof {
        assert(graph_contracted(g, dialect, all.to_set(), all.to_set().union(consumers_of(g, all)), minor@));
    }
    let bodies = match member_bodies(&minor, &order, dialect) {
        Some(b) => b,
        None => {
            return None;
        },
    };
    let ghost queries = texts(bodies@);
    let probe = match wrap_views(probe_query(&order).as_str(), &order, &bodies, dialect) {
        Some(p) => p,
        None => {
            proof {
                assert(are_bodies(minor@, all, dialect, Some(queries)));
            }
            return None;
        },
    };
    let mut consumers: Vec<ConsumerProbe> = Vec::new();
    let mut i: usize = 0;
    while i < names.len()
        invariant
            i <= names@.len(),
            dag.wf(),
            minor.wf(),
            g == dag.nodes@,
            all == texts(order@),
            queries == texts(bodies@),
            order@.len() == bodies@.len(),
            consumers@.len() == i,
            forall|k: int|
                0 <= k < i ==> (#[trigger] consumers@[k]).consumer@ == names@[k]@ && probes_consumer(
                    g,
                    minor@,
                    dialect,
                    all,
                    queries,
                    consumers@[k],
                ),
        decreases names@.len() - i,
    {
        let (members, their) = list_visible(&dag.nodes, &order, &bodies, names[i].as_str());
        let sql = consumer_query(&minor, names[i].as_str(), &members, &their, dialect);
        consumers.push(ConsumerProbe { consumer: names[i].clone(), members, sql });
        i = i + 1;
    }
    let p = DupPlan { order, bodies, probe, consumers };
    proof {
        assert(probe_names(p.consumers@) =~= texts(names@));
        assert(names@.len() > 0);
        assert(texts(names@).contains(texts(names@)[0]));
        assert(consumers_of(g, all).contains(texts(names@)[0]));
        assert(asks(g, minor@, dialect, all, p));
        assert(!Set::<Text>::empty().contains(texts(names@)[0]));
        plan_is_right(g, minor@, dialect, all, p);
    }
    Some(p)
}

/// `r` is what building `view` costs, by the plan of the probe and the path
/// that the engine would write it through.
pub open spec fn built<C: SubtreeCost>(
    coster: &C,
    view: Text,
    plans: Seq<PlanNode>,
    path: Option<Text>,
    compute: u64,
    write: Option<u64>,
) -> bool {
    match subplan_in(plans, cte_text(view)) {
        Some(region) => {
            &&& coster.prices(seq![region], Some(compute))
            &&& match (path, crate::plan::rows_of(region)) {
                (Some(p), Some(rows)) => coster.prices_write(p, seq![region], rows, write),
                _ => write is None,
            }
        },
        None => false,
    }
}

/// The plan of the probe does not say what building `view` costs.
pub open spec fn cannot_build<C: SubtreeCost>(coster: &C, view: Text, plans: Seq<PlanNode>) -> bool {
    match subplan_in(plans, cte_text(view)) {
        Some(region) => coster.prices(seq![region], None),
        None => true,
    }
}

/// What building each member of `order` costs, by the plan of the probe and
/// the path that the engine would write each through, as far as it names one.
/// None where a member has no region in the plan, or one that the model cannot
/// price.
pub fn build_once_cost<C: SubtreeCost>(
    order: &Vec<String>,
    plans: &Vec<PlanNode>,
    paths: &Vec<Option<String>>,
    coster: &C,
) -> (r: Option<Vec<MemberBuild>>)
    requires
        coster.ready(),
        order@.len() == paths@.len(),
    ensures
        match r {
            Some(b) => b@.len() == order@.len() && forall|i: int|
                0 <= i < order@.len() ==> (#[trigger] b@[i]).view@ == order@[i]@ && built(
                    coster,
                    order@[i]@,
                    plans@,
                    text_in(paths@[i]),
                    b@[i].compute,
                    b@[i].write,
                ),
            None => exists|i: int| 0 <= i < order@.len() && cannot_build(coster, (#[trigger] order@[i])@, plans@),
        },
{
    let mut builds: Vec<MemberBuild> = Vec::new();
    let mut i: usize = 0;
    while i < order.len()
        invariant
            i <= order@.len() == paths@.len(),
            coster.ready(),
            builds@.len() == i,
            forall|k: int|
                0 <= k < i ==> (#[trigger] builds@[k]).view@ == order@[k]@ && built(
                    coster,
                    order@[k]@,
                    plans@,
                    text_in(paths@[k]),
                    builds@[k].compute,
                    builds@[k].write,
                ),
        decreases order@.len() - i,
    {
        let name = cte_name(order[i].as_str());
        let region = match find_subplan(plans, name.as_str()) {
            Some(n) => n,
            None => {
                proof {
                    assert(cannot_build(coster, order@[i as int]@, plans@));
                }
                return None;
            },
        };
        let compute = match coster.region_cost(region) {
            Some(c) => c,
            None => {
                proof {
                    assert(cannot_build(coster, order@[i as int]@, plans@));
                }
                return None;
            },
        };
        let write = match &paths[i] {
            Some(path) => match region.rows() {
                Some(rows) => coster.write_cost(path.as_str(), region, rows),
                None => None,
            },
            None => None,
        };
        proof {
            assert(built(coster, order@[i as int]@, plans@, text_in(paths@[i as int]), compute, write));
        }
        builds.push(MemberBuild { view: order[i].clone(), compute, write });
        i = i + 1;
    }
    Some(builds)
}

/// What an engine says when it is asked for a plan.
#[derive(Debug)]
pub enum Answer {
    Plan(Vec<PlanNode>),
    /// The engine plans nothing for anyone.
    Unsupported,
    /// It could not plan this, or its plan could not be read.
    Failed,
}

/// What one consumer's plan spends.
#[derive(Debug)]
pub struct Share {
    pub consumer: String,
    /// On the members it can see.
    pub regions: u64,
    /// Altogether.
    pub whole: u64,
}

/// The sum of some costs.
pub open spec fn total_of(costs: Seq<u64>) -> nat
    decreases costs.len(),
{
    if costs.len() == 0 {
        0
    } else {
        total_of(costs.drop_last()) + costs.last() as nat
    }
}

/// `costs` is what the regions of `members` in a plan cost.
pub open spec fn are_regions<C: SubtreeCost>(
    coster: &C,
    plans: Seq<PlanNode>,
    members: Seq<Text>,
    costs: Seq<u64>,
) -> bool {
    &&& costs.len() == members.len()
    &&& forall|i: int|
        0 <= i < members.len() ==> match subplan_in(plans, cte_text(#[trigger] members[i])) {
            Some(region) => coster.prices(seq![region], Some(costs[i])),
            None => false,
        }
}

/// The larger of two costs.
pub open spec fn larger(a: u64, b: u64) -> u64 {
    if a >= b {
        a
    } else {
        b
    }
}

/// A plan spends `regions` on `members` and `whole` altogether: no less, and
/// exactly that where the model cannot price the whole.
pub open spec fn spends<C: SubtreeCost>(
    coster: &C,
    plans: Seq<PlanNode>,
    members: Seq<Text>,
    regions: u64,
    whole: u64,
) -> bool {
    exists|costs: Seq<u64>, total: Option<u64>|
        #[trigger] are_regions(coster, plans, members, costs) && #[trigger] coster.prices(plans, total) && regions == cap64(
            total_of(costs),
        ) && whole == match total {
            Some(t) => larger(t, regions),
            None => regions,
        }
}

/// A plan does not say what it spends on `members`: one has no region in it,
/// or one that the model cannot price.
pub open spec fn incomplete<C: SubtreeCost>(coster: &C, plans: Seq<PlanNode>, members: Seq<Text>) -> bool {
    exists|i: int| 0 <= i < members.len() && cannot_build(coster, #[trigger] members[i], plans)
}

/// What a plan spends on `members`, and altogether.
pub fn consumer_share<C: SubtreeCost>(members: &Vec<String>, plans: &Vec<PlanNode>, coster: &C) -> (r: Option<(u64, u64)>)
    requires
        coster.ready(),
    ensures
        match r {
            Some((regions, whole)) => spends(coster, plans@, texts(members@), regions, whole),
            None => incomplete(coster, plans@, texts(members@)),
        },
{
    let ghost names = texts(members@);
    let ghost mut costs: Seq<u64> = Seq::empty();
    let mut regions: u64 = 0;
    let mut i: usize = 0;
    while i < members.len()
        invariant
            i <= members@.len(),
            names == texts(members@),
            coster.ready(),
            are_regions(coster, plans@, names.take(i as int), costs),
            regions == cap64(total_of(costs)),
        decreases members@.len() - i,
    {
        let name = cte_name(members[i].as_str());
        proof {
            assert(names[i as int] == members@[i as int]@);
        }
        let region = match find_subplan(plans, name.as_str()) {
            Some(n) => n,
            None => {
                proof {
                    assert(cannot_build(coster, names[i as int], plans@));
                }
                return None;
            },
        };
        let cost = match coster.region_cost(region) {
            Some(c) => c,
            None => {
                proof {
                    assert(cannot_build(coster, names[i as int], plans@));
                }
                return None;
            },
        };
        regions = add_capped(regions, cost);
        proof {
            let next = costs.push(cost);
            assert(next.drop_last() =~= costs);
            assert(names.take(i + 1) =~= names.take(i as int).push(names[i as int]));
            assert forall|k: int| 0 <= k < names.take(i + 1).len() implies match subplan_in(
                plans@,
                cte_text(#[trigger] names.take(i + 1)[k]),
            ) {
                Some(region) => coster.prices(seq![region], Some(next[k])),
                None => false,
            } by {
                if k < i {
                    assert(names.take(i as int)[k] == names.take(i + 1)[k]);
                }
            }
            costs = next;
        }
        i = i + 1;
    }
    let total = coster.cost(plans);
    let whole = match total {
        Some(t) => if t >= regions {
            t
        } else {
            regions
        },
        None => regions,
    };
    proof {
        assert(names.take(members@.len() as int) =~= names);
        assert(are_regions(coster, plans@, names, costs));
        assert(coster.prices(plans@, total));
    }
    Some((regions, whole))
}

/// What a consumer and an answer contribute: nothing where the consumer's
/// query could not be written or planned, or its plan is incomplete.
pub open spec fn contributes<C: SubtreeCost>(coster: &C, probe: ConsumerProbe, answer: Answer, share: Share) -> bool {
    &&& probe.sql is Some
    &&& share.consumer@ == probe.consumer@
    &&& answer matches Answer::Plan(plans) && spends(coster, plans@, texts(probe.members@), share.regions, share.whole)
}

/// A consumer is left out.
pub open spec fn left_out<C: SubtreeCost>(coster: &C, probe: ConsumerProbe, answer: Answer) -> bool {
    ||| probe.sql is None
    ||| answer is Failed
    ||| (answer matches Answer::Plan(plans) && incomplete(coster, plans@, texts(probe.members@)))
}

/// `shares` is what the first `n` consumers contribute.
pub open spec fn are_shares<C: SubtreeCost>(
    coster: &C,
    probes: Seq<ConsumerProbe>,
    answers: Seq<Answer>,
    n: nat,
    shares: Seq<Share>,
) -> bool
    decreases n,
{
    if n == 0 {
        shares.len() == 0
    } else {
        ||| (shares.len() > 0 && contributes(coster, probes[n - 1], answers[n - 1], shares.last()) && are_shares(
            coster,
            probes,
            answers,
            (n - 1) as nat,
            shares.drop_last(),
        ))
        ||| (left_out(coster, probes[n - 1], answers[n - 1]) && are_shares(
            coster,
            probes,
            answers,
            (n - 1) as nat,
            shares,
        ))
    }
}

/// Some question was answered with a plain refusal to plan anything.
pub open spec fn unsupported(probes: Seq<ConsumerProbe>, answers: Seq<Answer>) -> bool {
    exists|i: int| 0 <= i < probes.len() && (#[trigger] probes[i]).sql is Some && answers[i] is Unsupported
}

/// What each member computes.
pub open spec fn computes(b: Seq<MemberBuild>) -> Seq<u64> {
    b.map_values(|m: MemberBuild| m.compute)
}

/// What the consumers spend on the members.
pub open spec fn region_costs(s: Seq<Share>) -> Seq<u64> {
    s.map_values(|x: Share| x.regions)
}

/// What writing every member costs: none unless each is priced.
pub open spec fn write_sum(b: Seq<MemberBuild>) -> Option<nat>
    decreases b.len(),
{
    if b.len() == 0 {
        Some(0)
    } else {
        match (write_sum(b.drop_last()), b.last().write) {
            (Some(t), Some(w)) => Some(t + w as nat),
            _ => None,
        }
    }
}

/// What builds and shares come to.
pub open spec fn settles(builds: Seq<MemberBuild>, shares: Seq<Share>, d: DuplicateCost) -> bool {
    &&& d.build_per_member@ == builds
    &&& d.build_once == cap64(total_of(computes(builds)))
    &&& d.per_consumer@.len() == shares.len() == d.consumer_total@.len()
    &&& forall|i: int|
        0 <= i < shares.len() ==> {
            &&& (#[trigger] d.per_consumer@[i]).consumer@ == shares[i].consumer@
            &&& d.per_consumer@[i].cost == shares[i].regions
        }
    &&& forall|i: int|
        0 <= i < shares.len() ==> {
            &&& (#[trigger] d.consumer_total@[i]).consumer@ == shares[i].consumer@
            &&& d.consumer_total@[i].cost == shares[i].whole
        }
    &&& d.duplicate == clamped(total_of(region_costs(shares)) - total_of(computes(builds)))
    &&& d.write_total == match write_sum(builds) {
        Some(t) => Some(cap64(t)),
        None => None,
    }
}

/// `x`, or the nearest machine number.
fn clamp(x: i128) -> (r: i64)
    ensures
        r == clamped(x as int),
{
    if x < i64::MIN as i128 {
        i64::MIN
    } else if x > i64::MAX as i128 {
        i64::MAX
    } else {
        x as i64
    }
}

/// What a set of Views duplicates between its consumers. None where the engine
/// plans nothing for anyone, or no consumer could be priced: that is not a
/// duplication of zero.
pub fn duplicate_cost_set<C: SubtreeCost>(
    plan: &DupPlan,
    builds: Vec<MemberBuild>,
    answers: &Vec<Answer>,
    coster: &C,
) -> (r: Option<DuplicateCost>)
    requires
        coster.ready(),
        answers@.len() == plan.consumers@.len(),
    ensures
        match r {
            Some(d) => !unsupported(plan.consumers@, answers@) && texts(d.views@) == texts(plan.order@) && exists|
                shares: Seq<Share>,
            |
                #[trigger] settles(builds@, shares, d) && shares.len() > 0 && are_shares(
                    coster,
                    plan.consumers@,
                    answers@,
                    plan.consumers@.len(),
                    shares,
                ),
            None => unsupported(plan.consumers@, answers@) || are_shares(
                coster,
                plan.consumers@,
                answers@,
                plan.consumers@.len(),
                Seq::<Share>::empty(),
            ),
        },
{
    let probes = &plan.consumers;
    let ghost mut shares: Seq<Share> = Seq::empty();
    let mut per_consumer: Vec<ConsumerCost> = Vec::new();
    let mut consumer_total: Vec<ConsumerCost> = Vec::new();
    let mut spent: u128 = 0;
    let mut i: usize = 0;
    while i < probes.len()
        invariant
            i <= probes@.len(),
            probes@ == plan.consumers@,
            answers@.len() == probes@.len(),
            coster.ready(),
            shares.len() == per_consumer@.len() == consumer_total@.len() <= i,
            forall|k: int| 0 <= k < i && (#[trigger] probes@[k]).sql is Some ==> !(answers@[k] is Unsupported),
            are_shares(coster, probes@, answers@, i as nat, shares),
            forall|k: int|
                0 <= k < shares.len() ==> {
                    &&& (#[trigger] per_consumer@[k]).consumer@ == shares[k].consumer@
                    &&& per_consumer@[k].cost == shares[k].regions
                },
            forall|k: int|
                0 <= k < shares.len() ==> {
                    &&& (#[trigger] consumer_total@[k]).consumer@ == shares[k].consumer@
                    &&& consumer_total@[k].cost == shares[k].whole
                },
            spent == total_of(region_costs(shares)),
            spent <= u64::MAX * i,
        decreases probes@.len() - i,
    {
        if probes[i].sql.is_some() {
            match &answers[i] {
                Answer::Unsupported => {
                    proof {
                        assert(probes@[i as int].sql is Some);
                    }
                    return None;
                },
                Answer::Failed => {},
                Answer::Plan(plans) => {
                    match consumer_share(&probes[i].members, plans, coster) {
                        None => {},
                        Some((regions, whole)) => {
                            let ghost share = Share { consumer: probes@[i as int].consumer, regions, whole };
                            per_consumer.push(ConsumerCost { consumer: probes[i].consumer.clone(), cost: regions });
                            consumer_total.push(ConsumerCost { consumer: probes[i].consumer.clone(), cost: whole });
                            proof {
                                let next = shares.push(share);
                                assert(next.drop_last() =~= shares);
                                assert(region_costs(next).drop_last() =~= region_costs(shares));
                                assert(region_costs(next).last() == regions);
                                assert(contributes(coster, probes@[i as int], answers@[i as int], share));
                                assert(u64::MAX * i + regions <= u64::MAX * (i + 1)) by (nonlinear_arith)
                                    requires
                                        regions <= u64::MAX,
                                ;
                                assert(u64::MAX * (i + 1) <= u128::MAX) by (nonlinear_arith)
                                    requires
                                        i < usize::MAX,
                                        usize::MAX <= u64::MAX,
                                ;
                                shares = next;
                            }
                            spent = spent + regions as u128;
                        },
                    }
                },
            }
        }
        proof {
            assert(u64::MAX * i <= u64::MAX * (i + 1)) by (nonlinear_arith);
        }
        i = i + 1;
    }
    if per_consumer.len() == 0 {
        proof {
            assert(shares =~= Seq::<Share>::empty());
        }
        return None;
    }
    let mut built_once: u128 = 0;
    let mut write_total: Option<u64> = Some(0);
    let mut j: usize = 0;
    proof {
        assert(builds@.take(0) =~= Seq::<MemberBuild>::empty());
        assert(computes(builds@.take(0)) =~= Seq::<u64>::empty());
    }
    while j < builds.len()
        invariant
            j <= builds@.len(),
            built_once == total_of(computes(builds@.take(j as int))),
            built_once <= u64::MAX * j,
            write_total == match write_sum(builds@.take(j as int)) {
                Some(t) => Some(cap64(t)),
                None => None,
            },
        decreases builds@.len() - j,
    {
        proof {
            let next = builds@.take(j + 1);
            assert(next.drop_last() =~= builds@.take(j as int));
            assert(next.last() == builds@[j as int]);
            assert(computes(next).drop_last() =~= computes(builds@.take(j as int)));
            assert(computes(next).last() == builds@[j as int].compute);
            assert(u64::MAX * j + u64::MAX == u64::MAX * (j + 1)) by (nonlinear_arith);
            assert(u64::MAX * (j + 1) <= u128::MAX) by (nonlinear_arith)
                requires
                    j < usize::MAX,
                    usize::MAX <= u64::MAX,
            ;
        }
        built_once = built_once + builds[j].compute as u128;
        write_total = match (write_total, builds[j].write) {
            (Some(t), Some(w)) => Some(add_capped(t, w)),
            _ => None,
        };
        j = j + 1;
    }
    proof {
        assert(builds@.take(builds@.len() as int) =~= builds@);
    }
    let build_once = if built_once <= u64::MAX as u128 {
        built_once as u64
    } else {
        u64::MAX
    };
    let duplicate = difference(spent, built_once);
    let d = DuplicateCost {
        views: copy_texts(&plan.order),
        build_once,
        build_per_member: builds,
        per_consumer,
        consumer_total,
        duplicate,
        write_total,
    };
    proof {
        assert(settles(d.build_per_member@, shares, d));
    }
    Some(d)
}

/// `a - b`, or the nearest machine number.
fn difference(a: u128, b: u128) -> (r: i64)
    ensures
        r == clamped(a - b),
{
    if a >= b {
        if a - b > i64::MAX as u128 {
            i64::MAX
        } else {
            (a - b) as i64
        }
    } else if b - a > i64::MAX as u128 {
        i64::MIN
    } else {
        -((b - a) as i64)
    }
}

/// A write is priced for a set only where it is priced for every member.
pub proof fn write_total_is_all_or_nothing(builds: Seq<MemberBuild>)
    ensures
        write_sum(builds) is Some <==> forall|i: int| 0 <= i < builds.len() ==> (#[trigger] builds[i]).write is Some,
    decreases builds.len(),
{
    if builds.len() > 0 {
        let head = builds.drop_last();
        write_total_is_all_or_nothing(head);
        assert forall|i: int| 0 <= i < head.len() implies head[i] == #[trigger] builds[i] by {}
        assert(forall|i: int| 0 <= i < head.len() ==> #[trigger] head[i] == builds[i]);
        if write_sum(builds) is Some {
            assert forall|i: int| 0 <= i < builds.len() implies (#[trigger] builds[i]).write is Some by {
                if i < head.len() {
                    assert(head[i].write is Some);
                }
            }
        } else if forall|i: int| 0 <= i < builds.len() ==> (#[trigger] builds[i]).write is Some {
            assert forall|i: int| 0 <= i < head.len() implies (#[trigger] head[i]).write is Some by {
                assert(builds[i].write is Some);
            }
            assert(builds[builds.len() - 1].write is Some);
        }
    }
}

/// Where every consumer spends on the members what building them once takes,
/// all of the copies but one are duplicates.
pub proof fn equal_copies_leave_all_but_one(builds: Seq<MemberBuild>, shares: Seq<Share>, d: DuplicateCost, once: u64)
    requires
        settles(builds, shares, d),
        shares.len() > 0,
        total_of(computes(builds)) == once,
        forall|i: int| 0 <= i < shares.len() ==> (#[trigger] shares[i]).regions == once,
    ensures
        d.duplicate == clamped((shares.len() - 1) * once),
{
    let costs = region_costs(shares);
    assert forall|i: int| 0 <= i < costs.len() implies (#[trigger] costs[i]) == once by {
        assert(costs[i] == shares[i].regions);
    }
    equal_total(costs, once);
    assert(costs.len() * once - once == (costs.len() - 1) * once) by (nonlinear_arith);
}

proof fn equal_total(costs: Seq<u64>, once: u64)
    requires
        forall|i: int| 0 <= i < costs.len() ==> (#[trigger] costs[i]) == once,
    ensures
        total_of(costs) == costs.len() * once,
    decreases costs.len(),
{
    if costs.len() > 0 {
        let head = costs.drop_last();
        assert forall|i: int| 0 <= i < head.len() implies (#[trigger] head[i]) == once by {
            assert(head[i] == costs[i]);
        }
        equal_total(head, once);
        assert((costs.len() - 1) * once + once == costs.len() * once) by (nonlinear_arith);
    } else {
        assert(0 * once == 0) by (nonlinear_arith);
    }
}

/// A consumer's whole plan is worth no less than its members' regions in it.
pub proof fn a_whole_covers_its_regions<C: SubtreeCost>(
    coster: &C,
    plans: Seq<PlanNode>,
    members: Seq<Text>,
    regions: u64,
    whole: u64,
)
    requires
        spends(coster, plans, members, regions, whole),
    ensures
        regions <= whole,
{
}

impl DuplicateCost {
    /// What materializing the set would save: what it duplicates, less what
    /// writing it costs where that is known.
    pub fn net(&self) -> (r: i64)
        ensures
            r == clamped(
                self.duplicate - match self.write_total {
                    Some(w) => w as int,
                    None => 0,
                },
            ),
    {
        match self.write_total {
            Some(w) => clamp(self.duplicate as i128 - w as i128),
            None => self.duplicate,
        }
    }
}

/// Costs add up: every one counts, whatever its place.
pub proof fn every_cost_counts(a: Seq<u64>, b: Seq<u64>, x: u64)
    ensures
        total_of(a + b) == total_of(a) + total_of(b),
        total_of(seq![x]) == x,
        total_of(Seq::<u64>::empty()) == 0,
    decreases b.len(),
{
    assert(seq![x].drop_last() =~= Seq::<u64>::empty());
    assert(total_of(seq![x]) == total_of(Seq::<u64>::empty()) + x);
    if b.len() == 0 {
        assert(a + b =~= a);
    } else {
        every_cost_counts(a, b.drop_last(), x);
        assert((a + b).drop_last() =~= a + b.drop_last());
    }
}

/// The model prices a plan at one cost.
pub open spec fn prices_once<C: SubtreeCost>(coster: &C) -> bool {
    forall|roots: Seq<PlanNode>, a: Option<u64>, b: Option<u64>|
        #[trigger] coster.prices(roots, a) && #[trigger] coster.prices(roots, b) ==> a == b
}

/// Each of the models prices a plan at one cost.
pub proof fn every_model_prices_once(learned: &LearnedSubtreeCost, rows: &CardinalitySubtreeCost, count: &OperatorCountSubtreeCost)
    ensures
        prices_once(learned),
        prices_once(rows),
        prices_once(count),
{
    assert forall|roots: Seq<PlanNode>, a: Option<u64>, b: Option<u64>|
        #[trigger] learned.prices(roots, a) && #[trigger] learned.prices(roots, b) implies a == b by {
        let ops = learned.0@.ops;
        let x = choose|total: OperatorSamples| #[trigger] is_total(ops, total) && a == plan_cost(learned.0@, total, roots);
        let y = choose|total: OperatorSamples| #[trigger] is_total(ops, total) && b == plan_cost(learned.0@, total, roots);
        crate::learned::total_is_unique(ops, x, y);
    }
}

proof fn regions_are_unique<C: SubtreeCost>(
    coster: &C,
    plans: Seq<PlanNode>,
    members: Seq<Text>,
    a: Seq<u64>,
    b: Seq<u64>,
)
    requires
        prices_once(coster),
        are_regions(coster, plans, members, a),
        are_regions(coster, plans, members, b),
    ensures
        a == b,
{
    assert forall|i: int| 0 <= i < a.len() implies a[i] == b[i] by {
        let m = members[i];
        assert(subplan_in(plans, cte_text(members[i])) is Some);
        let region = subplan_in(plans, cte_text(m))->0;
        assert(coster.prices(seq![region], Some(a[i])));
        assert(coster.prices(seq![region], Some(b[i])));
    }
    assert(a =~= b);
}

/// A consumer that can see one more member spends on the members what that
/// member's region in its plan costs more; one that sees none spends nothing on
/// them. So what it spends is the sum over all of its members.
pub proof fn a_further_member_adds_its_region<C: SubtreeCost>(
    coster: &C,
    plans: Seq<PlanNode>,
    members: Seq<Text>,
    member: Text,
    region: PlanNode,
    cost: u64,
    few: (u64, u64),
    more: (u64, u64),
    none: (u64, u64),
)
    requires
        prices_once(coster),
        spends(coster, plans, members, few.0, few.1),
        spends(coster, plans, members.push(member), more.0, more.1),
        spends(coster, plans, Seq::<Text>::empty(), none.0, none.1),
        subplan_in(plans, cte_text(member)) == Some(region),
        coster.prices(seq![region], Some(cost)),
    ensures
        few.0 + cost <= u64::MAX ==> more.0 == few.0 + cost,
        few.0 + cost > u64::MAX ==> more.0 == u64::MAX,
        more.0 >= cost,
        none.0 == 0,
{
    let (p, t) = choose|costs: Seq<u64>, total: Option<u64>|
        #[trigger] are_regions(coster, plans, members, costs) && #[trigger] coster.prices(plans, total) && few.0 == cap64(
            total_of(costs),
        ) && few.1 == match total {
            Some(t) => larger(t, few.0),
            None => few.0,
        };
    let wide = members.push(member);
    let (q, u) = choose|costs: Seq<u64>, total: Option<u64>|
        #[trigger] are_regions(coster, plans, wide, costs) && #[trigger] coster.prices(plans, total) && more.0 == cap64(
            total_of(costs),
        ) && more.1 == match total {
            Some(t) => larger(t, more.0),
            None => more.0,
        };
    let want = p.push(cost);
    assert forall|i: int| 0 <= i < wide.len() implies match subplan_in(plans, cte_text(#[trigger] wide[i])) {
        Some(region) => coster.prices(seq![region], Some(want[i])),
        None => false,
    } by {
        if i < members.len() {
            assert(wide[i] == members[i]);
        }
    }
    assert(are_regions(coster, plans, wide, want));
    regions_are_unique(coster, plans, wide, q, want);
    assert(want.drop_last() =~= p);
    let (e, v) = choose|costs: Seq<u64>, total: Option<u64>|
        #[trigger] are_regions(coster, plans, Seq::<Text>::empty(), costs) && #[trigger] coster.prices(plans, total) && none.0
            == cap64(total_of(costs)) && none.1 == match total {
            Some(t) => larger(t, none.0),
            None => none.0,
        };
    assert(e.len() == 0);
}

/// A consumer's whole plan is worth what the model says of it, but never less
/// than its members; where the model says nothing, it is worth its members.
pub proof fn a_whole_is_priced_or_its_members<C: SubtreeCost>(
    coster: &C,
    plans: Seq<PlanNode>,
    members: Seq<Text>,
    regions: u64,
    whole: u64,
    total: Option<u64>,
)
    requires
        prices_once(coster),
        spends(coster, plans, members, regions, whole),
        coster.prices(plans, total),
    ensures
        whole >= regions,
        total matches Some(t) ==> whole >= t && (whole == t || whole == regions),
        total is None ==> whole == regions,
{
}

/// What a member's build costs is the price of its region in the probe's plan,
/// and its write the price of writing the region's rows; without a path or
/// rows no write is priced.
pub proof fn a_build_is_its_region<C: SubtreeCost>(
    coster: &C,
    view: Text,
    plans: Seq<PlanNode>,
    path: Option<Text>,
    compute: u64,
    write: Option<u64>,
    region: PlanNode,
    priced: Option<u64>,
)
    requires
        prices_once(coster),
        built(coster, view, plans, path, compute, write),
        subplan_in(plans, cte_text(view)) == Some(region),
        coster.prices(seq![region], priced),
    ensures
        priced == Some(compute),
        path is None ==> write is None,
        crate::plan::rows_of(region) is None ==> write is None,
        path is Some && crate::plan::rows_of(region) is Some ==> coster.prices_write(
            path->0,
            seq![region],
            crate::plan::rows_of(region)->0,
            write,
        ),
{
    assert(coster.prices(seq![region], Some(compute)));
}

/// One consumer more duplicates what it spends on the members, one member more
/// takes what building it once costs off, and its write is written too. A lone
/// copy of nothing that is built duplicates itself.
pub proof fn copies_and_builds_are_settled(
    builds: Seq<MemberBuild>,
    build: MemberBuild,
    shares: Seq<Share>,
    share: Share,
    d: DuplicateCost,
    with_share: DuplicateCost,
    with_build: DuplicateCost,
    bare: DuplicateCost,
)
    requires
        settles(builds, shares, d),
        settles(builds, shares.push(share), with_share),
        settles(builds.push(build), shares, with_build),
        settles(Seq::<MemberBuild>::empty(), seq![share], bare),
        i64::MIN < d.duplicate < i64::MAX,
        i64::MIN < with_build.duplicate,
        with_share.duplicate < i64::MAX,
    ensures
        with_share.duplicate == d.duplicate + share.regions,
        with_build.duplicate == d.duplicate - build.compute,
        d.build_once + build.compute <= u64::MAX ==> with_build.build_once == d.build_once + build.compute,
        with_share.build_once == d.build_once,
        with_share.write_total == d.write_total,
        d.write_total is Some && build.write is Some && d.write_total->0 + build.write->0 <= u64::MAX
            ==> with_build.write_total is Some && with_build.write_total->0 == d.write_total->0 + build.write->0,
        d.write_total is None || build.write is None ==> with_build.write_total is None,
        share.regions <= i64::MAX ==> bare.duplicate == share.regions,
        bare.build_once == 0,
        bare.write_total == Some(0u64),
{
    let more = shares.push(share);
    assert(region_costs(more).drop_last() =~= region_costs(shares));
    assert(region_costs(more).last() == share.regions);
    let wide = builds.push(build);
    assert(computes(wide).drop_last() =~= computes(builds));
    assert(computes(wide).last() == build.compute);
    assert(wide.drop_last() =~= builds);
    let none = Seq::<MemberBuild>::empty();
    assert(computes(none) =~= Seq::<u64>::empty());
    assert(region_costs(seq![share]) =~= seq![share.regions]);
    every_cost_counts(Seq::<u64>::empty(), Seq::<u64>::empty(), share.regions);
}

/// What a report says adds up in itself: what is duplicated is what the
/// consumers spend on the members less what building each member costs, and
/// each consumer's entry is about that consumer.
pub proof fn a_settlement_adds_up(builds: Seq<MemberBuild>, shares: Seq<Share>, d: DuplicateCost, i: int)
    requires
        settles(builds, shares, d),
        0 <= i < shares.len(),
    ensures
        d.duplicate == clamped(
            total_of(d.per_consumer@.map_values(|c: ConsumerCost| c.cost)) - total_of(
                d.build_per_member@.map_values(|b: MemberBuild| b.compute),
            ),
        ),
        d.per_consumer@[i].consumer@ == shares[i].consumer@ && d.consumer_total@[i].consumer@ == shares[i].consumer@,
        shares[i].regions < shares[i].whole ==> d.per_consumer@[i].cost < d.consumer_total@[i].cost,
{
    assert(d.per_consumer@.map_values(|c: ConsumerCost| c.cost) =~= region_costs(shares)) by {
        assert forall|k: int| 0 <= k < shares.len() implies d.per_consumer@[k].cost == region_costs(shares)[k] by {
            assert(d.per_consumer@[k].consumer@ == shares[k].consumer@);
        }
    }
    assert(d.build_per_member@.map_values(|b: MemberBuild| b.compute) =~= computes(builds));
    assert(d.consumer_total@[i].cost == shares[i].whole);
    assert(d.per_consumer@[i].cost == shares[i].regions);
}

/// `view` and `body` are those of the member at `i`, which is inlined into the
/// consumer's query.
pub open spec fn inlined_from(
    g: GraphModel,
    order: Seq<Text>,
    bodies: Seq<Text>,
    consumer: Text,
    view: Text,
    body: Text,
    i: int,
) -> bool {
    frontier(g, order[i]).contains(consumer) && view == order[i] && body == bodies[i]
}

/// `view` and `body` are those of some member, at `least` or behind it and
/// before `n`, which is inlined into the consumer's query.
pub open spec fn inlined_from_one(
    g: GraphModel,
    order: Seq<Text>,
    bodies: Seq<Text>,
    consumer: Text,
    view: Text,
    body: Text,
    least: int,
    n: nat,
) -> bool {
    exists|i: int| least <= i < n && #[trigger] inlined_from(g, order, bodies, consumer, view, body, i)
}

/// What is inlined into a consumer's query are the members on whose frontier it
/// lies, in their order, each with its own body.
pub proof fn a_consumer_sees_what_is_inlined_into_it(
    g: GraphModel,
    order: Seq<Text>,
    bodies: Seq<Text>,
    consumer: Text,
    n: nat,
)
    requires
        n <= order.len(),
        n <= bodies.len(),
    ensures
        visible_to(g, order, consumer, n).len() == visible_bodies(g, order, bodies, consumer, n).len() <= n,
        forall|i: int| 0 <= i < n && frontier(g, #[trigger] order[i]).contains(consumer) ==> exists|k: int|
            0 <= k <= i && k < visible_to(g, order, consumer, n).len() && #[trigger] inlined_from(
                g,
                order,
                bodies,
                consumer,
                visible_to(g, order, consumer, n)[k],
                visible_bodies(g, order, bodies, consumer, n)[k],
                i,
            ),
        forall|k: int|
            0 <= k < visible_to(g, order, consumer, n).len() ==> inlined_from_one(
                g,
                order,
                bodies,
                consumer,
                #[trigger] visible_to(g, order, consumer, n)[k],
                visible_bodies(g, order, bodies, consumer, n)[k],
                k,
                n,
            ),
    decreases n,
{
    if n > 0 {
        let m: nat = (n - 1) as nat;
        a_consumer_sees_what_is_inlined_into_it(g, order, bodies, consumer, m);
        let seen = visible_to(g, order, consumer, n);
        let with = visible_bodies(g, order, bodies, consumer, n);
        let old_seen = visible_to(g, order, consumer, m);
        let old_with = visible_bodies(g, order, bodies, consumer, m);
        assert forall|i: int| 0 <= i < n && frontier(g, #[trigger] order[i]).contains(consumer) implies exists|k: int|
            0 <= k <= i && k < seen.len() && #[trigger] inlined_from(g, order, bodies, consumer, seen[k], with[k], i) by {
            if i < m {
                let k = choose|k: int|
                    0 <= k <= i && k < old_seen.len() && #[trigger] inlined_from(
                        g,
                        order,
                        bodies,
                        consumer,
                        old_seen[k],
                        old_with[k],
                        i,
                    );
                assert(inlined_from(g, order, bodies, consumer, seen[k], with[k], i));
            } else {
                let k = old_seen.len() as int;
                assert(inlined_from(g, order, bodies, consumer, seen[k], with[k], i));
            }
        }
        assert forall|k: int| 0 <= k < seen.len() implies inlined_from_one(
            g,
            order,
            bodies,
            consumer,
            #[trigger] seen[k],
            with[k],
            k,
            n,
        ) by {
            if k < old_seen.len() {
                assert(inlined_from_one(g, order, bodies, consumer, old_seen[k], old_with[k], k, m));
                let i = choose|i: int|
                    k <= i < m && #[trigger] inlined_from(g, order, bodies, consumer, old_seen[k], old_with[k], i);
                assert(inlined_from(g, order, bodies, consumer, seen[k], with[k], i));
            } else {
                assert(inlined_from(g, order, bodies, consumer, seen[k], with[k], m as int));
            }
        }
    }
}

/// The probe has one column for each member, in order, and it reads the member
/// by the name that the member is inlined under.
pub proof fn every_member_is_probed(views: Seq<Text>, n: nat)
    requires
        n <= views.len(),
    ensures
        probe_columns(views, n).len() == n,
        forall|i: int|
            0 <= i < n ==> #[trigger] probe_columns(views, n)[i] == "(SELECT count(*) FROM "@ + cte_text(views[i])
                + ") AS c"@ + decimal(i as nat),
    decreases n,
{
    if n > 0 {
        every_member_is_probed(views, (n - 1) as nat);
        assert forall|i: int| 0 <= i < n implies #[trigger] probe_columns(views, n)[i] == "(SELECT count(*) FROM "@
            + cte_text(views[i]) + ") AS c"@ + decimal(i as nat) by {
            if i < n - 1 {
                assert(probe_columns(views, n)[i] == probe_columns(views, (n - 1) as nat)[i]);
            }
        }
    }
}

/// Every View is put before a query, one after the other: what stands there
/// once `k` of them do is what the next one is put before. Without Views the
/// query stays.
pub proof fn every_view_is_put_before(
    sql: Text,
    views: Seq<Text>,
    bodies: Seq<Text>,
    dialect: Dialect,
    n: nat,
    k: nat,
)
    requires
        n <= views.len(),
        n <= bodies.len(),
        wrapped_views(sql, views, bodies, dialect, n) is Some,
    ensures
        wrapped_views(sql, views, bodies, dialect, 0) == Some(sql),
        k < n ==> {
            &&& wrapped_views(sql, views, bodies, dialect, k) is Some
            &&& wrapped_views(sql, views, bodies, dialect, k + 1) == wrapped_in_cte(
                wrapped_views(sql, views, bodies, dialect, k)->0,
                cte_text(views[k as int]),
                bodies[k as int],
                dialect,
            )
            &&& wrapped_views(sql, views, bodies, dialect, k + 1) is Some
        },
    decreases n,
{
    if n > 0 {
        every_view_is_put_before(sql, views, bodies, dialect, (n - 1) as nat, k);
        assert(((k + 1) - 1) as nat == k);
    }
}

/// No more consumers contribute than there are; all of them where none is left
/// out.
proof fn shares_are_as_many_as_contribute<C: SubtreeCost>(
    coster: &C,
    probes: Seq<ConsumerProbe>,
    answers: Seq<Answer>,
    n: nat,
    shares: Seq<Share>,
)
    requires
        are_shares(coster, probes, answers, n, shares),
    ensures
        shares.len() <= n,
        (forall|i: int| 0 <= i < n ==> !left_out(coster, #[trigger] probes[i], answers[i])) ==> shares.len() == n,
    decreases n,
{
    if n > 0 {
        let m: nat = (n - 1) as nat;
        if left_out(coster, probes[n - 1], answers[n - 1]) && are_shares(coster, probes, answers, m, shares) {
            shares_are_as_many_as_contribute(coster, probes, answers, m, shares);
        } else {
            shares_are_as_many_as_contribute(coster, probes, answers, m, shares.drop_last());
        }
    }
}

/// The share of the consumer at `i`, which is not left out.
proof fn the_share_of<C: SubtreeCost>(
    coster: &C,
    probes: Seq<ConsumerProbe>,
    answers: Seq<Answer>,
    n: nat,
    shares: Seq<Share>,
    i: int,
) -> (k: int)
    requires
        0 <= i < n,
        are_shares(coster, probes, answers, n, shares),
        !left_out(coster, probes[i], answers[i]),
    ensures
        0 <= k < shares.len(),
        contributes(coster, probes[i], answers[i], shares[k]),
    decreases n,
{
    let m: nat = (n - 1) as nat;
    if left_out(coster, probes[n - 1], answers[n - 1]) && are_shares(coster, probes, answers, m, shares) {
        the_share_of(coster, probes, answers, m, shares, i)
    } else if i == m {
        shares.len() - 1
    } else {
        the_share_of(coster, probes, answers, m, shares.drop_last(), i)
    }
}

/// The consumer whose share stands at `k`.
proof fn the_consumer_of<C: SubtreeCost>(
    coster: &C,
    probes: Seq<ConsumerProbe>,
    answers: Seq<Answer>,
    n: nat,
    shares: Seq<Share>,
    k: int,
) -> (i: int)
    requires
        0 <= k < shares.len(),
        are_shares(coster, probes, answers, n, shares),
    ensures
        0 <= i < n,
        contributes(coster, probes[i], answers[i], shares[k]),
    decreases n,
{
    let m: nat = (n - 1) as nat;
    if left_out(coster, probes[n - 1], answers[n - 1]) && are_shares(coster, probes, answers, m, shares) {
        the_consumer_of(coster, probes, answers, m, shares, k)
    } else if k == shares.len() - 1 {
        n - 1
    } else {
        the_consumer_of(coster, probes, answers, m, shares.drop_last(), k)
    }
}

/// The share is that of one of the first `n` consumers.
pub open spec fn contributed_by_one<C: SubtreeCost>(
    coster: &C,
    probes: Seq<ConsumerProbe>,
    answers: Seq<Answer>,
    n: nat,
    share: Share,
) -> bool {
    exists|i: int| 0 <= i < n && #[trigger] contributes(coster, probes[i], answers[i], share)
}

/// A consumer that is not left out contributes its share, and every share is
/// that of a consumer. Where none is left out there are as many as consumers.
pub proof fn every_complete_consumer_contributes<C: SubtreeCost>(
    coster: &C,
    probes: Seq<ConsumerProbe>,
    answers: Seq<Answer>,
    n: nat,
    shares: Seq<Share>,
)
    requires
        n <= probes.len(),
        n <= answers.len(),
        are_shares(coster, probes, answers, n, shares),
    ensures
        shares.len() <= n,
        forall|i: int| 0 <= i < n && !left_out(coster, #[trigger] probes[i], answers[i]) ==> exists|k: int|
            0 <= k < shares.len() && #[trigger] contributes(coster, probes[i], answers[i], shares[k]),
        forall|k: int| 0 <= k < shares.len() ==> contributed_by_one(coster, probes, answers, n, #[trigger] shares[k]),
        (forall|i: int| 0 <= i < n ==> !left_out(coster, #[trigger] probes[i], answers[i])) ==> shares.len() == n,
{
    shares_are_as_many_as_contribute(coster, probes, answers, n, shares);
    assert forall|i: int| 0 <= i < n && !left_out(coster, #[trigger] probes[i], answers[i]) implies exists|k: int|
        0 <= k < shares.len() && #[trigger] contributes(coster, probes[i], answers[i], shares[k]) by {
        let k = the_share_of(coster, probes, answers, n, shares, i);
        assert(contributes(coster, probes[i], answers[i], shares[k]));
    }
    assert forall|k: int| 0 <= k < shares.len() implies contributed_by_one(
        coster,
        probes,
        answers,
        n,
        #[trigger] shares[k],
    ) by {
        let i = the_consumer_of(coster, probes, answers, n, shares, k);
        assert(contributes(coster, probes[i], answers[i], shares[k]));
    }
}

/// A consumer contributes at least what it spends on the members, and that is
/// what it spends altogether where the model prices the whole lower.
pub proof fn a_whole_is_no_less_than_its_members<C: SubtreeCost>(
    coster: &C,
    plans: Seq<PlanNode>,
    members: Seq<Text>,
    regions: u64,
    whole: u64,
    total: u64,
)
    requires
        prices_once(coster),
        spends(coster, plans, members, regions, whole),
        coster.prices(plans, Some(total)),
    ensures
        whole >= regions,
        whole >= total,
        whole == regions || whole == total,
{
}

/// Contracting takes the Views out that lie between the members and a target,
/// and leaves the members themselves where they are read.
pub proof fn contracting_leaves_the_members(
    g: GraphModel,
    dialect: Dialect,
    set: Set<Text>,
    targets: Set<Text>,
    after: GraphModel,
    id: Text,
    d: Text,
    member: Text,
)
    requires
        graph_contracted(g, dialect, set, targets, after),
        g.contains_key(id),
    ensures
        after.contains_key(id),
        !targets.contains(id) ==> after[id] == g[id],
        targets.contains(id) && set.contains(member) && g[id].depends_on.contains(member) ==> after[id].depends_on.contains(
            member,
        ),
        targets.contains(id) && set.contains(member) && !set.contains(d) && is_view(g, d) && transitive_dep(g, d, member)
            && grounded(g, d) ==> !after[id].depends_on.contains(d),
{
    if targets.contains(id) {
        let pick = between_set(g, set);
        assert(contracted(g, dialect, pick, g[id], after[id]));
        if set.contains(member) && g[id].depends_on.contains(member) {
            contracting_leaves_the_other_reads(g, dialect, pick, g[id], after[id], member);
        }
        if set.contains(member) && !set.contains(d) && is_view(g, d) && transitive_dep(g, d, member) && grounded(g, d) {
            assert(pick(d));
        }
    }
}

/// A consumer's query reads a member by the name that the member is inlined
/// under, and has the member's body before it under that name.
pub proof fn a_consumer_reads_a_member_by_its_name(
    g: GraphModel,
    consumer: Text,
    view: Text,
    body: Text,
    dialect: Dialect,
)
    ensures
        g.contains_key(consumer) ==> consumer_text(g, consumer, seq![view], seq![body], dialect) == match rewritten_refs(
            g[consumer].query_text,
            seq![(view, "dee_dup_"@ + coded(view))],
            dialect,
        ) {
            Some(s) => wrapped_in_cte(s, "dee_dup_"@ + coded(view), body, dialect),
            None => None,
        },
        !g.contains_key(consumer) ==> consumer_text(g, consumer, seq![view], seq![body], dialect) is None,
{
    assert(cte_map(seq![view]) =~= seq![(view, cte_text(view))]);
    if g.contains_key(consumer) {
        match rewritten_refs(g[consumer].query_text, cte_map(seq![view]), dialect) {
            Some(s) => {
                assert(wrapped_views(s, seq![view], seq![body], dialect, 0) == Some(s));
                assert(seq![view][0] == view && seq![body][0] == body);
                assert(wrapped_views(s, seq![view], seq![body], dialect, 1) == wrapped_in_cte(
                    s,
                    cte_text(view),
                    body,
                    dialect,
                ));
            },
            None => {},
        }
    }
}

} // verus!
