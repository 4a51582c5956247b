//! The search for the expressions worth materializing in a fused query.
//!
//! The search is a machine that whoever runs the graph steps: before a run it
//! says what to try, after a run it is told how that went. What has to be asked
//! of the engine in between is said here and read here; asking is not done
//! here.

use vstd::prelude::*;
use vstd::string::*;

use crate::chain::{flip, flip_changes_what_is_named, flipped, odd_times};
use crate::combo::{objective_name, CostedCombo, HmpObjective, Scored};
use crate::common::OptimizerError;
use crate::dag::{Dag, GraphModel};
use crate::fused::chain_nodes_are_distinct;
use crate::fusion::{
    bare, build_fused_sql, can_build, chain_ids, fused_text, fusion_of, plan_fusion, FusionPlan, MaterializeRule,
};
use crate::nodefusion::{
    configured_rule, count_materialized, count_views, materialized_count, refuses, rewrites, view_count, FusionReport,
    NodeFusionPass,
};
use crate::order::listing;
use crate::search::{rank_scores, score_le, score_models, SingletonCost};
use crate::signature::{dag_signature, is_signature};
use crate::sql::{bare_table_name, dialect_for_db, named_dialect, text_in, unicode_lower, Dialect};
use crate::step::{appended, cost_of, furthest, next, noted, noting_keeps_distinct, run_cost, succ, IterationStat, Learned, RunCost, RunReport, SearchPhase};
use crate::text::{contains_text, copy_texts, join, joined, texts, Text};

verus! {

/// A priced set of expressions.
#[derive(Debug)]
pub struct NodeFusionCandidate {
    /// The nodes whose hint differs from the default rule's.
    pub flips: Vec<String>,
    /// The nodes to materialize.
    pub set: Vec<String>,
    /// The work it removes, against the default rule.
    pub cost: i64,
    /// The work and the waiting that are left, where that could be predicted.
    pub makespan: Option<i64>,
    /// How many members are spooled one after another.
    pub stages: usize,
}

/// The set that a trial in progress materializes.
#[derive(Debug)]
pub struct NodeFusionInFlight {
    pub set: Vec<String>,
    pub sig: String,
    pub makespan: Option<i64>,
}

/// Why there is nothing to search.
#[derive(Debug, Clone, Copy, PartialEq, Eq, Structural)]
pub enum NothingToSearch {
    NotFusable,
    NothingDecidable,
    NothingPriced,
    DefaultUnpriced,
    Unresponsive,
    NoFlipHelps,
    NoSetHelps,
}

/// The reason in words.
pub open spec fn reason_text(r: NothingToSearch) -> Text {
    match r {
        NothingToSearch::NotFusable => "this DAG cannot be fused, so there is no WITH chain to search"@,
        NothingToSearch::NothingDecidable => "no CTE in the fused query has more than one reader, so every one of them is computed once whichever way the hint goes"@,
        NothingToSearch::NothingPriced => "no CTE could be priced -- the engine answered no EXPLAIN, or the cost model has no constants fitted for this backend yet"@,
        NothingToSearch::DefaultUnpriced => "the default fusion could not be priced, so there is nothing to measure candidates against"@,
        NothingToSearch::Unresponsive => "this engine plans the fused query identically whether the CTEs the search may decide about are MATERIALIZED or not, so there is nothing for a cost-based rule to find. DuckDB is such an engine: it already materializes a CTE referenced more than once, which is exactly the set of CTEs that are decidable, so the hint asks for what it was going to do anyway"@,
        NothingToSearch::NoFlipHelps => "no single flip of the default rule removes any work, so there is no ranking to search from"@,
        NothingToSearch::NoSetHelps => "no candidate set removes work, once its spool is charged"@,
    }
}

impl NothingToSearch {
    /// The reason in words.
    pub fn text(self) -> (r: &'static str)
        ensures
            r@ == reason_text(self),
    {
        match self {
            NothingToSearch::NotFusable => "this DAG cannot be fused, so there is no WITH chain to search",
            NothingToSearch::NothingDecidable => "no CTE in the fused query has more than one reader, so every one of them is computed once whichever way the hint goes",
            NothingToSearch::NothingPriced => "no CTE could be priced -- the engine answered no EXPLAIN, or the cost model has no constants fitted for this backend yet",
            NothingToSearch::DefaultUnpriced => "the default fusion could not be priced, so there is nothing to measure candidates against",
            NothingToSearch::Unresponsive => "this engine plans the fused query identically whether the CTEs the search may decide about are MATERIALIZED or not, so there is nothing for a cost-based rule to find. DuckDB is such an engine: it already materializes a CTE referenced more than once, which is exactly the set of CTEs that are decidable, so the hint asks for what it was going to do anyway",
            NothingToSearch::NoFlipHelps => "no single flip of the default rule removes any work, so there is no ranking to search from",
            NothingToSearch::NoSetHelps => "no candidate set removes work, once its spool is charged",
        }
    }
}

/// `r` is the fusion of the graph with exactly `set` materialized, and its
/// query; none where there is none.
pub open spec fn queries(dag: &Dag, set: &Vec<String>, r: Option<(FusionPlan, String)>) -> bool {
    let dialect = named_dialect(unicode_lower(dag.db@));
    match r {
        Some((p, sql)) => {
            &&& fusion_of(dag.nodes@, dialect, MaterializeRule::Exact(set), p)
            &&& can_build(dag.nodes@, dialect, p)
            &&& sql@ == fused_text(dag.nodes@, dialect, p)
        },
        None => exists|why: Text| #[trigger] refuses(dag.nodes@, dialect, MaterializeRule::Exact(set), why),
    }
}

/// The query to ask the engine to plan in order to price `set`, with the plan
/// of the fusion behind it. None where there is no such query.
pub fn fused_query_for(dag: &Dag, set: &Vec<String>) -> (r: Option<(FusionPlan, String)>)
    requires
        dag.wf(),
    ensures
        queries(dag, set, r),
        r matches Some((p, _)) ==> chain_ids(p.ctes@).no_duplicates(),
{
    let dialect = dialect_for_db(dag.db.as_str());
    let plan = match plan_fusion(dag, &MaterializeRule::Exact(set)) {
        Ok(p) => p,
        Err(why) => {
            proof {
                assert(refuses(dag.nodes@, dialect, MaterializeRule::Exact(set), why@));
            }
            return None;
        },
    };
    proof {
        chain_nodes_are_distinct(dag.nodes@, dialect, MaterializeRule::Exact(set), plan);
    }
    match build_fused_sql(dag, &plan, dialect) {
        Ok(f) => Some((plan, f.sql)),
        Err(why) => {
            proof {
                assert(fusion_of(dag.nodes@, dialect, MaterializeRule::Exact(set), plan));
                assert(refuses(dag.nodes@, dialect, MaterializeRule::Exact(set), why@));
            }
            None
        },
    }
}

/// The query whose plan says what each expression of `plan` costs: that with
/// every one of them materialized.
pub fn probe_query(dag: &Dag, plan: &FusionPlan) -> (r: Option<(FusionPlan, String)>)
    requires
        dag.wf(),
    ensures
        exists|all: Vec<String>| texts(all@) == chain_ids(plan.ctes@) && #[trigger] queries(dag, &all, r),
        r matches Some((p, _)) ==> chain_ids(p.ctes@).no_duplicates(),
{
    let mut all: Vec<String> = Vec::new();
    let mut i: usize = 0;
    while i < plan.ctes.len()
        invariant
            i <= plan.ctes@.len(),
            all@.len() == i,
            forall|k: int| 0 <= k < i ==> (#[trigger] all@[k])@ == plan.ctes@[k].node_id@,
        decreases plan.ctes@.len() - i,
    {
        all.push(plan.ctes[i].node_id.clone());
        i = i + 1;
    }
    proof {
        assert(texts(all@) =~= chain_ids(plan.ctes@));
    }
    fused_query_for(dag, &all)
}

/// Those of the first `n` nodes whose own flip removes work, and how much.
pub open spec fn helpful(ids: Seq<Text>, scored: Seq<Option<Scored>>, n: nat) -> Seq<(Text, i128)>
    decreases n,
{
    if n == 0 {
        Seq::<(Text, i128)>::empty()
    } else {
        let rest = helpful(ids, scored, (n - 1) as nat);
        match scored[n - 1] {
            Some(s) => if s.cost > 0 {
                rest.push((ids[n - 1], s.cost as i128))
            } else {
                rest
            },
            None => rest,
        }
    }
}

/// The nodes whose own flip removes work, the most first.
pub fn rank_flips(ids: &Vec<String>, scored: &Vec<Option<Scored>>) -> (r: Vec<SingletonCost>)
    requires
        ids@.len() == scored@.len(),
    ensures
        crate::order::stably_sorted(score_models(r@), helpful(texts(ids@), scored@, ids@.len()), score_le()),
        forall|i: int| 0 <= i < r@.len() ==> (#[trigger] r@[i]).cost > 0,
{
    let ghost names = texts(ids@);
    let mut out: Vec<SingletonCost> = Vec::new();
    let mut i: usize = 0;
    proof {
        assert(score_models(out@) =~= helpful(names, scored@, 0));
    }
    while i < ids.len()
        invariant
            i <= ids@.len() == scored@.len(),
            names == texts(ids@),
            score_models(out@) == helpful(names, scored@, i as nat),
            forall|k: int| 0 <= k < out@.len() ==> (#[trigger] out@[k]).cost > 0,
        decreases ids@.len() - i,
    {
        let ghost had = score_models(out@);
        proof {
            assert(names[i as int] == ids@[i as int]@);
        }
        if let Some(s) = scored[i] {
            if s.cost > 0 {
                out.push(SingletonCost { node: ids[i].clone(), cost: s.cost as i128 });
                proof {
                    assert(score_models(out@) =~= had.push((names[i as int], s.cost as i128)));
                }
            }
        }
        i = i + 1;
    }
    let r = rank_scores(&out);
    proof {
        let le = score_le();
        let items = score_models(out@);
        let p = choose|p: Seq<usize>|
            #[trigger] crate::order::stable_order(p, items, le) && score_models(r@) == crate::order::picked(items, p);
        assert forall|i: int| 0 <= i < r@.len() implies (#[trigger] r@[i]).cost > 0 by {
            assert(score_models(r@)[i] == (r@[i].node@, r@[i].cost));
            assert(items[p[i] as int] == score_models(r@)[i]);
            assert(items[p[i] as int] == (out@[p[i] as int].node@, out@[p[i] as int].cost));
        }
    }
    r
}

/// `c` is the candidate that a priced combination of flips stands for.
pub open spec fn is_candidate(costed: CostedCombo, default_set: Set<Text>, c: NodeFusionCandidate) -> bool {
    &&& texts(c.flips@) == texts(costed.combo@)
    &&& listing(texts(c.set@), flipped(default_set, texts(costed.combo@), costed.combo@.len()))
    &&& c.cost == costed.cost
    &&& c.makespan == costed.makespan
    &&& c.stages == costed.stages
}

/// The candidates that priced combinations of flips stand for.
pub fn candidates_from(costed: &Vec<CostedCombo>, default_set: &Vec<String>) -> (r: Vec<NodeFusionCandidate>)
    ensures
        r@.len() == costed@.len(),
        forall|i: int|
            0 <= i < r@.len() ==> is_candidate(costed@[i], texts(default_set@).to_set(), #[trigger] r@[i]),
{
    let mut out: Vec<NodeFusionCandidate> = Vec::new();
    let mut i: usize = 0;
    while i < costed.len()
        invariant
            i <= costed@.len(),
            out@.len() == i,
            forall|k: int|
                0 <= k < i ==> is_candidate(costed@[k], texts(default_set@).to_set(), #[trigger] out@[k]),
        decreases costed@.len() - i,
    {
        let c = &costed[i];
        out.push(
            NodeFusionCandidate {
                flips: copy_texts(&c.combo),
                set: flip(default_set, &c.combo),
                cost: c.cost,
                makespan: c.makespan,
                stages: c.stages,
            },
        );
        i = i + 1;
    }
    out
}

/// A set of expressions, for a label.
pub open spec fn set_label(set: Seq<Text>) -> Text {
    if set.len() == 0 {
        "every CTE plain"@
    } else {
        joined(set.map_values(|id: Text| bare(id)), ", "@)
    }
}

/// A set of expressions, for a label.
pub fn describe_set(set: &Vec<String>) -> (r: String)
    ensures
        r@ == set_label(texts(set@)),
{
    if set.len() == 0 {
        return "every CTE plain".to_owned();
    }
    let ghost want = texts(set@).map_values(|id: Text| bare(id));
    let mut names: Vec<String> = Vec::new();
    let mut i: usize = 0;
    while i < set.len()
        invariant
            i <= set@.len(),
            want == texts(set@).map_values(|id: Text| bare(id)),
            names@.len() == i,
            forall|k: int| 0 <= k < i ==> (#[trigger] names@[k])@ == want[k],
        decreases set@.len() - i,
    {
        proof {
            assert(texts(set@)[i as int] == set@[i as int]@);
            assert(want[i as int] == bare(set@[i as int]@));
        }
        names.push(bare_table_name(set[i].as_str()));
        i = i + 1;
    }
    proof {
        assert(texts(names@) =~= want);
    }
    join(&names, ", ")
}

/// Where the search is.
#[derive(Debug)]
pub struct NodeFusionState {
    pub phase: SearchPhase,
    pub baseline_ms: i64,
    pub best_ms: i64,
    pub best_node_time_ms: i64,
    /// The best set so far; none while the default rule is still ahead. An
    /// empty set is a set: every expression plain.
    pub best_set: Option<Vec<String>>,
    /// What the default rule materializes.
    pub default_set: Vec<String>,
    pub working_set: Vec<String>,
    pub baseline_scores: Vec<SingletonCost>,
    pub runs_used: usize,
    pub iterations: Vec<IterationStat>,
    /// The signatures of the graphs already measured.
    pub tried_sigs: Vec<String>,
    pub candidates: Vec<NodeFusionCandidate>,
    pub cursor: usize,
    /// Whether the candidates have been priced yet: an empty list alone does
    /// not say so.
    pub candidates_built: bool,
    pub no_candidates_because: Option<NothingToSearch>,
    pub in_flight: Option<NodeFusionInFlight>,
}

impl Default for NodeFusionState {
    fn default() -> (r: NodeFusionState)
        ensures
            r.phase == SearchPhase::Baseline,
            r.baseline_ms == 0,
            r.best_ms == i64::MAX,
            r.best_node_time_ms == i64::MAX,
            r.best_set is None,
            r.default_set@.len() == 0,
            r.working_set@.len() == 0,
            r.baseline_scores@.len() == 0,
            r.runs_used == 0,
            r.iterations@.len() == 0,
            r.tried_sigs@.len() == 0,
            r.candidates@.len() == 0,
            r.cursor == 0,
            !r.candidates_built,
            r.no_candidates_because is None,
            r.in_flight is None,
    {
        NodeFusionState {
            phase: SearchPhase::Baseline,
            baseline_ms: 0,
            best_ms: i64::MAX,
            best_node_time_ms: i64::MAX,
            best_set: None,
            default_set: Vec::new(),
            working_set: Vec::new(),
            baseline_scores: Vec::new(),
            runs_used: 0,
            iterations: Vec::new(),
            tried_sigs: Vec::new(),
            candidates: Vec::new(),
            cursor: 0,
            candidates_built: false,
            no_candidates_because: None,
            in_flight: None,
        }
    }
}

/// What to do before a run.
#[derive(Debug, Clone, Copy, PartialEq, Eq, Structural)]
pub enum Turn {
    /// Nothing.
    Idle,
    /// Run the fusion under the default rule, which every set is compared to.
    Baseline,
    /// Run the set in progress again: it was never reported on.
    Repeat,
    /// Price the candidates first.
    Price,
    /// Install the winner.
    Converge,
    /// Try the next candidate.
    Search,
}

/// What is to be done before a run.
pub open spec fn turn_of(s: NodeFusionState, max_runs: usize) -> Turn {
    match s.phase {
        SearchPhase::Baseline => Turn::Baseline,
        SearchPhase::Searching => if s.in_flight is Some {
            Turn::Repeat
        } else if !s.candidates_built {
            Turn::Price
        } else if s.runs_used > max_runs {
            Turn::Converge
        } else {
            Turn::Search
        },
        _ => Turn::Idle,
    }
}

/// Trying `set` is not worth a run: the fused query does not parse, or the
/// graph has been measured already.
pub open spec fn skipped(g: GraphModel, dialect: Dialect, set: &Vec<String>, tried: Seq<Text>) -> bool {
    exists|after: GraphModel, r: Result<FusionReport, OptimizerError>|
        #[trigger] rewrites(g, dialect, MaterializeRule::Exact(set), after, r) && (r is Err || exists|sig: Text|
            #[trigger] is_signature(after, sig) && tried.contains(sig))
}

/// Trying `set` makes the graph `after`, which has the signature `sig` and has
/// not been measured yet.
pub open spec fn tries(
    g: GraphModel,
    dialect: Dialect,
    set: &Vec<String>,
    tried: Seq<Text>,
    after: GraphModel,
    report: FusionReport,
    sig: Text,
) -> bool {
    &&& rewrites(g, dialect, MaterializeRule::Exact(set), after, Ok(report))
    &&& is_signature(after, sig)
    &&& !tried.contains(sig)
}

/// Neither what is searched nor where the search stands in it differs.
pub open spec fn same_sets(a: NodeFusionState, b: NodeFusionState) -> bool {
    &&& b.working_set == a.working_set
    &&& b.baseline_scores == a.baseline_scores
    &&& b.candidates == a.candidates
    &&& b.cursor == a.cursor
    &&& b.candidates_built == a.candidates_built
    &&& b.no_candidates_because == a.no_candidates_because
}

/// `b` is `a` once a run turned out to be what `report` says. `default_set` is
/// what the default rule materializes, where that is known.
pub open spec fn fusion_ran(
    a: NodeFusionState,
    objective: HmpObjective,
    report: RunReport,
    default_set: Option<Vec<String>>,
    b: NodeFusionState,
) -> bool {
    &&& same_sets(a, b)
    &&& learned_from(a, objective, report) != Learned::Baseline ==> b.baseline_ms == a.baseline_ms && b.default_set
        == a.default_set
    &&& match learned_from(a, objective, report) {
        Learned::Nothing => b == a,
        Learned::Baseline => {
            &&& report matches RunReport::Measured { runtime_ms, node_time_ms } && b.baseline_ms
                == runtime_ms && b.best_ms == runtime_ms && b.best_node_time_ms == node_time_ms
                && appended(a.iterations@, b.iterations@, 1, runtime_ms, Seq::<Text>::empty(), None, "ok"@, cost_of(report))
            &&& b.runs_used == 1
            &&& b.phase == SearchPhase::Searching
            &&& b.default_set == match default_set {
                Some(s) => s,
                None => a.default_set,
            }
            &&& b.best_set == a.best_set
            &&& b.in_flight == a.in_flight
            &&& b.tried_sigs == a.tried_sigs
        },
        Learned::Trial { improved } => {
            let f = a.in_flight->0;
            &&& report matches RunReport::Measured { runtime_ms, node_time_ms } && (if improved {
                &&& b.best_set matches Some(s) && texts(s@) == texts(f.set@)
                &&& b.best_ms == runtime_ms
                &&& b.best_node_time_ms == node_time_ms
            } else {
                &&& b.best_set == a.best_set
                &&& b.best_ms == a.best_ms
                &&& b.best_node_time_ms == a.best_node_time_ms
            }) && appended(
                a.iterations@,
                b.iterations@,
                succ(a.iterations@.len()),
                runtime_ms,
                texts(f.set@),
                f.makespan,
                "ok"@,
                cost_of(report),
            )
            &&& b.runs_used == succ(a.runs_used as nat)
            &&& b.phase == a.phase
            &&& b.in_flight is None
            &&& b.tried_sigs == a.tried_sigs
        },
        Learned::Rejected => {
            let f = a.in_flight->0;
            &&& b.best_set == a.best_set
            &&& b.best_ms == a.best_ms
            &&& b.best_node_time_ms == a.best_node_time_ms
            &&& b.runs_used == succ(a.runs_used as nat)
            &&& b.phase == a.phase
            &&& b.in_flight is None
            &&& texts(b.tried_sigs@) == noted(texts(a.tried_sigs@), f.sig@)
            &&& appended(
                a.iterations@,
                b.iterations@,
                succ(a.iterations@.len()),
                i64::MAX,
                texts(f.set@),
                f.makespan,
                "cancelled"@,
                cost_of(report),
            )
        },
    }
}

/// Everything but where the search stands among its candidates stays.
pub open spec fn only_moved_on(a: NodeFusionState, b: NodeFusionState) -> bool {
    &&& b.phase == a.phase
    &&& b.baseline_ms == a.baseline_ms
    &&& b.best_ms == a.best_ms
    &&& b.best_node_time_ms == a.best_node_time_ms
    &&& b.best_set == a.best_set
    &&& b.default_set == a.default_set
    &&& b.working_set == a.working_set
    &&& b.baseline_scores == a.baseline_scores
    &&& b.runs_used == a.runs_used
    &&& b.iterations == a.iterations
    &&& b.candidates == a.candidates
    &&& b.candidates_built == a.candidates_built
    &&& b.no_candidates_because == a.no_candidates_because
}

impl NodeFusionState {
    /// What is to be done before a run.
    pub fn turn(&self, max_runs: usize) -> (r: Turn)
        ensures
            r == turn_of(*self, max_runs),
    {
        match self.phase {
            SearchPhase::Baseline => Turn::Baseline,
            SearchPhase::Searching => if self.in_flight.is_some() {
                Turn::Repeat
            } else if !self.candidates_built {
                Turn::Price
            } else if self.runs_used > max_runs {
                Turn::Converge
            } else {
                Turn::Search
            },
            _ => Turn::Idle,
        }
    }

    /// Moves on to the next candidate worth a run and fuses the graph with its
    /// set. None where no candidate is left.
    pub fn propose(&mut self, pass: &NodeFusionPass, dag: &mut Dag) -> (r: Option<FusionReport>)
        requires
            old(dag).wf(),
        ensures
            final(dag).wf(),
            final(dag).db == old(dag).db,
            final(dag).sources == old(dag).sources,
            final(dag).max_parallelism == old(dag).max_parallelism,
            only_moved_on(*old(self), *final(self)),
            match r {
                Some(report) => {
                    let at = final(self).cursor - 1;
                    let c = old(self).candidates@[at];
                    let g = old(dag).nodes@;
                    let dialect = named_dialect(unicode_lower(old(dag).db@));
                    let tried = texts(old(self).tried_sigs@);
                    &&& old(self).cursor <= at < old(self).candidates@.len()
                    &&& forall|k: int|
                        old(self).cursor <= k < at ==> skipped(
                            g,
                            dialect,
                            &(#[trigger] old(self).candidates@[k]).set,
                            tried,
                        )
                    &&& final(self).in_flight matches Some(f) && texts(f.set@) == texts(c.set@) && f.makespan == c.makespan
                        && texts(final(self).tried_sigs@) == tried.push(f.sig@) && tries(
                        g,
                        dialect,
                        &c.set,
                        tried,
                        final(dag).nodes@,
                        report,
                        f.sig@,
                    )
                },
                None => {
                    let g = old(dag).nodes@;
                    let dialect = named_dialect(unicode_lower(old(dag).db@));
                    &&& final(dag).nodes@ == g
                    &&& final(self).cursor == furthest(old(self).cursor, old(self).candidates@.len())
                    &&& final(self).in_flight == old(self).in_flight
                    &&& final(self).tried_sigs == old(self).tried_sigs
                    &&& forall|k: int|
                        old(self).cursor <= k < old(self).candidates@.len() ==> skipped(
                            g,
                            dialect,
                            &(#[trigger] old(self).candidates@[k]).set,
                            texts(old(self).tried_sigs@),
                        )
                },
            },
    {
        let ghost g = dag.nodes@;
        let ghost dialect = named_dialect(unicode_lower(dag.db@));
        let ghost tried = texts(self.tried_sigs@);
        let ghost start = self.cursor;
        while self.cursor < self.candidates.len()
            invariant
                dag.wf(),
                dag.nodes@ == g,
                dag.db == old(dag).db,
                dag.sources == old(dag).sources,
                dag.max_parallelism == old(dag).max_parallelism,
                dialect == named_dialect(unicode_lower(old(dag).db@)),
                g == old(dag).nodes@,
                tried == texts(old(self).tried_sigs@),
                start == old(self).cursor,
                start <= self.cursor,
                self.cursor <= self.candidates@.len() || self.cursor == start,
                only_moved_on(*old(self), *self),
                self.tried_sigs == old(self).tried_sigs,
                self.in_flight == old(self).in_flight,
                forall|k: int|
                    start <= k < self.cursor ==> skipped(g, dialect, &(#[trigger] old(self).candidates@[k]).set, tried),
            decreases self.candidates@.len() - self.cursor,
        {
            let at = self.cursor;
            let ghost set = &self.candidates@[at as int].set;
            self.cursor = at + 1;
            let mut trial = dag.copy();
            match pass.rewrite_with(&mut trial, &self.candidates[at].set) {
                Err(e) => {
                    proof {
                        assert(rewrites(g, dialect, MaterializeRule::Exact(set), trial.nodes@, Err(e)));
                        assert(skipped(g, dialect, &old(self).candidates@[at as int].set, tried));
                    }
                },
                Ok(report) => {
                    let sig = dag_signature(&trial.nodes);
                    if contains_text(&self.tried_sigs, sig.as_str()) {
                        proof {
                            assert(rewrites(g, dialect, MaterializeRule::Exact(set), trial.nodes@, Ok(report)));
                            assert(is_signature(trial.nodes@, sig@));
                            assert(skipped(g, dialect, &old(self).candidates@[at as int].set, tried));
                        }
                    } else {
                        let chosen = copy_texts(&self.candidates[at].set);
                        let makespan = self.candidates[at].makespan;
                        self.tried_sigs.push(sig.clone());
                        proof {
                            assert(texts(self.tried_sigs@) =~= tried.push(sig@));
                        }
                        self.in_flight = Some(NodeFusionInFlight { set: chosen, sig, makespan });
                        dag.nodes = trial.nodes;
                        return Some(report);
                    }
                },
            }
        }
        None
    }

    /// Ends the search and installs the winner: the best set, or the default
    /// rule where nothing beat it.
    pub fn converge(&mut self, pass: &NodeFusionPass, dag: &mut Dag) -> (r: Result<FusionReport, OptimizerError>)
        requires
            old(dag).wf(),
        ensures
            final(dag).wf(),
            final(dag).db == old(dag).db,
            final(dag).sources == old(dag).sources,
            final(dag).max_parallelism == old(dag).max_parallelism,
            final(self).phase == SearchPhase::Converged,
            same_sets(*old(self), *final(self)),
            final(self).best_set == old(self).best_set,
            final(self).best_ms == old(self).best_ms,
            final(self).best_node_time_ms == old(self).best_node_time_ms,
            final(self).baseline_ms == old(self).baseline_ms,
            final(self).default_set == old(self).default_set,
            final(self).iterations == old(self).iterations,
            final(self).in_flight == old(self).in_flight,
            final(self).tried_sigs == old(self).tried_sigs,
            final(self).runs_used == old(self).runs_used,
            rewrites(
                old(dag).nodes@,
                named_dialect(unicode_lower(old(dag).db@)),
                match old(self).best_set {
                    Some(set) => MaterializeRule::Exact(&set),
                    None => configured_rule(&pass.config),
                },
                final(dag).nodes@,
                r,
            ),
    {
        self.phase = SearchPhase::Converged;
        match &self.best_set {
            Some(set) => pass.rewrite_with(dag, set),
            None => pass.rewrite(dag),
        }
    }

    /// Takes in what a run of the graph turned out to be. `default_set` is what
    /// the default rule materializes, where that is known.
    pub fn after_run(
        &mut self,
        objective: HmpObjective,
        report: RunReport,
        default_set: Option<Vec<String>>,
    ) -> (r: Learned)
        ensures
            r == learned_from(*old(self), objective, report),
            fusion_ran(*old(self), objective, report, default_set, *final(self)),
    {
        let cost = run_cost(report);
        match report {
            RunReport::NoRun => Learned::Nothing,
            RunReport::Warmup => Learned::Nothing,
            RunReport::Censored { .. } => self.reject_censored(cost),
            RunReport::Measured { runtime_ms, node_time_ms } => {
                if self.phase == SearchPhase::Baseline {
                    self.baseline_ms = runtime_ms;
                    self.best_ms = runtime_ms;
                    self.best_node_time_ms = node_time_ms;
                    self.runs_used = 1;
                    self.phase = SearchPhase::Searching;
                    if let Some(s) = default_set {
                        self.default_set = s;
                    }
                    let none: Vec<String> = Vec::new();
                    proof {
                        assert(texts(none@) =~= Seq::<Text>::empty());
                    }
                    self.iterations.push(
                        IterationStat {
                            iteration: 1,
                            runtime_ms,
                            combo: none,
                            predicted_makespan: None,
                            outcome: "ok".to_owned(),
                            node_time_ms: cost.node_time_ms,
                            trial_ms: cost.trial_ms,
                            resume_overhead_ms: cost.resume_overhead_ms,
                            resume_ms: cost.resume_ms,
                            samples: Vec::new(),
                        },
                    );
                    proof {
                        assert(self.iterations@.drop_last() =~= old(self).iterations@);
                    }
                    return Learned::Baseline;
                }
                let f = match self.in_flight.take() {
                    Some(f) => f,
                    None => {
                        return Learned::Nothing;
                    },
                };
                self.runs_used = next(self.runs_used);
                let improved = match objective {
                    HmpObjective::Makespan => runtime_ms < self.best_ms,
                    HmpObjective::QueryTime => node_time_ms < self.best_node_time_ms,
                };
                self.iterations.push(
                    IterationStat {
                        iteration: next(self.iterations.len()),
                        runtime_ms,
                        combo: copy_texts(&f.set),
                        predicted_makespan: f.makespan,
                        outcome: "ok".to_owned(),
                        node_time_ms: cost.node_time_ms,
                        trial_ms: cost.trial_ms,
                        resume_overhead_ms: cost.resume_overhead_ms,
                        resume_ms: cost.resume_ms,
                        samples: Vec::new(),
                    },
                );
                proof {
                    assert(self.iterations@.drop_last() =~= old(self).iterations@);
                }
                if improved {
                    self.best_set = Some(f.set);
                    self.best_ms = runtime_ms;
                    self.best_node_time_ms = node_time_ms;
                }
                Learned::Trial { improved }
            },
        }
    }

    /// Files the set in progress as no better, where there is one to file.
    fn reject_censored(&mut self, cost: RunCost) -> (r: Learned)
        ensures
            r == if old(self).in_flight is Some && old(self).phase != SearchPhase::Baseline {
                Learned::Rejected
            } else {
                Learned::Nothing
            },
            r == Learned::Nothing ==> *final(self) == *old(self),
            same_sets(*old(self), *final(self)),
            final(self).baseline_ms == old(self).baseline_ms,
            final(self).default_set == old(self).default_set,
            r == Learned::Rejected ==> {
                let f = old(self).in_flight->0;
                &&& final(self).best_set == old(self).best_set
                &&& final(self).best_ms == old(self).best_ms
                &&& final(self).best_node_time_ms == old(self).best_node_time_ms
                &&& final(self).runs_used == succ(old(self).runs_used as nat)
                &&& final(self).phase == old(self).phase
                &&& final(self).in_flight is None
                &&& texts(final(self).tried_sigs@) == noted(texts(old(self).tried_sigs@), f.sig@)
                &&& appended(
                    old(self).iterations@,
                    final(self).iterations@,
                    succ(old(self).iterations@.len()),
                    i64::MAX,
                    texts(f.set@),
                    f.makespan,
                    "cancelled"@,
                    cost,
                )
            },
    {
        if self.phase == SearchPhase::Baseline {
            return Learned::Nothing;
        }
        let f = match self.in_flight.take() {
            Some(f) => f,
            None => {
                return Learned::Nothing;
            },
        };
        self.runs_used = next(self.runs_used);
        self.iterations.push(
            IterationStat {
                iteration: next(self.iterations.len()),
                runtime_ms: i64::MAX,
                combo: copy_texts(&f.set),
                predicted_makespan: f.makespan,
                outcome: "cancelled".to_owned(),
                node_time_ms: cost.node_time_ms,
                trial_ms: cost.trial_ms,
                resume_overhead_ms: cost.resume_overhead_ms,
                resume_ms: cost.resume_ms,
                samples: Vec::new(),
            },
        );
        proof {
            assert(self.iterations@.drop_last() =~= old(self).iterations@);
        }
        if !contains_text(&self.tried_sigs, f.sig.as_str()) {
            let ghost had = texts(self.tried_sigs@);
            let ghost sig = f.sig@;
            self.tried_sigs.push(f.sig);
            proof {
                assert(texts(self.tried_sigs@) =~= had.push(sig));
            }
        }
        Learned::Rejected
    }
}

/// What a run teaches: a measured run is the baseline, or what the set in
/// progress takes, and it is better only by the objective's own measure; a run
/// that gave no measurement rejects the set in progress; nothing else teaches
/// anything.
pub open spec fn learned_from(s: NodeFusionState, objective: HmpObjective, report: RunReport) -> Learned {
    match report {
        RunReport::Measured { runtime_ms, node_time_ms } => if s.phase == SearchPhase::Baseline {
            Learned::Baseline
        } else if s.in_flight is None {
            Learned::Nothing
        } else {
            Learned::Trial {
                improved: match objective {
                    HmpObjective::Makespan => runtime_ms < s.best_ms,
                    HmpObjective::QueryTime => node_time_ms < s.best_node_time_ms,
                },
            }
        },
        RunReport::Censored { .. } => if s.in_flight is Some && s.phase != SearchPhase::Baseline {
            Learned::Rejected
        } else {
            Learned::Nothing
        },
        _ => Learned::Nothing,
    }
}

/// The search tries nothing once its runs are spent -- one for the baseline and
/// `max_runs` for sets -- and nothing while a trial is in progress.
pub proof fn fusion_keeps_to_its_runs(s: NodeFusionState, max_runs: usize)
    ensures
        turn_of(s, max_runs) == Turn::Search ==> s.runs_used <= max_runs && s.in_flight is None && s.candidates_built,
        s.phase == SearchPhase::Searching && s.in_flight is None && s.candidates_built && s.runs_used > max_runs ==> turn_of(
            s,
            max_runs,
        ) == Turn::Converge,
{
}

/// What the search keeps only ever gets better by the objective's own measure,
/// and changes only to the set that was measured.
pub proof fn best_set_only_improves(
    a: NodeFusionState,
    objective: HmpObjective,
    report: RunReport,
    default_set: Option<Vec<String>>,
    b: NodeFusionState,
)
    requires
        fusion_ran(a, objective, report, default_set, b),
        a.phase != SearchPhase::Baseline,
    ensures
        objective == HmpObjective::Makespan ==> b.best_ms <= a.best_ms,
        objective == HmpObjective::QueryTime ==> b.best_node_time_ms <= a.best_node_time_ms,
        b.best_set == a.best_set || (b.best_set matches Some(s) && texts(s@) == texts(a.in_flight->0.set@)),
        learned_from(a, objective, report) != Learned::Nothing ==> b.runs_used == succ(a.runs_used as nat)
            && b.in_flight is None,
{
}

/// No graph is taken for a trial twice: where no signature was noted twice, none
/// is after a run.
pub proof fn no_fusion_is_noted_twice(
    a: NodeFusionState,
    objective: HmpObjective,
    report: RunReport,
    default_set: Option<Vec<String>>,
    b: NodeFusionState,
)
    requires
        fusion_ran(a, objective, report, default_set, b),
        texts(a.tried_sigs@).no_duplicates(),
    ensures
        texts(b.tried_sigs@).no_duplicates(),
        texts(a.tried_sigs@).to_set().subset_of(texts(b.tried_sigs@).to_set()),
{
    if learned_from(a, objective, report) == Learned::Rejected {
        noting_keeps_distinct(texts(a.tried_sigs@), a.in_flight->0.sig@);
    }
}

/// What a rewrite came to.
#[derive(Debug)]
pub struct NodeFusionDetail {
    pub fused_node: Option<String>,
    pub tables_fused: usize,
    pub views_inlined: usize,
    pub materialized_ctes: usize,
    pub fused_columns: usize,
    pub outcome: String,
    pub adaptive: bool,
    pub objective: Option<&'static str>,
    /// How long the fusion under the default rule took, where it was measured.
    pub baseline_runtime_ms: Option<i64>,
    /// How long the best set took, where one was measured.
    pub final_runtime_ms: Option<i64>,
    pub candidates_costed: usize,
}

/// What a rewrite came to, and what it counts as. A fusion is one change: the
/// Tables that read the fused node follow from it.
#[derive(Debug)]
pub struct FusionRecord {
    pub changes_applied: usize,
    pub candidates_considered: usize,
    pub working_set_size: usize,
    pub detail: NodeFusionDetail,
}

impl NodeFusionPass {
    /// What the rewrite that `report` tells of came to. `search` is where the
    /// search stands, where there is one.
    pub fn record(&self, report: &FusionReport, search: Option<&NodeFusionState>) -> (r: FusionRecord)
        ensures
            r.detail.outcome@ == report.outcome@,
            r.detail.adaptive == self.config.adaptive,
            match r.detail.objective {
                Some(name) => self.config.adaptive && name@ == objective_name(self.config.objective),
                None => !self.config.adaptive,
            },
            match report.plan {
                Some(p) => {
                    &&& r.changes_applied == 1
                    &&& r.candidates_considered == 1
                    &&& r.working_set_size == p.ctes@.len()
                    &&& text_in(r.detail.fused_node) == Some(p.fused_id@)
                    &&& r.detail.tables_fused == p.tables@.len()
                    &&& r.detail.views_inlined == view_count(p.ctes@, p.ctes@.len())
                    &&& r.detail.materialized_ctes == materialized_count(p.ctes@, p.ctes@.len())
                    &&& r.detail.fused_columns == p.fused_columns@.len()
                    &&& match search {
                        Some(s) => {
                            &&& r.detail.baseline_runtime_ms == (if s.baseline_ms > 0 {
                                Some(s.baseline_ms)
                            } else {
                                None
                            })
                            &&& r.detail.final_runtime_ms == (if s.best_ms != i64::MAX {
                                Some(s.best_ms)
                            } else {
                                None
                            })
                            &&& r.detail.candidates_costed == s.candidates@.len()
                        },
                        None => r.detail.baseline_runtime_ms is None && r.detail.final_runtime_ms is None
                            && r.detail.candidates_costed == 0,
                    }
                },
                None => {
                    &&& r.changes_applied == 0
                    &&& r.candidates_considered == 0
                    &&& r.working_set_size == 0
                    &&& r.detail.fused_node is None
                    &&& r.detail.tables_fused == 0
                    &&& r.detail.views_inlined == 0
                    &&& r.detail.materialized_ctes == 0
                    &&& r.detail.fused_columns == 0
                    &&& r.detail.baseline_runtime_ms is None
                    &&& r.detail.final_runtime_ms is None
                    &&& r.detail.candidates_costed == 0
                },
            },
    {
        let objective = if self.config.adaptive {
            Some(self.config.objective.as_str())
        } else {
            None
        };
        let mut detail = NodeFusionDetail {
            fused_node: None,
            tables_fused: 0,
            views_inlined: 0,
            materialized_ctes: 0,
            fused_columns: 0,
            outcome: report.outcome.clone(),
            adaptive: self.config.adaptive,
            objective,
            baseline_runtime_ms: None,
            final_runtime_ms: None,
            candidates_costed: 0,
        };
        match &report.plan {
            Some(p) => {
                detail.fused_node = Some(p.fused_id.clone());
                detail.tables_fused = p.tables.len();
                detail.views_inlined = count_views(&p.ctes);
                detail.materialized_ctes = count_materialized(&p.ctes);
                detail.fused_columns = p.fused_columns.len();
                if let Some(s) = search {
                    if s.baseline_ms > 0 {
                        detail.baseline_runtime_ms = Some(s.baseline_ms);
                    }
                    if s.best_ms != i64::MAX {
                        detail.final_runtime_ms = Some(s.best_ms);
                    }
                    detail.candidates_costed = s.candidates.len();
                }
                FusionRecord {
                    changes_applied: 1,
                    candidates_considered: 1,
                    working_set_size: p.ctes.len(),
                    detail,
                }
            },
            None => FusionRecord { changes_applied: 0, candidates_considered: 0, working_set_size: 0, detail },
        }
    }
}

/// A set that was measured is kept where it was strictly better by the
/// objective's own measure, and only there, with both of its times.
pub proof fn a_better_set_is_kept(
    a: NodeFusionState,
    objective: HmpObjective,
    default_set: Option<Vec<String>>,
    b: NodeFusionState,
    runtime_ms: i64,
    node_time_ms: i64,
)
    requires
        fusion_ran(a, objective, RunReport::Measured { runtime_ms, node_time_ms }, default_set, b),
        a.phase == SearchPhase::Searching,
        a.in_flight is Some,
        a.runs_used < usize::MAX,
    ensures
        (objective == HmpObjective::Makespan && runtime_ms < a.best_ms) || (objective == HmpObjective::QueryTime && node_time_ms
            < a.best_node_time_ms) ==> b.best_ms == runtime_ms && b.best_node_time_ms == node_time_ms && b.best_set is Some
            && texts(b.best_set->0@) == texts(a.in_flight->0.set@),
        (objective == HmpObjective::Makespan && runtime_ms >= a.best_ms) || (objective == HmpObjective::QueryTime && node_time_ms
            >= a.best_node_time_ms) ==> b.best_ms == a.best_ms && b.best_node_time_ms == a.best_node_time_ms && b.best_set
            == a.best_set,
        b.runs_used == a.runs_used + 1,
        b.in_flight is None,
        b.iterations@.len() == a.iterations@.len() + 1,
        b.iterations@.last().runtime_ms == runtime_ms,
        b.iterations@.last().node_time_ms == Some(node_time_ms),
        texts(b.iterations@.last().combo@) == texts(a.in_flight->0.set@),
        b.candidates == a.candidates && b.baseline_ms == a.baseline_ms,
{
}

/// The first measured run is the baseline of both measures and the best so far.
pub proof fn the_default_fusion_is_the_baseline(
    a: NodeFusionState,
    objective: HmpObjective,
    default_set: Option<Vec<String>>,
    b: NodeFusionState,
    runtime_ms: i64,
    node_time_ms: i64,
)
    requires
        fusion_ran(a, objective, RunReport::Measured { runtime_ms, node_time_ms }, default_set, b),
        a.phase == SearchPhase::Baseline,
    ensures
        b.phase == SearchPhase::Searching,
        b.baseline_ms == runtime_ms,
        b.best_ms == runtime_ms,
        b.best_node_time_ms == node_time_ms,
        b.runs_used == 1,
        b.best_set == a.best_set,
        default_set is Some ==> b.default_set == default_set->0,
{
}

/// A set that gave no measurement is counted, noted and left.
pub proof fn a_censored_set_is_left(
    a: NodeFusionState,
    objective: HmpObjective,
    default_set: Option<Vec<String>>,
    b: NodeFusionState,
    resumed: Option<crate::step::ResumeTiming>,
)
    requires
        fusion_ran(a, objective, RunReport::Censored { resumed }, default_set, b),
        a.runs_used < usize::MAX,
    ensures
        a.in_flight is None || a.phase == SearchPhase::Baseline ==> b == a,
        a.in_flight is Some && a.phase == SearchPhase::Searching ==> {
            &&& b.best_ms == a.best_ms && b.best_node_time_ms == a.best_node_time_ms && b.best_set == a.best_set
            &&& b.runs_used == a.runs_used + 1
            &&& b.in_flight is None
            &&& texts(b.tried_sigs@).contains(a.in_flight->0.sig@)
            &&& b.iterations@.len() == a.iterations@.len() + 1
        },
{
    if a.in_flight is Some {
        crate::step::noting_forgets_nothing(texts(a.tried_sigs@), a.in_flight->0.sig@, a.in_flight->0.sig@);
    }
}

/// The flips worth ranking are those that remove work, each with what it
/// removes.
pub proof fn every_helpful_flip_is_ranked(ids: Seq<Text>, scored: Seq<Option<Scored>>, n: nat, id: Text, cost: i128)
    requires
        n <= ids.len(),
        n <= scored.len(),
    ensures
        helpful(ids, scored, n).contains((id, cost)) <==> exists|i: int|
            0 <= i < n && #[trigger] ids[i] == id && scored[i] is Some && scored[i]->0.cost > 0 && scored[i]->0.cost == cost,
    decreases n,
{
    if n > 0 {
        every_helpful_flip_is_ranked(ids, scored, (n - 1) as nat, id, cost);
        let rest = helpful(ids, scored, (n - 1) as nat);
        let all = helpful(ids, scored, n);
        if rest.contains((id, cost)) {
            let k = choose|k: int| 0 <= k < rest.len() && rest[k] == (id, cost);
            assert(all[k] == (id, cost));
            let i = choose|i: int|
                0 <= i < n - 1 && #[trigger] ids[i] == id && scored[i] is Some && scored[i]->0.cost > 0 && scored[i]->0.cost
                    == cost;
            assert(0 <= i < n && ids[i] == id);
        }
        let last = scored[n - 1];
        if last is Some && last->0.cost > 0 && ids[n - 1] == id && last->0.cost == cost {
            assert(all[rest.len() as int] == (id, cost));
            assert(0 <= n - 1 < n && ids[n - 1] == id);
        }
        if all.contains((id, cost)) {
            let k = choose|k: int| 0 <= k < all.len() && all[k] == (id, cost);
            if k < rest.len() {
                assert(rest[k] == (id, cost));
            }
        }
        if exists|i: int|
            0 <= i < n && #[trigger] ids[i] == id && scored[i] is Some && scored[i]->0.cost > 0 && scored[i]->0.cost == cost {
            let i = choose|i: int|
                0 <= i < n && #[trigger] ids[i] == id && scored[i] is Some && scored[i]->0.cost > 0 && scored[i]->0.cost == cost;
            if i < n - 1 {
                assert(0 <= i < n - 1 && ids[i] == id);
            }
        }
    }
}

/// A set in progress is run again, the baseline comes first, and a search
/// without a list is priced.
pub proof fn a_set_in_progress_is_repeated(s: NodeFusionState, max_runs: usize)
    ensures
        s.phase == SearchPhase::Searching && s.in_flight is Some ==> turn_of(s, max_runs) == Turn::Repeat,
        s.phase == SearchPhase::Baseline ==> turn_of(s, max_runs) == Turn::Baseline,
        s.phase == SearchPhase::Searching && s.in_flight is None && !s.candidates_built ==> turn_of(s, max_runs) == Turn::Price,
        s.phase == SearchPhase::Searching && s.in_flight is None && s.candidates_built && s.runs_used <= max_runs ==> turn_of(
            s,
            max_runs,
        ) == Turn::Search,
        s.phase == SearchPhase::Converged ==> turn_of(s, max_runs) == Turn::Idle,
{
}

/// Runs are numbered one after the other, and nothing that was told of an
/// earlier run is changed. A trial is told with the set it ran and what was
/// predicted of it.
pub proof fn fusion_runs_are_numbered(
    a: NodeFusionState,
    objective: HmpObjective,
    report: RunReport,
    default_set: Option<Vec<String>>,
    b: NodeFusionState,
    i: int,
)
    requires
        fusion_ran(a, objective, report, default_set, b),
        b != a,
        a.iterations@.len() < usize::MAX,
    ensures
        a.phase == SearchPhase::Baseline ==> b.iterations@.last().iteration == 1,
        a.phase == SearchPhase::Searching ==> b.iterations@.last().iteration == a.iterations@.len() + 1,
        0 <= i < a.iterations@.len() ==> b.iterations@[i] == a.iterations@[i],
        report is Measured ==> b.iterations@.last().outcome@ == "ok"@,
        report is Censored ==> b.iterations@.last().outcome@ == "cancelled"@,
        a.phase == SearchPhase::Searching ==> texts(b.iterations@.last().combo@) == texts(a.in_flight->0.set@)
            && b.iterations@.last().predicted_makespan == a.in_flight->0.makespan,
        b.runs_used == if a.phase == SearchPhase::Baseline {
            1
        } else {
            succ(a.runs_used as nat)
        },
{
    if 0 <= i < a.iterations@.len() {
        assert(b.iterations@.drop_last()[i] == b.iterations@[i]);
    }
}

/// A candidate is the default set with its flips made, at what the combination
/// is worth.
pub proof fn a_candidate_is_its_combination(costed: CostedCombo, default_set: Set<Text>, c: NodeFusionCandidate, t: Text)
    requires
        is_candidate(costed, default_set, c),
    ensures
        texts(c.set@).contains(t) <==> default_set.contains(t) != odd_times(
            texts(costed.combo@),
            t,
            costed.combo@.len(),
        ),
        texts(c.flips@) == texts(costed.combo@),
        c.cost == costed.cost,
        c.makespan == costed.makespan,
        c.stages == costed.stages,
{
    let set = texts(c.set@);
    assert(set.to_set().contains(t) == set.contains(t));
    flip_changes_what_is_named(default_set, texts(costed.combo@), costed.combo@.len(), t);
}

} // verus!
