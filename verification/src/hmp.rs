//! Materializing Views that several consumers compute, by measured trials.
//!
//! The search is a machine that whoever runs the graph steps. Before a run it
//! says what to materialize; after a run it is told what that took. It measures
//! the graph as it stands first, then combinations of Views in the order of
//! what they are priced to remove, and keeps the best.

use vstd::prelude::*;
use vstd::string::*;

use crate::combo::{combinations, combinations_of, text_lists, CostedCombo};
use crate::common::{has_pad, make_temp, temp_given_up, temp_made, OptimizerError};
use crate::dag::{same_setting, Dag, Graph, GraphModel};
use crate::dup::SubtreeCostMethod;
use crate::nodefusion::{at_least_one, sensible_share};
use crate::search::{clamped, SingletonCost};
use crate::signature::{dag_signature, is_signature};
use crate::sql::{named_dialect, unicode_lower, Dialect};
use crate::step::{appended, cost_of, furthest, next, noted, noting_keeps_distinct, run_cost, succ, IterationStat, Learned, RunReport, SearchPhase};
use crate::text::{ascii_lower, contains_text, copy_texts, join, joined, text_eq, texts, to_ascii_lower, Text};

verus! {

/// How a run's plans are turned into a cost for each View.
#[derive(Debug, Clone, Copy, PartialEq, Eq, Structural)]
pub enum HmpCostMethod {
    /// By the region of a consumer's plan that scans what the View reads.
    Leafset,
    /// By operators of the same name and estimated rows in two plans.
    Signature,
    /// By the View's own measured time.
    NodeTime,
    /// By rates learned from executed plans.
    LearnedCost,
    /// By what each consumer spends on the View, as the engine plans it.
    DupAttribution,
}

impl Default for HmpCostMethod {
    fn default() -> (r: HmpCostMethod)
        ensures
            r == HmpCostMethod::Leafset,
    {
        HmpCostMethod::Leafset
    }
}

/// The name of a method.
pub open spec fn hmp_method_name(m: HmpCostMethod) -> Text {
    match m {
        HmpCostMethod::Leafset => "leafset"@,
        HmpCostMethod::Signature => "signature"@,
        HmpCostMethod::NodeTime => "node_time"@,
        HmpCostMethod::LearnedCost => "learned_cost"@,
        HmpCostMethod::DupAttribution => "dup_attribution"@,
    }
}

/// The method that a lower-case name stands for.
pub open spec fn named_hmp_method(lower: Text) -> Option<HmpCostMethod> {
    if lower == "leafset"@ {
        Some(HmpCostMethod::Leafset)
    } else if lower == "signature"@ {
        Some(HmpCostMethod::Signature)
    } else if lower == "node_time"@ || lower == "nodetime"@ {
        Some(HmpCostMethod::NodeTime)
    } else if lower == "learned_cost"@ || lower == "learnedcost"@ {
        Some(HmpCostMethod::LearnedCost)
    } else if lower == "dup_attribution"@ || lower == "dupattribution"@ || lower == "dup"@ {
        Some(HmpCostMethod::DupAttribution)
    } else {
        None
    }
}

/// What is said of a name that stands for no method.
pub open spec fn unknown_hmp_method(lower: Text) -> Text {
    "unknown hmp cost method '"@ + lower + "'; expected leafset, signature, node_time, learned_cost or dup_attribution"@
}

impl HmpCostMethod {
    /// The method's name.
    pub fn as_str(&self) -> (r: &'static str)
        ensures
            r@ == hmp_method_name(*self),
    {
        match self {
            HmpCostMethod::Leafset => "leafset",
            HmpCostMethod::Signature => "signature",
            HmpCostMethod::NodeTime => "node_time",
            HmpCostMethod::LearnedCost => "learned_cost",
            HmpCostMethod::DupAttribution => "dup_attribution",
        }
    }

    /// The method that `s` names, whatever the case of its letters.
    pub fn parse(s: &str) -> (r: Result<HmpCostMethod, String>)
        ensures
            match r {
                Ok(m) => named_hmp_method(ascii_lower(s@)) == Some(m),
                Err(message) => named_hmp_method(ascii_lower(s@)) is None && message@ == unknown_hmp_method(ascii_lower(s@)),
            },
    {
        let lower = to_ascii_lower(s);
        let l = lower.as_str();
        if text_eq(l, "leafset") {
            Ok(HmpCostMethod::Leafset)
        } else if text_eq(l, "signature") {
            Ok(HmpCostMethod::Signature)
        } else if text_eq(l, "node_time") || text_eq(l, "nodetime") {
            Ok(HmpCostMethod::NodeTime)
        } else if text_eq(l, "learned_cost") || text_eq(l, "learnedcost") {
            Ok(HmpCostMethod::LearnedCost)
        } else if text_eq(l, "dup_attribution") || text_eq(l, "dupattribution") || text_eq(l, "dup") {
            Ok(HmpCostMethod::DupAttribution)
        } else {
            let mut message = "unknown hmp cost method '".to_owned();
            message.append(l);
            message.append("'; expected leafset, signature, node_time, learned_cost or dup_attribution");
            Err(message)
        }
    }
}

impl std::str::FromStr for HmpCostMethod {
    type Err = String;

    fn from_str(s: &str) -> (r: Result<HmpCostMethod, String>)
        ensures
            match r {
                Ok(m) => named_hmp_method(ascii_lower(s@)) == Some(m),
                Err(message) => named_hmp_method(ascii_lower(s@)) is None && message@ == unknown_hmp_method(ascii_lower(s@)),
            },
    {
        HmpCostMethod::parse(s)
    }
}

/// A method's name stands for the method.
pub proof fn hmp_method_name_round_trips(m: HmpCostMethod)
    ensures
        named_hmp_method(ascii_lower(hmp_method_name(m))) == Some(m),
{
    reveal_strlit("leafset");
    reveal_strlit("signature");
    reveal_strlit("node_time");
    reveal_strlit("nodetime");
    reveal_strlit("learned_cost");
    reveal_strlit("learnedcost");
    reveal_strlit("dup_attribution");
    reveal_strlit("dupattribution");
    reveal_strlit("dup");
    let name = hmp_method_name(m);
    assert(ascii_lower(name) =~= name);
    assert("leafset"@.len() == 7);
    assert("signature"@[0] == 's');
    assert("node_time"@[0] == 'n');
    assert("nodetime"@[0] == 'n');
    assert("learned_cost"@.len() == 12);
    assert("learnedcost"@.len() == 11);
    assert("dup_attribution"@[0] == 'd');
    assert("leafset"@[0] == 'l');
    assert("learned_cost"@[0] == 'l');
}

/// What the pass is asked to do.
#[derive(Debug)]
pub struct HmpConfig {
    /// Rank Views by the duplicate work they cause, not by what one run of
    /// them takes.
    pub downstream_cost: bool,
    /// How many runs the search may spend, the baseline among them.
    pub max_runs: usize,
    /// How much of the ranked cost the searched Views must come to, in
    /// millionths.
    pub top_cpu_time: u64,
    /// Rank Views by cost for each row.
    pub normalize_with_cardinality: bool,
    pub cost_method: HmpCostMethod,
    pub dup_cost_model: SubtreeCostMethod,
    /// How many combinations may be priced.
    pub search_budget: usize,
    /// Cut a trial short once it cannot win.
    pub resume_trials: bool,
    /// By how much a trial may overrun the best run before it is cut short, in
    /// millionths.
    pub budget_eps: i64,
    /// Push predicates into each trial.
    pub use_pushdown: bool,
    /// Keep what the machine was seen to do during each run.
    pub profile_iterations: bool,
}

/// The pass, with settings that make sense.
#[derive(Debug)]
pub struct HMPPass {
    pub config: HmpConfig,
}

/// A margin that makes sense: not negative, else none.
pub open spec fn sensible_margin(eps: i64) -> i64 {
    if eps >= 0 {
        eps
    } else {
        0
    }
}

/// The cap on a trial's time: the best time and the margin, to the nearest
/// millisecond.
pub open spec fn capped_time(best_ms: i64, eps: i64) -> i64 {
    clamped((best_ms * (1000000 + eps) * 2 + 1000000) / 2000000)
}

/// Whether a trial is cut short at all, and when: only where something has been
/// measured that it could be worse than.
pub open spec fn budget_of(c: HmpConfig, best_ms: i64) -> Option<i64> {
    if !c.resume_trials || best_ms == i64::MAX || best_ms <= 0 {
        None
    } else {
        Some(capped_time(best_ms, c.budget_eps))
    }
}

impl HMPPass {
    /// A pass with these settings; those that make no sense are mended.
    pub fn new(
        downstream_cost: bool,
        max_runs: usize,
        top_cpu_time: u64,
        normalize_with_cardinality: bool,
        cost_method: HmpCostMethod,
        dup_cost_model: SubtreeCostMethod,
        use_pushdown: bool,
        search_budget: usize,
        profile_iterations: bool,
        resume_trials: bool,
        budget_eps: i64,
    ) -> (r: HMPPass)
        ensures
            r.config == (HmpConfig {
                downstream_cost,
                max_runs: at_least_one(max_runs),
                top_cpu_time: sensible_share(top_cpu_time),
                normalize_with_cardinality,
                cost_method,
                dup_cost_model,
                search_budget: at_least_one(search_budget),
                resume_trials,
                budget_eps: sensible_margin(budget_eps),
                use_pushdown,
                profile_iterations,
            }),
    {
        let max_runs: usize = if max_runs == 0 {
            1
        } else {
            max_runs
        };
        let search_budget: usize = if search_budget == 0 {
            1
        } else {
            search_budget
        };
        let budget_eps: i64 = if budget_eps >= 0 {
            budget_eps
        } else {
            0
        };
        let top_cpu_time: u64 = if 0 < top_cpu_time && top_cpu_time <= 1000000 {
            top_cpu_time
        } else {
            500000
        };
        HMPPass {
            config: HmpConfig {
                downstream_cost,
                max_runs,
                top_cpu_time,
                normalize_with_cardinality,
                cost_method,
                dup_cost_model,
                search_budget,
                resume_trials,
                budget_eps,
                use_pushdown,
                profile_iterations,
            },
        }
    }

    /// A pass with the settings of `config`; those that make no sense are
    /// mended.
    pub fn from_config(config: &HmpConfig) -> (r: HMPPass)
        ensures
            r.config == (HmpConfig {
                max_runs: at_least_one(config.max_runs),
                search_budget: at_least_one(config.search_budget),
                budget_eps: sensible_margin(config.budget_eps),
                top_cpu_time: sensible_share(config.top_cpu_time),
                ..*config
            }),
    {
        HMPPass::new(
            config.downstream_cost,
            config.max_runs,
            config.top_cpu_time,
            config.normalize_with_cardinality,
            config.cost_method,
            config.dup_cost_model,
            config.use_pushdown,
            config.search_budget,
            config.profile_iterations,
            config.resume_trials,
            config.budget_eps,
        )
    }

    /// Keeps `samples` with the run that `learned` was learned from, where runs
    /// are profiled and the run was measured.
    pub fn keep_samples(&self, state: &mut HmpState, learned: Learned, samples: Vec<String>)
        ensures
            *final(state) == (HmpState { iterations: final(state).iterations, ..*old(state) }),
            if self.config.profile_iterations && (learned is Baseline || learned is Trial) && old(state).iterations@.len() > 0 {
                final(state).iterations@ == old(state).iterations@.drop_last().push(
                    (IterationStat { samples, ..old(state).iterations@.last() }),
                )
            } else {
                final(state).iterations == old(state).iterations
            },
    {
        if !self.config.profile_iterations || state.iterations.len() == 0 {
            return;
        }
        match learned {
            Learned::Baseline => {},
            Learned::Trial { .. } => {},
            _ => {
                return;
            },
        }
        if let Some(last) = state.iterations.pop() {
            state.iterations.push(IterationStat { samples, ..last });
            proof {
                assert(state.iterations@ =~= old(state).iterations@.drop_last().push(
                    (IterationStat { samples, ..old(state).iterations@.last() }),
                ));
            }
        }
    }

    /// The cap on the time of the next trial.
    pub fn budget(&self, state: &HmpState) -> (r: Option<i64>)
        requires
            self.config.budget_eps >= 0,
        ensures
            r == budget_of(self.config, state.best_ms),
    {
        let best: i64 = state.best_ms;
        if !self.config.resume_trials || best == i64::MAX || best <= 0 {
            return None;
        }
        let eps: i64 = self.config.budget_eps;
        proof {
            assert(best * (1000000 + eps) * 2 <= i64::MAX * (1000000 + i64::MAX) * 2) by (nonlinear_arith)
                requires
                    0 < best <= i64::MAX,
                    0 <= eps <= i64::MAX,
            ;
            assert(0 <= best * (1000000 + eps) * 2) by (nonlinear_arith)
                requires
                    0 < best,
                    0 <= eps,
            ;
            assert(i64::MAX * (1000000 + i64::MAX) * 2 + 1000000 <= u128::MAX) by (nonlinear_arith);
            assert(best * (1000000 + eps) >= 0) by (nonlinear_arith)
                requires
                    0 < best,
                    0 <= eps,
            ;
        }
        let q: u128 = (best as u128 * (1000000 + eps as u128) * 2 + 1000000) / 2000000;
        if q <= i64::MAX as u128 {
            Some(q as i64)
        } else {
            Some(i64::MAX)
        }
    }

    /// Whether anything is priced with learned rates.
    pub fn uses_learned_constants(&self) -> (r: bool)
        ensures
            r == (self.config.cost_method == HmpCostMethod::LearnedCost || (self.config.cost_method
                == HmpCostMethod::DupAttribution && self.config.dup_cost_model == SubtreeCostMethod::LearnedCost)),
    {
        match self.config.cost_method {
            HmpCostMethod::LearnedCost => true,
            HmpCostMethod::DupAttribution => self.config.dup_cost_model == SubtreeCostMethod::LearnedCost,
            _ => false,
        }
    }
}

/// A trial is never cut short before it has taken as long as the best run.
pub proof fn budget_covers_the_best(c: HmpConfig, best_ms: i64)
    requires
        c.budget_eps >= 0,
        budget_of(c, best_ms) is Some,
    ensures
        budget_of(c, best_ms)->0 >= best_ms,
        c.budget_eps == 0 ==> budget_of(c, best_ms)->0 == best_ms,
{
    let x = best_ms * (1000000 + c.budget_eps) * 2 + 1000000;
    assert(x >= 2000000 * best_ms + 1000000) by (nonlinear_arith)
        requires
            x == best_ms * (1000000 + c.budget_eps) * 2 + 1000000,
            best_ms > 0,
            c.budget_eps >= 0,
    ;
    assert(x / 2000000 >= best_ms) by (nonlinear_arith)
        requires
            x >= 2000000 * best_ms + 1000000,
    ;
    if c.budget_eps == 0 {
        assert(x == 2000000 * best_ms + 1000000) by (nonlinear_arith)
            requires
                x == best_ms * (1000000 + c.budget_eps) * 2 + 1000000,
                c.budget_eps == 0,
        ;
        assert(x / 2000000 == best_ms);
    }
}

/// A combination of Views, for a label.
pub open spec fn combo_label(combo: Seq<Text>) -> Text {
    if combo.len() == 0 {
        "baseline"@
    } else {
        joined(combo, ", "@)
    }
}

/// A combination of Views, for a label.
pub fn describe(combo: &Vec<String>) -> (r: String)
    ensures
        r@ == combo_label(texts(combo@)),
{
    if combo.len() == 0 {
        "baseline".to_owned()
    } else {
        join(combo, ", ")
    }
}

/// A priced combination of Views.
#[derive(Debug)]
pub struct CandidateCombo {
    /// Members, consumer-most first: the order they are materialized in.
    pub combo: Vec<String>,
    /// The duplicate computation it removes.
    pub cost: i64,
    /// Whether the cost is a floor, a member not having been priced.
    pub partial: bool,
}

/// The combination that a trial in progress materializes.
#[derive(Debug)]
pub struct InFlight {
    pub combo: Vec<String>,
    pub sig: String,
}

/// Where the search is.
#[derive(Debug)]
pub struct HmpState {
    pub phase: SearchPhase,
    pub baseline_ms: i64,
    pub best_ms: i64,
    pub best_combo: Vec<String>,
    pub working_set: Vec<String>,
    pub baseline_scores: Vec<SingletonCost>,
    pub runs_used: usize,
    pub iterations: Vec<IterationStat>,
    /// The signatures of the graphs already measured.
    pub tried_sigs: Vec<String>,
    pub candidates: Vec<CandidateCombo>,
    pub cursor: usize,
    /// Whether the candidates have been listed yet: an empty list alone does
    /// not say so.
    pub candidates_built: bool,
    pub in_flight: Option<InFlight>,
}

impl Default for HmpState {
    fn default() -> (r: HmpState)
        ensures
            r.phase == SearchPhase::Baseline,
            r.baseline_ms == 0,
            r.best_ms == i64::MAX,
            r.best_combo@.len() == 0,
            r.working_set@.len() == 0,
            r.baseline_scores@.len() == 0,
            r.runs_used == 0,
            r.iterations@.len() == 0,
            r.tried_sigs@.len() == 0,
            r.candidates@.len() == 0,
            r.cursor == 0,
            !r.candidates_built,
            r.in_flight is None,
    {
        HmpState {
            phase: SearchPhase::Baseline,
            baseline_ms: 0,
            best_ms: i64::MAX,
            best_combo: Vec::new(),
            working_set: Vec::new(),
            baseline_scores: Vec::new(),
            runs_used: 0,
            iterations: Vec::new(),
            tried_sigs: Vec::new(),
            candidates: Vec::new(),
            cursor: 0,
            candidates_built: false,
            in_flight: None,
        }
    }
}

/// Backing the View with a TempTable makes `after` of `g`.
pub open spec fn backed(g: GraphModel, dialect: Dialect, view: Text, after: GraphModel) -> bool {
    if has_pad(g, view) {
        after == g
    } else {
        temp_made(g, dialect, view, after)
    }
}

/// Backing the first `n` Views of `combo`, one after another, makes `after` of
/// `g`.
pub open spec fn all_backed(g: GraphModel, dialect: Dialect, combo: Seq<Text>, n: nat, after: GraphModel) -> bool
    decreases n,
{
    if n == 0 {
        after == g
    } else {
        exists|mid: GraphModel|
            all_backed(g, dialect, combo, (n - 1) as nat, mid) && #[trigger] backed(mid, dialect, combo[n - 1], after)
    }
}

/// Backing the Views of `combo` was given up with `message` at one of them, once
/// those before it were backed, and `after` is what became of the graph.
pub open spec fn backing_given_up(
    g: GraphModel,
    dialect: Dialect,
    combo: Seq<Text>,
    after: GraphModel,
    message: Text,
) -> bool {
    exists|k: nat, mid: GraphModel|
        k < combo.len() && #[trigger] all_backed(g, dialect, combo, k, mid) && temp_given_up(
            mid,
            dialect,
            combo[k as int],
            after,
            message,
        )
}

/// Some View of `combo` cannot be backed, once those before it are.
pub open spec fn cannot_back(g: GraphModel, dialect: Dialect, combo: Seq<Text>) -> bool {
    exists|after: GraphModel, message: Text| #[trigger] backing_given_up(g, dialect, combo, after, message)
}

proof fn one_more_backed(g: GraphModel, dialect: Dialect, combo: Seq<Text>, n: nat, mid: GraphModel, after: GraphModel)
    requires
        all_backed(g, dialect, combo, n, mid),
        backed(mid, dialect, combo[n as int], after),
    ensures
        all_backed(g, dialect, combo, n + 1, after),
{
    let m = n + 1;
    assert(backed(mid, dialect, combo[m - 1], after));
}

/// Backs every View of `combo` with a TempTable, in order.
pub fn materialize_all(dag: &mut Dag, combo: &Vec<String>) -> (r: Result<(), OptimizerError>)
    requires
        old(dag).wf(),
    ensures
        final(dag).wf(),
        final(dag).db@ == old(dag).db@,
        final(dag).sources == old(dag).sources,
        final(dag).max_parallelism == old(dag).max_parallelism,
        match r {
            Ok(_) => all_backed(
                old(dag).nodes@,
                named_dialect(unicode_lower(old(dag).db@)),
                texts(combo@),
                combo@.len(),
                final(dag).nodes@,
            ),
            Err(OptimizerError::Exec(message)) => backing_given_up(
                old(dag).nodes@,
                named_dialect(unicode_lower(old(dag).db@)),
                texts(combo@),
                final(dag).nodes@,
                message@,
            ),
            Err(_) => false,
        },
{
    let ghost g = dag.nodes@;
    let ghost dialect = named_dialect(unicode_lower(dag.db@));
    let ghost names = texts(combo@);
    let mut i: usize = 0;
    while i < combo.len()
        invariant
            i <= combo@.len(),
            names == texts(combo@),
            dag.wf(),
            dag.db@ == old(dag).db@,
            dag.sources == old(dag).sources,
            dag.max_parallelism == old(dag).max_parallelism,
            dialect == named_dialect(unicode_lower(old(dag).db@)),
            g == old(dag).nodes@,
            all_backed(g, dialect, names, i as nat, dag.nodes@),
        decreases combo@.len() - i,
    {
        let ghost mid = dag.nodes@;
        proof {
            assert(names[i as int] == combo@[i as int]@);
        }
        match make_temp(dag, combo[i].as_str()) {
            Ok(_) => {
                proof {
                    one_more_backed(g, dialect, names, i as nat, mid, dag.nodes@);
                }
            },
            Err(e) => {
                proof {
                    assert(all_backed(g, dialect, names, i as nat, mid));
                }
                return Err(e);
            },
        }
        i = i + 1;
    }
    Ok(())
}

/// What to do before a run.
#[derive(Debug, Clone, Copy, PartialEq, Eq, Structural)]
pub enum HmpTurn {
    /// Nothing: the graph runs as it stands.
    Idle,
    /// Run the combination in progress again: it was never reported on.
    Repeat,
    /// List the candidates first: they never were.
    Price,
    /// Install the best combination.
    Promote,
    /// Try the next candidate.
    Search,
}

/// What is to be done before a run.
pub open spec fn hmp_turn_of(s: HmpState, max_runs: usize) -> HmpTurn {
    match s.phase {
        SearchPhase::Searching => if s.in_flight is Some {
            HmpTurn::Repeat
        } else if s.runs_used >= max_runs {
            HmpTurn::Promote
        } else if !s.candidates_built {
            HmpTurn::Price
        } else {
            HmpTurn::Search
        },
        _ => HmpTurn::Idle,
    }
}

/// What a run teaches: a measured run is the baseline, or what the combination
/// in progress takes; a run that gave no measurement rejects the combination in
/// progress; nothing else teaches anything.
pub open spec fn hmp_learned_from(s: HmpState, report: RunReport) -> Learned {
    if s.phase == SearchPhase::Converged {
        Learned::Nothing
    } else {
        match report {
            RunReport::Measured { runtime_ms, .. } => if s.phase == SearchPhase::Baseline {
                Learned::Baseline
            } else if s.in_flight is None {
                Learned::Nothing
            } else {
                Learned::Trial { improved: runtime_ms < s.best_ms }
            },
            RunReport::Censored { .. } => if s.in_flight is Some && s.phase != SearchPhase::Baseline {
                Learned::Rejected
            } else {
                Learned::Nothing
            },
            _ => Learned::Nothing,
        }
    }
}

/// What the search is to go through, once the baseline is measured.
#[derive(Debug)]
pub struct SearchPlan {
    pub scores: Vec<SingletonCost>,
    pub working_set: Vec<String>,
    pub candidates: Vec<CandidateCombo>,
}

/// `b` is `a` once a run turned out to be what `report` says. `plan` is what to
/// search once the baseline is measured.
pub open spec fn ran(a: HmpState, c: HmpConfig, report: RunReport, plan: SearchPlan, b: HmpState) -> bool {
    match hmp_learned_from(a, report) {
        Learned::Nothing => b == a,
        Learned::Baseline => {
            &&& report matches RunReport::Measured { runtime_ms, .. } && b.baseline_ms == runtime_ms
                && b.best_ms == runtime_ms && appended(
                a.iterations@,
                b.iterations@,
                1,
                runtime_ms,
                Seq::<Text>::empty(),
                None,
                "baseline"@,
                cost_of(report),
            )
            &&& b.runs_used == 1
            &&& b.phase == SearchPhase::Searching
            &&& b.baseline_scores == plan.scores
            &&& b.working_set == plan.working_set
            &&& b.candidates == plan.candidates
            &&& b.cursor == 0
            &&& b.candidates_built
            &&& b.best_combo == a.best_combo
            &&& b.in_flight == a.in_flight
            &&& b.tried_sigs == a.tried_sigs
        },
        Learned::Trial { improved } => {
            let f = a.in_flight->0;
            &&& report matches RunReport::Measured { runtime_ms, .. } && (if improved {
                texts(b.best_combo@) == texts(f.combo@) && b.best_ms == runtime_ms
            } else {
                b.best_combo == a.best_combo && b.best_ms == a.best_ms
            }) && appended(
                a.iterations@,
                b.iterations@,
                succ(a.iterations@.len()),
                runtime_ms,
                texts(f.combo@),
                None,
                "ok"@,
                cost_of(report),
            )
            &&& b.runs_used == succ(a.runs_used as nat)
            &&& b.phase == a.phase
            &&& b.in_flight is None
            &&& b.tried_sigs == a.tried_sigs
            &&& same_search(a, b)
        },
        Learned::Rejected => {
            let f = a.in_flight->0;
            &&& appended(
                a.iterations@,
                b.iterations@,
                succ(a.iterations@.len()),
                match budget_of(c, a.best_ms) {
                    Some(cap) => cap,
                    None => i64::MAX,
                },
                texts(f.combo@),
                None,
                "cancelled"@,
                cost_of(report),
            )
            &&& b.best_combo == a.best_combo
            &&& b.best_ms == a.best_ms
            &&& b.runs_used == succ(a.runs_used as nat)
            &&& b.phase == a.phase
            &&& b.in_flight is None
            &&& texts(b.tried_sigs@) == noted(texts(a.tried_sigs@), f.sig@)
            &&& same_search(a, b)
        },
    }
}

/// Neither what is searched nor where the search stands in it differs.
pub open spec fn same_search(a: HmpState, b: HmpState) -> bool {
    &&& b.baseline_ms == a.baseline_ms
    &&& b.working_set == a.working_set
    &&& b.baseline_scores == a.baseline_scores
    &&& b.candidates == a.candidates
    &&& b.cursor == a.cursor
    &&& b.candidates_built == a.candidates_built
}

/// Everything but where the search stands among its candidates stays.
pub open spec fn only_moved(a: HmpState, b: HmpState) -> bool {
    &&& b.phase == a.phase
    &&& b.baseline_ms == a.baseline_ms
    &&& b.best_ms == a.best_ms
    &&& b.best_combo == a.best_combo
    &&& b.working_set == a.working_set
    &&& b.baseline_scores == a.baseline_scores
    &&& b.runs_used == a.runs_used
    &&& b.iterations == a.iterations
    &&& b.candidates == a.candidates
    &&& b.candidates_built == a.candidates_built
}

impl HmpState {
    /// What is to be done before a run.
    pub fn turn(&self, max_runs: usize) -> (r: HmpTurn)
        ensures
            r == hmp_turn_of(*self, max_runs),
    {
        match self.phase {
            SearchPhase::Searching => if self.in_flight.is_some() {
                HmpTurn::Repeat
            } else if self.runs_used >= max_runs {
                HmpTurn::Promote
            } else if !self.candidates_built {
                HmpTurn::Price
            } else {
                HmpTurn::Search
            },
            _ => HmpTurn::Idle,
        }
    }

    /// Takes in the candidates of a search that had none listed, and goes on
    /// with it.
    pub fn list_candidates(&mut self, candidates: Vec<CandidateCombo>)
        ensures
            final(self).candidates == candidates,
            final(self).cursor == 0,
            final(self).candidates_built,
            final(self).phase == old(self).phase,
            final(self).baseline_ms == old(self).baseline_ms,
            final(self).best_ms == old(self).best_ms,
            final(self).best_combo == old(self).best_combo,
            final(self).working_set == old(self).working_set,
            final(self).baseline_scores == old(self).baseline_scores,
            final(self).runs_used == old(self).runs_used,
            final(self).iterations == old(self).iterations,
            final(self).tried_sigs == old(self).tried_sigs,
            final(self).in_flight == old(self).in_flight,
    {
        self.candidates = candidates;
        self.cursor = 0;
        self.candidates_built = true;
    }

    /// Moves on to the next candidate that can be built, and builds it. None
    /// where no candidate is left.
    pub fn next_trial(&mut self, dag: &Dag) -> (r: Option<(usize, Dag)>)
        requires
            dag.wf(),
        ensures
            only_moved(*old(self), *final(self)),
            final(self).tried_sigs == old(self).tried_sigs,
            final(self).in_flight == old(self).in_flight,
            match r {
                Some((at, trial)) => {
                    &&& trial.wf()
                    &&& same_setting(*dag, trial)
                    &&& old(self).cursor <= at < old(self).candidates@.len()
                    &&& final(self).cursor == at + 1
                    &&& all_backed(
                        dag.nodes@,
                        named_dialect(unicode_lower(dag.db@)),
                        texts(old(self).candidates@[at as int].combo@),
                        old(self).candidates@[at as int].combo@.len(),
                        trial.nodes@,
                    )
                    &&& forall|k: int|
                        old(self).cursor <= k < at ==> cannot_back(
                            dag.nodes@,
                            named_dialect(unicode_lower(dag.db@)),
                            texts((#[trigger] old(self).candidates@[k]).combo@),
                        )
                },
                None => final(self).cursor == furthest(old(self).cursor, old(self).candidates@.len()) && forall|k: int|
                    old(self).cursor <= k < old(self).candidates@.len() ==> cannot_back(
                        dag.nodes@,
                        named_dialect(unicode_lower(dag.db@)),
                        texts((#[trigger] old(self).candidates@[k]).combo@),
                    ),
            },
    {
        let ghost dialect = named_dialect(unicode_lower(dag.db@));
        let ghost start = self.cursor;
        while self.cursor < self.candidates.len()
            invariant
                dag.wf(),
                only_moved(*old(self), *self),
                self.tried_sigs == old(self).tried_sigs,
                self.in_flight == old(self).in_flight,
                start == old(self).cursor,
                start <= self.cursor,
                self.cursor <= self.candidates@.len() || self.cursor == start,
                dialect == named_dialect(unicode_lower(dag.db@)),
                forall|k: int|
                    start <= k < self.cursor && k < self.candidates@.len() ==> cannot_back(
                        dag.nodes@,
                        dialect,
                        texts((#[trigger] old(self).candidates@[k]).combo@),
                    ),
            decreases self.candidates@.len() - self.cursor,
        {
            let at = self.cursor;
            self.cursor = at + 1;
            let mut trial = dag.copy();
            match materialize_all(&mut trial, &self.candidates[at].combo) {
                Ok(_) => {
                    return Some((at, trial));
                },
                Err(_) => {},
            }
        }
        None
    }

    /// Takes the graph `trial`, made of candidate `at`, as the next trial,
    /// unless the same graph has been measured already.
    pub fn offer(&mut self, at: usize, trial: &Graph) -> (r: bool)
        requires
            trial.wf(),
            at < old(self).candidates@.len(),
        ensures
            only_moved(*old(self), *final(self)),
            final(self).cursor == old(self).cursor,
            exists|sig: Text|
                #[trigger] is_signature(trial@, sig) && r == !texts(old(self).tried_sigs@).contains(sig) && (r ==> (
                final(self).in_flight matches Some(f) && texts(f.combo@) == texts(old(self).candidates@[at as int].combo@)
                    && f.sig@ == sig && texts(final(self).tried_sigs@) == texts(old(self).tried_sigs@).push(sig))),
            !r ==> final(self).in_flight == old(self).in_flight && final(self).tried_sigs == old(self).tried_sigs,
    {
        let sig = dag_signature(trial);
        if contains_text(&self.tried_sigs, sig.as_str()) {
            return false;
        }
        let ghost tried = texts(self.tried_sigs@);
        let combo = copy_texts(&self.candidates[at].combo);
        self.tried_sigs.push(sig.clone());
        proof {
            assert(texts(self.tried_sigs@) =~= tried.push(sig@));
        }
        self.in_flight = Some(InFlight { combo, sig });
        true
    }

    /// Moves on to the next candidate worth a run and builds it. None where no
    /// candidate is left.
    pub fn propose(&mut self, dag: &Dag) -> (r: Option<Dag>)
        requires
            dag.wf(),
        ensures
            only_moved(*old(self), *final(self)),
            match r {
                Some(trial) => {
                    let at = final(self).cursor - 1;
                    let c = old(self).candidates@[at];
                    let dialect = named_dialect(unicode_lower(dag.db@));
                    let tried = texts(old(self).tried_sigs@);
                    &&& trial.wf()
                    &&& same_setting(*dag, trial)
                    &&& old(self).cursor <= at < old(self).candidates@.len()
                    &&& all_backed(dag.nodes@, dialect, texts(c.combo@), c.combo@.len(), trial.nodes@)
                    &&& forall|k: int|
                        old(self).cursor <= k < at ==> passed_over(
                            dag.nodes@,
                            dialect,
                            texts((#[trigger] old(self).candidates@[k]).combo@),
                            tried,
                        )
                    &&& final(self).in_flight matches Some(f) && texts(f.combo@) == texts(c.combo@) && is_signature(
                        trial.nodes@,
                        f.sig@,
                    ) && !tried.contains(f.sig@) && texts(final(self).tried_sigs@) == tried.push(f.sig@)
                },
                None => {
                    &&& final(self).cursor == furthest(old(self).cursor, old(self).candidates@.len())
                    &&& final(self).tried_sigs == old(self).tried_sigs
                    &&& final(self).in_flight == old(self).in_flight
                    &&& forall|k: int|
                        old(self).cursor <= k < old(self).candidates@.len() ==> passed_over(
                            dag.nodes@,
                            named_dialect(unicode_lower(dag.db@)),
                            texts((#[trigger] old(self).candidates@[k]).combo@),
                            texts(old(self).tried_sigs@),
                        )
                },
            },
    {
        let ghost g = dag.nodes@;
        let ghost dialect = named_dialect(unicode_lower(dag.db@));
        let ghost tried = texts(self.tried_sigs@);
        let ghost start = self.cursor;
        loop
            invariant
                dag.wf(),
                g == dag.nodes@,
                dialect == named_dialect(unicode_lower(dag.db@)),
                only_moved(*old(self), *self),
                self.tried_sigs == old(self).tried_sigs,
                self.in_flight == old(self).in_flight,
                tried == texts(old(self).tried_sigs@),
                start == old(self).cursor,
                start <= self.cursor,
                self.cursor <= self.candidates@.len() || self.cursor == start,
                forall|k: int|
                    start <= k < self.cursor && k < self.candidates@.len() ==> passed_over(
                        g,
                        dialect,
                        texts((#[trigger] old(self).candidates@[k]).combo@),
                        tried,
                    ),
            decreases if self.cursor <= self.candidates@.len() {
                self.candidates@.len() - self.cursor
            } else {
                0
            },
        {
            let ghost from = self.cursor;
            let (at, trial) = match self.next_trial(dag) {
                Some(x) => x,
                None => {
                    proof {
                        assert forall|k: int| start <= k < old(self).candidates@.len() implies passed_over(
                            g,
                            dialect,
                            texts((#[trigger] old(self).candidates@[k]).combo@),
                            tried,
                        ) by {
                            if k >= from {
                                assert(cannot_back(g, dialect, texts(old(self).candidates@[k].combo@)));
                            }
                        }
                    }
                    return None;
                },
            };
            proof {
                assert forall|k: int| start <= k < at implies passed_over(
                    g,
                    dialect,
                    texts((#[trigger] old(self).candidates@[k]).combo@),
                    tried,
                ) by {
                    if k >= from {
                        assert(cannot_back(g, dialect, texts(old(self).candidates@[k].combo@)));
                    }
                }
            }
            if self.offer(at, &trial.nodes) {
                proof {
                    let sig = choose|sig: Text|
                        #[trigger] is_signature(trial.nodes@, sig) && !tried.contains(sig) && (self.in_flight matches Some(f)
                            && texts(f.combo@) == texts(old(self).candidates@[at as int].combo@) && f.sig@ == sig && texts(
                            self.tried_sigs@,
                        ) == tried.push(sig));
                    assert(self.in_flight matches Some(f) && is_signature(trial.nodes@, f.sig@));
                }
                return Some(trial);
            }
            proof {
                let sig = choose|sig: Text| #[trigger] is_signature(trial.nodes@, sig) && tried.contains(sig);
                let combo = texts(old(self).candidates@[at as int].combo@);
                assert(all_backed(g, dialect, combo, combo.len(), trial.nodes@));
                assert(is_signature(trial.nodes@, sig) && tried.contains(sig));
                assert(passed_over(g, dialect, texts(old(self).candidates@[at as int].combo@), tried));
            }
        }
    }

    /// The graph that trials are compared to: as authored, with the best
    /// combination so far. None before anything has been measured, or where
    /// that cannot be built.
    pub fn incumbent_dag(&self, dag: &Dag) -> (r: Option<Dag>)
        requires
            dag.wf(),
        ensures
            match r {
                Some(d) => d.wf() && same_setting(*dag, d) && self.best_ms != i64::MAX && all_backed(
                    dag.nodes@,
                    named_dialect(unicode_lower(dag.db@)),
                    texts(self.best_combo@),
                    self.best_combo@.len(),
                    d.nodes@,
                ),
                None => self.best_ms == i64::MAX || cannot_back(
                    dag.nodes@,
                    named_dialect(unicode_lower(dag.db@)),
                    texts(self.best_combo@),
                ),
            },
    {
        if self.best_ms == i64::MAX {
            return None;
        }
        let mut d = dag.copy();
        match materialize_all(&mut d, &self.best_combo) {
            Ok(_) => Some(d),
            Err(_) => None,
        }
    }

    /// Ends the search and installs the best combination. Says whether there is
    /// one: where nothing beat the baseline, the graph stays as it is.
    pub fn promote(&mut self, dag: &mut Dag) -> (r: Result<bool, OptimizerError>)
        requires
            old(dag).wf(),
        ensures
            final(dag).wf(),
            final(dag).db@ == old(dag).db@,
            final(dag).sources == old(dag).sources,
            final(dag).max_parallelism == old(dag).max_parallelism,
            final(self).phase == SearchPhase::Converged,
            final(self).in_flight is None,
            final(self).best_combo == old(self).best_combo,
            final(self).best_ms == old(self).best_ms,
            final(self).runs_used == old(self).runs_used,
            final(self).iterations == old(self).iterations,
            final(self).tried_sigs == old(self).tried_sigs,
            same_search(*old(self), *final(self)),
            match r {
                Ok(found) => found == (old(self).best_combo@.len() > 0) && all_backed(
                    old(dag).nodes@,
                    named_dialect(unicode_lower(old(dag).db@)),
                    texts(old(self).best_combo@),
                    old(self).best_combo@.len(),
                    final(dag).nodes@,
                ),
                Err(OptimizerError::Exec(message)) => backing_given_up(
                    old(dag).nodes@,
                    named_dialect(unicode_lower(old(dag).db@)),
                    texts(old(self).best_combo@),
                    final(dag).nodes@,
                    message@,
                ),
                Err(_) => false,
            },
    {
        self.phase = SearchPhase::Converged;
        self.in_flight = None;
        match materialize_all(dag, &self.best_combo) {
            Ok(_) => Ok(self.best_combo.len() > 0),
            Err(e) => Err(e),
        }
    }

    /// Takes in what a run of the graph turned out to be. `plan` says what to
    /// search once the baseline is measured; `pass` what a trial without a
    /// measurement counts as.
    pub fn after_run(&mut self, pass: &HMPPass, report: RunReport, plan: SearchPlan) -> (r: Learned)
        requires
            pass.config.budget_eps >= 0,
        ensures
            r == hmp_learned_from(*old(self), report),
            ran(*old(self), pass.config, report, plan, *final(self)),
    {
        if self.phase == SearchPhase::Converged {
            return Learned::Nothing;
        }
        let cost = run_cost(report);
        match report {
            RunReport::NoRun => Learned::Nothing,
            RunReport::Warmup => Learned::Nothing,
            RunReport::Censored { .. } => {
                if self.phase == SearchPhase::Baseline {
                    return Learned::Nothing;
                }
                let f = match self.in_flight.take() {
                    Some(f) => f,
                    None => {
                        return Learned::Nothing;
                    },
                };
                self.runs_used = next(self.runs_used);
                let censored = match pass.budget(self) {
                    Some(b) => b,
                    None => i64::MAX,
                };
                self.iterations.push(
                    IterationStat {
                        iteration: next(self.iterations.len()),
                        runtime_ms: censored,
                        combo: copy_texts(&f.combo),
                        predicted_makespan: None,
                        outcome: "cancelled".to_owned(),
                        node_time_ms: cost.node_time_ms,
                        trial_ms: cost.trial_ms,
                        resume_overhead_ms: cost.resume_overhead_ms,
                        resume_ms: cost.resume_ms,
                        samples: Vec::new(),
                    },
                );
                proof {
                    assert(self.iterations@.drop_last() =~= old(self).iterations@);
                }
                if !contains_text(&self.tried_sigs, f.sig.as_str()) {
                    let ghost had = texts(self.tried_sigs@);
                    let ghost sig = f.sig@;
                    self.tried_sigs.push(f.sig);
                    proof {
                        assert(texts(self.tried_sigs@) =~= had.push(sig));
                    }
                }
                Learned::Rejected
            },
            RunReport::Measured { runtime_ms, node_time_ms } => {
                if self.phase == SearchPhase::Baseline {
                    self.baseline_ms = runtime_ms;
                    self.best_ms = runtime_ms;
                    self.runs_used = 1;
                    let none: Vec<String> = Vec::new();
                    proof {
                        assert(texts(none@) =~= Seq::<Text>::empty());
                    }
                    self.iterations.push(
                        IterationStat {
                            iteration: 1,
                            runtime_ms,
                            combo: none,
                            predicted_makespan: None,
                            outcome: "baseline".to_owned(),
                            node_time_ms: cost.node_time_ms,
                            trial_ms: cost.trial_ms,
                            resume_overhead_ms: cost.resume_overhead_ms,
                            resume_ms: cost.resume_ms,
                            samples: Vec::new(),
                        },
                    );
                    proof {
                        assert(self.iterations@.drop_last() =~= old(self).iterations@);
                    }
                    self.baseline_scores = plan.scores;
                    self.working_set = plan.working_set;
                    self.phase = SearchPhase::Searching;
                    self.candidates = plan.candidates;
                    self.cursor = 0;
                    self.candidates_built = true;
                    return Learned::Baseline;
                }
                let f = match self.in_flight.take() {
                    Some(f) => f,
                    None => {
                        return Learned::Nothing;
                    },
                };
                self.runs_used = next(self.runs_used);
                self.iterations.push(
                    IterationStat {
                        iteration: next(self.iterations.len()),
                        runtime_ms,
                        combo: copy_texts(&f.combo),
                        predicted_makespan: None,
                        outcome: "ok".to_owned(),
                        node_time_ms: cost.node_time_ms,
                        trial_ms: cost.trial_ms,
                        resume_overhead_ms: cost.resume_overhead_ms,
                        resume_ms: cost.resume_ms,
                        samples: Vec::new(),
                    },
                );
                proof {
                    assert(self.iterations@.drop_last() =~= old(self).iterations@);
                }
                let improved = runtime_ms < self.best_ms;
                if improved {
                    self.best_ms = runtime_ms;
                    self.best_combo = f.combo;
                }
                Learned::Trial { improved }
            },
        }
    }
}

/// A candidate is not worth a run: it cannot be built, or the graph it makes
/// has been measured already.
pub open spec fn passed_over(g: GraphModel, dialect: Dialect, combo: Seq<Text>, tried: Seq<Text>) -> bool {
    cannot_back(g, dialect, combo) || exists|after: GraphModel, sig: Text|
        #[trigger] all_backed(g, dialect, combo, combo.len(), after) && #[trigger] is_signature(after, sig) && tried.contains(
            sig,
        )
}

/// The combinations of up to `k` Views, smallest first.
pub open spec fn smallest_first(items: Seq<Text>, k: nat) -> Seq<Seq<Text>>
    decreases k,
{
    if k == 0 {
        Seq::<Seq<Text>>::empty()
    } else {
        smallest_first(items, (k - 1) as nat) + combinations_of(items, k)
    }
}

/// The combinations of candidates.
pub open spec fn candidate_texts(c: Seq<CandidateCombo>) -> Seq<Seq<Text>> {
    c.map_values(|x: CandidateCombo| texts(x.combo@))
}

/// The first `cap` of a list.
pub open spec fn first_of(s: Seq<Seq<Text>>, cap: nat) -> Seq<Seq<Text>> {
    if s.len() <= cap {
        s
    } else {
        s.take(cap as int)
    }
}

proof fn smallest_grows(items: Seq<Text>, k: nat, n: nat)
    requires
        k <= n,
    ensures
        smallest_first(items, k).len() <= smallest_first(items, n).len(),
        smallest_first(items, n).take(smallest_first(items, k).len() as int) == smallest_first(items, k),
    decreases n,
{
    let a = smallest_first(items, k);
    let b = smallest_first(items, n);
    if k < n {
        smallest_grows(items, k, (n - 1) as nat);
        let c = smallest_first(items, (n - 1) as nat);
        assert(b.take(c.len() as int) =~= c);
        assert(b.take(a.len() as int) =~= c.take(a.len() as int));
    } else {
        assert(b.take(a.len() as int) =~= a);
    }
}

/// Candidates where nothing could be priced: combinations, smallest first and
/// in the order of the ranking, up to `cap` of them. Their cost is a floor.
pub fn unpriced_candidates(working_set: &Vec<String>, cap: usize) -> (r: Vec<CandidateCombo>)
    ensures
        candidate_texts(r@) == first_of(smallest_first(texts(working_set@), working_set@.len()), cap as nat),
        forall|i: int| 0 <= i < r@.len() ==> (#[trigger] r@[i]).cost == 0 && r@[i].partial,
{
    let ghost items = texts(working_set@);
    let ghost all = smallest_first(items, working_set@.len());
    let mut out: Vec<CandidateCombo> = Vec::new();
    let mut k: usize = 0;
    proof {
        assert(candidate_texts(out@) =~= smallest_first(items, 0));
    }
    while k < working_set.len()
        invariant
            k <= working_set@.len(),
            items == texts(working_set@),
            all == smallest_first(items, working_set@.len()),
            candidate_texts(out@) == smallest_first(items, k as nat),
            out@.len() <= cap,
            forall|i: int| 0 <= i < out@.len() ==> (#[trigger] out@[i]).cost == 0 && out@[i].partial,
        decreases working_set@.len() - k,
    {
        let ghost base = candidate_texts(out@);
        let combos = combinations(working_set, k + 1);
        let ghost more = combinations_of(items, (k + 1) as nat);
        let mut j: usize = 0;
        proof {
            smallest_grows(items, (k + 1) as nat, working_set@.len());
            assert(base + more.take(0) =~= base);
        }
        while j < combos.len()
            invariant
                j <= combos@.len(),
                k < working_set@.len(),
                items == texts(working_set@),
                all == smallest_first(items, working_set@.len()),
                more == combinations_of(items, (k + 1) as nat),
                text_lists(combos@) == more,
                base == smallest_first(items, k as nat),
                base + more == smallest_first(items, (k + 1) as nat),
                (base + more).len() <= all.len(),
                all.take((base + more).len() as int) == base + more,
                candidate_texts(out@) == base + more.take(j as int),
                out@.len() <= cap,
                out@.len() == base.len() + j,
                forall|i: int| 0 <= i < out@.len() ==> (#[trigger] out@[i]).cost == 0 && out@[i].partial,
            decreases combos@.len() - j,
        {
            if out.len() >= cap {
                proof {
                    assert(text_lists(combos@).len() == combos@.len());
                    let n = base.len() + j;
                    assert(all.take(n as int) =~= (base + more).take(n as int));
                    assert((base + more).take(n as int) =~= base + more.take(j as int));
                }
                return out;
            }
            let ghost had = candidate_texts(out@);
            out.push(CandidateCombo { combo: copy_texts(&combos[j]), cost: 0, partial: true });
            proof {
                assert(text_lists(combos@)[j as int] == texts(combos@[j as int]@));
                assert(candidate_texts(out@) =~= had.push(more[j as int]));
                assert(more.take(j + 1) =~= more.take(j as int).push(more[j as int]));
                assert(candidate_texts(out@) =~= base + more.take(j + 1));
            }
            j = j + 1;
        }
        proof {
            assert(text_lists(combos@).len() == combos@.len());
            assert(more.take(combos@.len() as int) =~= more);
        }
        k = k + 1;
    }
    proof {
        assert(candidate_texts(out@).len() == out@.len());
    }
    out
}

/// The candidates that priced combinations stand for.
pub fn priced_candidates(costed: &Vec<CostedCombo>) -> (r: Vec<CandidateCombo>)
    ensures
        r@.len() == costed@.len(),
        forall|i: int|
            0 <= i < r@.len() ==> texts((#[trigger] r@[i]).combo@) == texts(costed@[i].combo@) && r@[i].cost == costed@[i].cost
                && !r@[i].partial,
{
    let mut out: Vec<CandidateCombo> = Vec::new();
    let mut i: usize = 0;
    while i < costed.len()
        invariant
            i <= costed@.len(),
            out@.len() == i,
            forall|k: int|
                0 <= k < i ==> texts((#[trigger] out@[k]).combo@) == texts(costed@[k].combo@) && out@[k].cost == costed@[k].cost
                    && !out@[k].partial,
        decreases costed@.len() - i,
    {
        out.push(CandidateCombo { combo: copy_texts(&costed[i].combo), cost: costed[i].cost, partial: false });
        i = i + 1;
    }
    out
}

/// A search whose candidates were never listed is not taken for one that has
/// none left: it goes on.
pub proof fn an_unlisted_search_is_not_over(s: HmpState, max_runs: usize)
    requires
        s.phase == SearchPhase::Searching,
        s.in_flight is None,
        s.runs_used < max_runs,
        !s.candidates_built,
    ensures
        hmp_turn_of(s, max_runs) == HmpTurn::Price,
{
}

/// The search tries nothing once its runs are spent, and nothing while a trial
/// is in progress.
pub proof fn a_search_keeps_to_its_runs(s: HmpState, max_runs: usize)
    ensures
        hmp_turn_of(s, max_runs) == HmpTurn::Search ==> s.runs_used < max_runs && s.in_flight is None,
        s.phase == SearchPhase::Searching && s.runs_used >= max_runs && s.in_flight is None ==> hmp_turn_of(s, max_runs)
            == HmpTurn::Promote,
{
}

/// A run that teaches something counts, and the search never keeps a combination
/// that took longer than another it measured: what it keeps only ever gets
/// faster.
pub proof fn best_only_improves(a: HmpState, c: HmpConfig, report: RunReport, plan: SearchPlan, b: HmpState)
    requires
        ran(a, c, report, plan, b),
        a.phase != SearchPhase::Baseline,
    ensures
        b.best_ms <= a.best_ms,
        b.best_ms < a.best_ms ==> (report matches RunReport::Measured { runtime_ms, .. } && b.best_ms == runtime_ms && texts(
            b.best_combo@,
        ) == texts(a.in_flight->0.combo@)),
        b.best_ms == a.best_ms ==> b.best_combo == a.best_combo,
        hmp_learned_from(a, report) != Learned::Nothing ==> b.runs_used == succ(a.runs_used as nat) && b.in_flight is None,
{
}

/// No graph is taken for a trial twice: where no signature was noted twice, none
/// is after a run.
pub proof fn no_graph_is_noted_twice(a: HmpState, c: HmpConfig, report: RunReport, plan: SearchPlan, b: HmpState)
    requires
        ran(a, c, report, plan, b),
        texts(a.tried_sigs@).no_duplicates(),
    ensures
        texts(b.tried_sigs@).no_duplicates(),
        texts(a.tried_sigs@).to_set().subset_of(texts(b.tried_sigs@).to_set()),
{
    if hmp_learned_from(a, report) == Learned::Rejected {
        noting_keeps_distinct(texts(a.tried_sigs@), a.in_flight->0.sig@);
    }
}

/// A trial that was measured is kept where it was strictly faster than the best,
/// and only there; it counts as a run and is recorded with its time.
pub proof fn a_faster_trial_is_kept(a: HmpState, c: HmpConfig, plan: SearchPlan, b: HmpState, runtime_ms: i64, node_time_ms: i64)
    requires
        ran(a, c, RunReport::Measured { runtime_ms, node_time_ms }, plan, b),
        a.phase == SearchPhase::Searching,
        a.in_flight is Some,
        a.runs_used < usize::MAX,
    ensures
        runtime_ms < a.best_ms ==> b.best_ms == runtime_ms && texts(b.best_combo@) == texts(a.in_flight->0.combo@),
        runtime_ms >= a.best_ms ==> b.best_ms == a.best_ms && b.best_combo == a.best_combo,
        b.runs_used == a.runs_used + 1,
        b.in_flight is None,
        b.iterations@.len() == a.iterations@.len() + 1,
        b.iterations@.last().runtime_ms == runtime_ms,
        b.iterations@.last().node_time_ms == Some(node_time_ms),
        texts(b.iterations@.last().combo@) == texts(a.in_flight->0.combo@),
        b.phase == SearchPhase::Searching,
        b.candidates == a.candidates && b.cursor == a.cursor && b.baseline_ms == a.baseline_ms,
{
}

/// The first measured run is the baseline and the best so far, and what to
/// search is what was planned.
pub proof fn the_baseline_starts_the_search(a: HmpState, c: HmpConfig, plan: SearchPlan, b: HmpState, runtime_ms: i64, node_time_ms: i64)
    requires
        ran(a, c, RunReport::Measured { runtime_ms, node_time_ms }, plan, b),
        a.phase == SearchPhase::Baseline,
    ensures
        b.phase == SearchPhase::Searching,
        b.baseline_ms == runtime_ms,
        b.best_ms == runtime_ms,
        b.runs_used == 1,
        b.candidates == plan.candidates && b.cursor == 0 && b.candidates_built,
        b.working_set == plan.working_set,
        b.baseline_scores == plan.scores,
        b.best_combo == a.best_combo,
{
}

/// A trial that gave no measurement is counted, noted and left, and changes
/// nothing of what is best.
pub proof fn a_censored_trial_is_left(a: HmpState, c: HmpConfig, plan: SearchPlan, b: HmpState, resumed: Option<crate::step::ResumeTiming>)
    requires
        ran(a, c, RunReport::Censored { resumed }, plan, b),
        a.runs_used < usize::MAX,
    ensures
        a.phase == SearchPhase::Baseline || a.phase == SearchPhase::Converged || a.in_flight is None ==> b == a,
        a.phase == SearchPhase::Searching && a.in_flight is Some ==> {
            &&& b.best_ms == a.best_ms && b.best_combo == a.best_combo
            &&& b.runs_used == a.runs_used + 1
            &&& b.in_flight is None
            &&& texts(b.tried_sigs@).contains(a.in_flight->0.sig@)
            &&& b.iterations@.len() == a.iterations@.len() + 1
            &&& b.phase == SearchPhase::Searching
        },
{
    if a.phase == SearchPhase::Searching && a.in_flight is Some {
        crate::step::noting_forgets_nothing(texts(a.tried_sigs@), a.in_flight->0.sig@, a.in_flight->0.sig@);
    }
}

/// Neither a warmup nor the absence of a run teaches anything, and nothing
/// teaches a search that has ended.
pub proof fn no_measurement_teaches_nothing(a: HmpState, c: HmpConfig, report: RunReport, plan: SearchPlan, b: HmpState)
    requires
        ran(a, c, report, plan, b),
        report is NoRun || report is Warmup || a.phase == SearchPhase::Converged,
    ensures
        b == a,
{
}

/// A trial may overrun the best run by the margin, to the nearest millisecond.
pub proof fn a_budget_is_the_best_and_the_margin(c: HmpConfig, best_ms: i64)
    requires
        c.resume_trials,
        0 < best_ms < i64::MAX,
        c.budget_eps >= 0,
        budget_of(c, best_ms)->0 < i64::MAX,
    ensures
        budget_of(c, best_ms) is Some,
        (2 * budget_of(c, best_ms)->0 - 1) * 1000000 <= 2 * (best_ms * (1000000 + c.budget_eps)) < (2 * budget_of(c, best_ms)->0
            + 1) * 1000000,
{
    budget_covers_the_best(c, best_ms);
    let x = best_ms * (1000000 + c.budget_eps);
    let q = (x * 2 + 1000000) / 2000000;
    assert(x >= 0) by (nonlinear_arith)
        requires
            x == best_ms * (1000000 + c.budget_eps),
            best_ms > 0,
            c.budget_eps >= 0,
    ;
}

/// Every View of a combination is backed in its turn.
pub proof fn every_view_of_a_combination_is_backed(
    g: GraphModel,
    dialect: Dialect,
    combo: Seq<Text>,
    n: nat,
    after: GraphModel,
    k: nat,
) -> (at: (GraphModel, GraphModel))
    requires
        all_backed(g, dialect, combo, n, after),
        k < n <= combo.len(),
    ensures
        all_backed(g, dialect, combo, k, at.0),
        backed(at.0, dialect, combo[k as int], at.1),
        all_backed(g, dialect, combo, k + 1, at.1),
        k + 1 == n ==> at.1 == after,
    decreases n,
{
    let mid = choose|mid: GraphModel|
        all_backed(g, dialect, combo, (n - 1) as nat, mid) && #[trigger] backed(mid, dialect, combo[n - 1], after);
    if k + 1 == n {
        (mid, after)
    } else {
        every_view_of_a_combination_is_backed(g, dialect, combo, (n - 1) as nat, mid, k)
    }
}

/// Without prices combinations are tried smallest first, and each of up to `k`
/// Views is among them.
pub proof fn smaller_combinations_come_first(items: Seq<Text>, k: nat, i: int, j: int, size: nat, combo: Seq<Text>)
    requires
        items.len() <= usize::MAX,
        k <= items.len(),
        0 <= i < j < smallest_first(items, k).len(),
    ensures
        smallest_first(items, k)[i].len() <= smallest_first(items, k)[j].len(),
        1 <= smallest_first(items, k)[i].len() <= k,
        0 < size <= k && combinations_of(items, size).contains(combo) ==> smallest_first(items, k).contains(combo),
    decreases k,
{
    let rest = smallest_first(items, (k - 1) as nat);
    let own = combinations_of(items, k);
    let all = smallest_first(items, k);
    assert(all == rest + own);
    sizes_in(items, k, i);
    sizes_in(items, k, j);
    if j < rest.len() {
        smaller_combinations_come_first(items, (k - 1) as nat, i, j, size, combo);
        assert(all[i] == rest[i] && all[j] == rest[j]);
    } else {
        sized(items, k, j - rest.len());
        assert(all[j] == own[j - rest.len()]);
    }
    if 0 < size <= k && combinations_of(items, size).contains(combo) {
        holds_size(items, k, size, combo);
    }
}

proof fn sized(items: Seq<Text>, k: nat, j: int)
    requires
        0 < k <= items.len() <= usize::MAX,
        0 <= j < combinations_of(items, k).len(),
    ensures
        combinations_of(items, k)[j].len() == k,
{
    let all = crate::combo::index_combos(items.len(), 0, k);
    crate::combo::index_combos_exact(items.len(), 0, k, all[j]);
    assert(all.contains(all[j]));
}

proof fn sizes_in(items: Seq<Text>, k: nat, i: int)
    requires
        k <= items.len() <= usize::MAX,
        0 <= i < smallest_first(items, k).len(),
    ensures
        1 <= smallest_first(items, k)[i].len() <= k,
    decreases k,
{
    let rest = smallest_first(items, (k - 1) as nat);
    if i < rest.len() {
        sizes_in(items, (k - 1) as nat, i);
    } else {
        sized(items, k, i - rest.len());
    }
}

proof fn holds_size(items: Seq<Text>, k: nat, size: nat, combo: Seq<Text>)
    requires
        0 < size <= k,
        combinations_of(items, size).contains(combo),
    ensures
        smallest_first(items, k).contains(combo),
    decreases k,
{
    let rest = smallest_first(items, (k - 1) as nat);
    let own = combinations_of(items, k);
    let all = smallest_first(items, k);
    if size == k {
        let w = choose|w: int| 0 <= w < own.len() && own[w] == combo;
        assert(all[rest.len() + w] == combo);
    } else {
        holds_size(items, (k - 1) as nat, size, combo);
        let w = choose|w: int| 0 <= w < rest.len() && rest[w] == combo;
        assert(all[w] == combo);
    }
}

/// A trial in progress is run again; outside the search nothing is tried.
pub proof fn a_trial_in_progress_is_repeated(s: HmpState, max_runs: usize)
    ensures
        s.phase == SearchPhase::Searching && s.in_flight is Some ==> hmp_turn_of(s, max_runs) == HmpTurn::Repeat,
        s.phase != SearchPhase::Searching ==> hmp_turn_of(s, max_runs) == HmpTurn::Idle,
        s.phase == SearchPhase::Searching && s.in_flight is None && s.candidates_built && s.runs_used < max_runs ==> hmp_turn_of(
            s,
            max_runs,
        ) == HmpTurn::Search,
{
}

/// What is kept of a list are its first members, as many as may be, and no
/// more.
pub proof fn the_first_are_kept(s: Seq<Seq<Text>>, cap: nat, i: int)
    ensures
        first_of(s, cap).len() <= cap,
        s.len() <= cap ==> first_of(s, cap) == s,
        s.len() >= cap ==> first_of(s, cap).len() == cap,
        0 <= i < first_of(s, cap).len() ==> first_of(s, cap)[i] == s[i],
{
}

/// Runs are numbered one after the other, and nothing that was told of an
/// earlier run is changed. A trial that was cut short is told at its cap.
pub proof fn runs_are_numbered(a: HmpState, c: HmpConfig, report: RunReport, plan: SearchPlan, b: HmpState, i: int)
    requires
        ran(a, c, report, plan, b),
        b != a,
        a.iterations@.len() < usize::MAX,
    ensures
        a.phase == SearchPhase::Baseline ==> b.iterations@.last().iteration == 1,
        a.phase == SearchPhase::Searching ==> b.iterations@.last().iteration == a.iterations@.len() + 1,
        0 <= i < a.iterations@.len() ==> b.iterations@[i] == a.iterations@[i],
        report is Measured && a.phase == SearchPhase::Searching ==> b.iterations@.last().outcome@ == "ok"@,
        report is Measured && a.phase == SearchPhase::Baseline ==> b.iterations@.last().outcome@ == "baseline"@,
        report is Censored ==> b.iterations@.last().outcome@ == "cancelled"@,
        report is Censored && budget_of(c, a.best_ms) is Some ==> b.iterations@.last().runtime_ms == budget_of(
            c,
            a.best_ms,
        )->0,
{
    if 0 <= i < a.iterations@.len() {
        assert(b.iterations@.drop_last()[i] == b.iterations@[i]);
    }
}

} // verus!
