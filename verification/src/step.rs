//! What a pass and whoever runs the graph say to each other.

use vstd::prelude::*;
use vstd::string::*;

use crate::search::clamped;
use crate::text::{
    fixed_point, fixed_point_text, round_div, rounded, rounded_is_the_nearest, signed_decimal, signed_decimal_text, text_eq,
    texts, Text,
};

verus! {

/// On which side of a run of the graph a pass has its turn.
#[derive(Debug, Clone, Copy, PartialEq, Eq, Structural)]
pub enum StepPhase {
    Before,
    After,
    Both,
}

/// Whether a pass decides from the graph alone, or by measured runs.
#[derive(Debug, Clone, Copy, PartialEq, Eq, Structural)]
pub enum OptimizationType {
    Once,
    Continuous,
}

/// Which measure a trial's budget caps.
#[derive(Debug, Clone, Copy, PartialEq, Eq, Structural)]
pub enum BudgetMetric {
    WallClock,
    NodeTime,
}

/// Where a search is.
#[derive(Debug, Clone, Copy, PartialEq, Eq, Structural)]
pub enum SearchPhase {
    /// The first measurement is still to come.
    Baseline,
    /// Candidates are being tried.
    Searching,
    /// The winner has been installed.
    Converged,
    /// Nothing that is known.
    Unknown,
}

/// What the parts of a run took that was cut short and then finished without
/// the candidate, in milliseconds.
#[derive(Debug, Clone, Copy, PartialEq, Eq, Structural)]
pub struct ResumeTiming {
    /// The trial, up to where it was cut short.
    pub trial_ms: i64,
    /// Going over to the rest.
    pub overhead_ms: i64,
    /// The rest.
    pub resume_ms: i64,
    /// The time of all nodes in the trial together.
    pub trial_node_time_ms: i64,
    /// The time of all nodes in the rest together.
    pub resume_node_time_ms: i64,
}

/// What a run of the graph turned out to be.
#[derive(Debug, Clone, Copy)]
pub enum RunReport {
    /// There was no run.
    NoRun,
    /// The run is not a measurement.
    Warmup,
    /// The run was to be a measurement and gave none: it was cut short, or it
    /// failed. Where it was cut short and finished without the candidate, what
    /// its parts took.
    Censored { resumed: Option<ResumeTiming> },
    /// The wall-clock time, and the time of all nodes together, in
    /// milliseconds.
    Measured { runtime_ms: i64, node_time_ms: i64 },
}

/// One measured run of a search.
#[derive(Debug)]
pub struct IterationStat {
    pub iteration: usize,
    pub runtime_ms: i64,
    /// What was materialized.
    pub combo: Vec<String>,
    pub predicted_makespan: Option<i64>,
    pub outcome: String,
    /// The time of all nodes together, where it was reported.
    pub node_time_ms: Option<i64>,
    /// The three parts of a run that was cut short and finished without the
    /// candidate.
    pub trial_ms: Option<i64>,
    pub resume_overhead_ms: Option<i64>,
    pub resume_ms: Option<i64>,
    /// What the machine was seen to do meanwhile, sample by sample as it was
    /// written down; empty where that is not kept.
    pub samples: Vec<String>,
}

/// What a run cost, as opposed to what it says of a candidate.
#[derive(Debug, Clone, Copy, PartialEq, Eq, Structural)]
pub struct RunCost {
    pub node_time_ms: Option<i64>,
    pub trial_ms: Option<i64>,
    pub resume_overhead_ms: Option<i64>,
    pub resume_ms: Option<i64>,
}

/// What a run cost that turned out to be what `report` says. Both parts of a
/// run that was cut short do work, and both are charged.
pub open spec fn cost_of(report: RunReport) -> RunCost {
    match report {
        RunReport::Measured { node_time_ms, .. } => RunCost {
            node_time_ms: Some(node_time_ms),
            trial_ms: None,
            resume_overhead_ms: None,
            resume_ms: None,
        },
        RunReport::Censored { resumed: Some(t) } => RunCost {
            node_time_ms: Some(clamped(t.trial_node_time_ms + t.resume_node_time_ms)),
            trial_ms: Some(t.trial_ms),
            resume_overhead_ms: Some(t.overhead_ms),
            resume_ms: Some(t.resume_ms),
        },
        _ => RunCost { node_time_ms: None, trial_ms: None, resume_overhead_ms: None, resume_ms: None },
    }
}

/// `x`, or the nearest machine number.
fn nearest_number(x: i128) -> (r: i64)
    ensures
        r == clamped(x as int),
{
    if x < i64::MIN as i128 {
        i64::MIN
    } else if x > i64::MAX as i128 {
        i64::MAX
    } else {
        x as i64
    }
}

/// What a run cost.
pub fn run_cost(report: RunReport) -> (r: RunCost)
    ensures
        r == cost_of(report),
{
    match report {
        RunReport::Measured { node_time_ms, .. } => RunCost {
            node_time_ms: Some(node_time_ms),
            trial_ms: None,
            resume_overhead_ms: None,
            resume_ms: None,
        },
        RunReport::Censored { resumed: Some(t) } => RunCost {
            node_time_ms: Some(nearest_number(t.trial_node_time_ms as i128 + t.resume_node_time_ms as i128)),
            trial_ms: Some(t.trial_ms),
            resume_overhead_ms: Some(t.overhead_ms),
            resume_ms: Some(t.resume_ms),
        },
        _ => RunCost { node_time_ms: None, trial_ms: None, resume_overhead_ms: None, resume_ms: None },
    }
}

/// What an iteration says that its run cost.
pub open spec fn cost_in(i: IterationStat) -> RunCost {
    RunCost {
        node_time_ms: i.node_time_ms,
        trial_ms: i.trial_ms,
        resume_overhead_ms: i.resume_overhead_ms,
        resume_ms: i.resume_ms,
    }
}

/// A part of a run, nothing where there was none.
pub open spec fn part(ms: Option<i64>) -> int {
    match ms {
        Some(x) => x as int,
        None => 0,
    }
}

/// How long the run took altogether.
pub open spec fn total_time(i: IterationStat) -> i64 {
    match i.trial_ms {
        Some(trial) => clamped(trial + part(i.resume_overhead_ms) + part(i.resume_ms)),
        None => i.runtime_ms,
    }
}

impl IterationStat {
    /// How long the run took altogether, in milliseconds: its three parts where
    /// it was cut short.
    pub fn total_ms(&self) -> (r: i64)
        ensures
            r == total_time(*self),
    {
        match self.trial_ms {
            Some(trial) => {
                let overhead: i64 = match self.resume_overhead_ms {
                    Some(x) => x,
                    None => 0,
                };
                let rest: i64 = match self.resume_ms {
                    Some(x) => x,
                    None => 0,
                };
                nearest_number(trial as i128 + overhead as i128 + rest as i128)
            },
            None => self.runtime_ms,
        }
    }
}

/// The name of a phase.
pub open spec fn phase_name(p: SearchPhase) -> Text {
    match p {
        SearchPhase::Baseline => "baseline"@,
        SearchPhase::Searching => "searching"@,
        SearchPhase::Converged => "converged"@,
        SearchPhase::Unknown => "unknown"@,
    }
}

/// The phase that a name stands for.
pub open spec fn named_phase(name: Text) -> SearchPhase {
    if name == "baseline"@ {
        SearchPhase::Baseline
    } else if name == "searching"@ {
        SearchPhase::Searching
    } else if name == "converged"@ {
        SearchPhase::Converged
    } else {
        SearchPhase::Unknown
    }
}

/// A phase's name stands for the phase.
pub proof fn phase_name_round_trips(p: SearchPhase)
    ensures
        named_phase(phase_name(p)) == p,
{
    reveal_strlit("baseline");
    reveal_strlit("searching");
    reveal_strlit("converged");
    reveal_strlit("unknown");
    assert("baseline"@.len() == 8 && "searching"@.len() == 9 && "converged"@.len() == 9 && "unknown"@.len() == 7);
    assert("searching"@[0] != "converged"@[0]);
}

impl SearchPhase {
    /// The phase's name.
    pub fn as_str(self) -> (r: &'static str)
        ensures
            r@ == phase_name(self),
    {
        match self {
            SearchPhase::Baseline => "baseline",
            SearchPhase::Searching => "searching",
            SearchPhase::Converged => "converged",
            SearchPhase::Unknown => "unknown",
        }
    }

    /// The phase that a name stands for.
    pub fn parse(name: &str) -> (r: SearchPhase)
        ensures
            r == named_phase(name@),
    {
        if text_eq(name, "baseline") {
            SearchPhase::Baseline
        } else if text_eq(name, "searching") {
            SearchPhase::Searching
        } else if text_eq(name, "converged") {
            SearchPhase::Converged
        } else {
            SearchPhase::Unknown
        }
    }
}

/// A number of milliseconds.
pub open spec fn ms_text(n: i64) -> Text {
    signed_decimal(n as int) + " ms"@
}

/// A number of milliseconds.
pub fn milliseconds(n: i64) -> (r: String)
    ensures
        r@ == ms_text(n),
{
    let mut out = signed_decimal_text(n);
    out.append(" ms");
    out
}

/// How far `to` is from `from`, in hundredths of it with one decimal place.
pub open spec fn change_text(from: i64, to: i64) -> Text {
    let apart = if to < from {
        (from - to) as nat
    } else {
        (to - from) as nat
    };
    (if to < from {
        "-"@
    } else {
        "+"@
    }) + fixed_point(rounded(apart * 1000, from as nat), 1) + "%"@
}

/// How far `to` is from `from`, in hundredths of it.
pub fn change(from: i64, to: i64) -> (r: String)
    requires
        from > 0,
    ensures
        r@ == change_text(from, to),
{
    let mut out = if to < from {
        "-".to_owned()
    } else {
        "+".to_owned()
    };
    let apart: u128 = if to < from {
        (from as i128 - to as i128) as u128
    } else {
        (to as i128 - from as i128) as u128
    };
    let tenths = round_div(apart * 1000, from as u128);
    out.append(fixed_point_text(tenths, 1).as_str());
    out.append("%");
    out
}

/// Nanoseconds as seconds, to four places.
pub open spec fn seconds_text(ns: nat) -> Text {
    fixed_point(rounded(ns, 100000), 4)
}

/// Nanoseconds as seconds, to four places.
pub fn seconds(ns: u64) -> (r: String)
    ensures
        r@ == seconds_text(ns as nat),
{
    fixed_point_text(round_div(ns as u128, 100000), 4)
}

/// A cost to four places: seconds, or units of the cost model.
pub open spec fn cost_text(total: u64, timed: bool) -> Text {
    if timed {
        seconds_text(total as nat)
    } else {
        fixed_point((total * 10000) as nat, 4)
    }
}

/// A cost to four places.
pub fn show_cost(total: u64, timed: bool) -> (r: String)
    ensures
        r@ == cost_text(total, timed),
{
    if timed {
        seconds(total)
    } else {
        fixed_point_text(total as u128 * 10000, 4)
    }
}

/// `n + 1`, as far as a machine number goes.
pub open spec fn succ(n: nat) -> nat {
    if n < usize::MAX {
        n + 1
    } else {
        usize::MAX as nat
    }
}

/// `n + 1`, as far as a machine number goes.
pub fn next(n: usize) -> (r: usize)
    ensures
        r == succ(n as nat),
{
    if n < usize::MAX {
        n + 1
    } else {
        n
    }
}

/// What was learned after a run.
#[derive(Debug, Clone, Copy, PartialEq, Eq, Structural)]
pub enum Learned {
    /// Nothing.
    Nothing,
    /// The baseline.
    Baseline,
    /// What the trial in progress takes, and whether that is better.
    Trial { improved: bool },
    /// That the trial in progress cannot be better.
    Rejected,
}

/// One iteration was added, with no samples kept of it.
pub open spec fn appended(
    before: Seq<IterationStat>,
    after: Seq<IterationStat>,
    iteration: nat,
    runtime_ms: i64,
    combo: Seq<Text>,
    predicted_makespan: Option<i64>,
    outcome: Text,
    cost: RunCost,
) -> bool {
    &&& after.len() == before.len() + 1
    &&& after.drop_last() == before
    &&& after.last().iteration == iteration
    &&& after.last().runtime_ms == runtime_ms
    &&& texts(after.last().combo@) == combo
    &&& after.last().predicted_makespan == predicted_makespan
    &&& after.last().outcome@ == outcome
    &&& cost_in(after.last()) == cost
    &&& after.last().samples@.len() == 0
}

/// Where a search stands once none of its `n` candidates is left, having stood
/// at `cursor`.
pub open spec fn furthest(cursor: usize, n: nat) -> int {
    if cursor < n {
        n as int
    } else {
        cursor as int
    }
}

/// The signatures of what was measured, with `sig` among them.
pub open spec fn noted(tried: Seq<Text>, sig: Text) -> Seq<Text> {
    if tried.contains(sig) {
        tried
    } else {
        tried.push(sig)
    }
}

/// Noting a signature loses none and repeats none.
pub proof fn noting_keeps_distinct(tried: Seq<Text>, sig: Text)
    requires
        tried.no_duplicates(),
    ensures
        noted(tried, sig).no_duplicates(),
        noted(tried, sig).contains(sig),
        tried.to_set().subset_of(noted(tried, sig).to_set()),
{
    let after = noted(tried, sig);
    if !tried.contains(sig) {
        assert(after[tried.len() as int] == sig);
    }
    assert forall|t: Text| tried.to_set().contains(t) implies after.to_set().contains(t) by {
        let i = choose|i: int| 0 <= i < tried.len() && tried[i] == t;
        assert(after[i] == t);
    }
}

/// A run that was cut short took its three parts together, and both of its
/// halves worked; any other run took its own time.
pub proof fn a_run_takes_all_of_its_parts(i: IterationStat, t: ResumeTiming, runtime_ms: i64, node_time_ms: i64)
    requires
        i64::MIN <= t.trial_node_time_ms + t.resume_node_time_ms <= i64::MAX,
        i64::MIN <= t.trial_ms + t.overhead_ms + t.resume_ms <= i64::MAX,
    ensures
        i.trial_ms is None ==> total_time(i) == i.runtime_ms,
        cost_in(i) == cost_of(RunReport::Censored { resumed: Some(t) }) ==> total_time(i) == t.trial_ms + t.overhead_ms
            + t.resume_ms && i.node_time_ms is Some && i.node_time_ms->0 == t.trial_node_time_ms + t.resume_node_time_ms,
        cost_in(i) == cost_of(RunReport::Measured { runtime_ms, node_time_ms }) ==> i.node_time_ms == Some(node_time_ms)
            && total_time(i) == i.runtime_ms,
{
}

/// Noting a signature adds it at most once and forgets none.
pub proof fn noting_forgets_nothing(tried: Seq<Text>, sig: Text, other: Text)
    ensures
        noted(tried, sig).contains(sig),
        tried.contains(other) ==> noted(tried, sig).contains(other),
        noted(tried, sig).contains(other) ==> tried.contains(other) || other == sig,
        noted(noted(tried, sig), sig) == noted(tried, sig),
{
    let more = tried.push(sig);
    assert(more[tried.len() as int] == sig);
    if tried.contains(other) {
        let k = choose|k: int| 0 <= k < tried.len() && tried[k] == other;
        assert(more[k] == other);
    }
}

/// A change is told with its sign, in tenths of a hundredth of what it started
/// from, to the nearest.
pub proof fn a_change_is_told_to_the_nearest(from: i64, to: i64, tenths: nat)
    requires
        from > 0,
        2 * (tenths * from) < 2000 * (if to < from { from - to } else { to - from }) + from,
        2000 * (if to < from { from - to } else { to - from }) < 2 * (tenths * from) + from,
    ensures
        to < from ==> change_text(from, to) == "-"@ + fixed_point(tenths, 1) + "%"@,
        to >= from ==> change_text(from, to) == "+"@ + fixed_point(tenths, 1) + "%"@,
{
    let apart: nat = (if to < from { from - to } else { to - from }) as nat;
    rounded_is_the_nearest(apart * 1000, from as nat);
    let r = rounded(apart * 1000, from as nat);
    if r > tenths {
        assert(r * from >= tenths * from + from) by (nonlinear_arith)
            requires
                r >= tenths + 1,
                from > 0,
        ;
    }
    if r < tenths {
        assert(tenths * from >= r * from + from) by (nonlinear_arith)
            requires
                tenths >= r + 1,
                from > 0,
        ;
    }
}

/// Nanoseconds are told in seconds with four places, to the nearest.
pub proof fn seconds_are_told_to_the_nearest(ns: nat, ten_thousandths: nat)
    requires
        2 * (ten_thousandths * 100000) < 2 * ns + 100000,
        2 * ns < 2 * (ten_thousandths * 100000) + 100000,
    ensures
        seconds_text(ns) == fixed_point(ten_thousandths, 4),
{
    rounded_is_the_nearest(ns, 100000);
}

} // verus!
