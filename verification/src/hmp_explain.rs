//! What the search says of itself.

use vstd::prelude::*;
use vstd::string::*;

use crate::combo::text_lists;
use crate::explain::{
    bar_row, card, card_grid, card_texts, ranked_table, render_bar_row, render_card_grid, render_ranked_table, strings,
    Card,
};
use crate::hmp::{HMPPass, HmpState};
use crate::operators::OperatorRankingRow;
use crate::ranking::NodeRankingRow;
use crate::report::{listed_text, rows_text, score_text, show_list, show_rows, show_score};
use crate::step::{
    cost_in, change, change_text, cost_text, milliseconds, ms_text, seconds, seconds_text, show_cost, IterationStat,
};
use crate::text::{
    contains_text, copy_texts, decimal, decimal_text, join, joined, list_at_most, list_le, list_le_antisymmetric,
    round_div, rounded, rounded_is_the_nearest, texts, Text,
};

verus! {

/// The time that the search ends at: that of the best run, or of the baseline
/// where there is none.
pub open spec fn final_time(s: HmpState) -> i64 {
    if s.best_ms == i64::MAX {
        s.baseline_ms
    } else {
        s.best_ms
    }
}

/// What a search came to, in numbers.
#[derive(Debug)]
pub struct PassOutcome {
    pub dag_runs_used: usize,
    pub changes_applied: usize,
    pub candidates_considered: usize,
    pub working_set_size: usize,
    pub baseline_runtime_ms: i64,
    pub final_runtime_ms: i64,
    pub candidates_costed: usize,
    pub new_materializations: Vec<String>,
    pub working_set: Vec<String>,
    pub iterations: Vec<IterationStat>,
    pub max_runs: usize,
    /// In millionths.
    pub top_cpu_time: u64,
    pub search_budget: usize,
    pub normalize_with_cardinality: bool,
    pub downstream_cost: bool,
    pub use_pushdown: bool,
}

/// What the report of a search needs to know.
#[derive(Debug)]
pub struct HmpExplain {
    pub baseline_ms: i64,
    pub final_ms: i64,
    pub runs_used: usize,
    pub max_runs: usize,
    /// In millionths.
    pub top_cpu_time: u64,
    pub normalize_with_cardinality: bool,
    pub operator_rows: Vec<OperatorRankingRow>,
    pub node_rows: Vec<NodeRankingRow>,
    pub working_set: Vec<String>,
    pub best_combo: Vec<String>,
    pub iterations: Vec<IterationStat>,
    pub search_budget: usize,
    pub candidates_costed: usize,
}

/// The iterations of two lists agree in what they hold.
pub open spec fn same_iterations(a: Seq<IterationStat>, b: Seq<IterationStat>) -> bool {
    &&& a.len() == b.len()
    &&& forall|i: int|
        0 <= i < a.len() ==> {
            let x = #[trigger] a[i];
            &&& x.iteration == b[i].iteration
            &&& x.runtime_ms == b[i].runtime_ms
            &&& texts(x.combo@) == texts(b[i].combo@)
            &&& x.predicted_makespan == b[i].predicted_makespan
            &&& x.outcome@ == b[i].outcome@
            &&& cost_in(x) == cost_in(b[i])
            &&& texts(x.samples@) == texts(b[i].samples@)
        }
}

/// A copy of a list of iterations.
fn copy_iterations(list: &Vec<IterationStat>) -> (r: Vec<IterationStat>)
    ensures
        same_iterations(r@, list@),
{
    let mut out: Vec<IterationStat> = Vec::new();
    let mut i: usize = 0;
    while i < list.len()
        invariant
            i <= list@.len(),
            out@.len() == i,
            same_iterations(out@, list@.take(i as int)),
        decreases list@.len() - i,
    {
        let it = &list[i];
        out.push(
            IterationStat {
                iteration: it.iteration,
                runtime_ms: it.runtime_ms,
                combo: copy_texts(&it.combo),
                predicted_makespan: it.predicted_makespan,
                outcome: it.outcome.clone(),
                node_time_ms: it.node_time_ms,
                trial_ms: it.trial_ms,
                resume_overhead_ms: it.resume_overhead_ms,
                resume_ms: it.resume_ms,
                samples: copy_texts(&it.samples),
            },
        );
        i = i + 1;
    }
    proof {
        assert(list@.take(list@.len() as int) =~= list@);
    }
    out
}

impl HMPPass {
    /// What the search came to. Every iteration but the baseline is one
    /// candidate considered.
    pub fn outcome_from(&self, s: &HmpState) -> (r: PassOutcome)
        ensures
            r.dag_runs_used == s.runs_used,
            r.changes_applied == s.best_combo@.len(),
            r.candidates_considered == (if s.iterations@.len() == 0 {
                0
            } else {
                s.iterations@.len() - 1
            }),
            r.working_set_size == s.working_set@.len(),
            r.baseline_runtime_ms == s.baseline_ms,
            r.final_runtime_ms == final_time(*s),
            r.candidates_costed == s.candidates@.len(),
            texts(r.new_materializations@) == texts(s.best_combo@),
            texts(r.working_set@) == texts(s.working_set@),
            same_iterations(r.iterations@, s.iterations@),
            r.max_runs == self.config.max_runs,
            r.top_cpu_time == self.config.top_cpu_time,
            r.search_budget == self.config.search_budget,
            r.normalize_with_cardinality == self.config.normalize_with_cardinality,
            r.downstream_cost == self.config.downstream_cost,
            r.use_pushdown == self.config.use_pushdown,
    {
        let considered: usize = if s.iterations.len() == 0 {
            0
        } else {
            s.iterations.len() - 1
        };
        PassOutcome {
            dag_runs_used: s.runs_used,
            changes_applied: s.best_combo.len(),
            candidates_considered: considered,
            working_set_size: s.working_set.len(),
            baseline_runtime_ms: s.baseline_ms,
            final_runtime_ms: if s.best_ms == i64::MAX {
                s.baseline_ms
            } else {
                s.best_ms
            },
            candidates_costed: s.candidates.len(),
            new_materializations: copy_texts(&s.best_combo),
            working_set: copy_texts(&s.working_set),
            iterations: copy_iterations(&s.iterations),
            max_runs: self.config.max_runs,
            top_cpu_time: self.config.top_cpu_time,
            search_budget: self.config.search_budget,
            normalize_with_cardinality: self.config.normalize_with_cardinality,
            downstream_cost: self.config.downstream_cost,
            use_pushdown: self.config.use_pushdown,
        }
    }

    /// What the report of the search needs, from the state as it now stands.
    pub fn remember_explain(
        &self,
        s: &HmpState,
        operator_rows: Vec<OperatorRankingRow>,
        node_rows: Vec<NodeRankingRow>,
    ) -> (r: HmpExplain)
        ensures
            r.baseline_ms == s.baseline_ms,
            r.final_ms == final_time(*s),
            r.runs_used == s.runs_used,
            r.max_runs == self.config.max_runs,
            r.top_cpu_time == self.config.top_cpu_time,
            r.normalize_with_cardinality == self.config.normalize_with_cardinality,
            r.operator_rows == operator_rows,
            r.node_rows == node_rows,
            texts(r.working_set@) == texts(s.working_set@),
            texts(r.best_combo@) == texts(s.best_combo@),
            same_iterations(r.iterations@, s.iterations@),
            r.search_budget == self.config.search_budget,
            r.candidates_costed == s.candidates@.len(),
    {
        HmpExplain {
            baseline_ms: s.baseline_ms,
            final_ms: if s.best_ms == i64::MAX {
                s.baseline_ms
            } else {
                s.best_ms
            },
            runs_used: s.runs_used,
            max_runs: self.config.max_runs,
            top_cpu_time: self.config.top_cpu_time,
            normalize_with_cardinality: self.config.normalize_with_cardinality,
            operator_rows,
            node_rows,
            working_set: copy_texts(&s.working_set),
            best_combo: copy_texts(&s.best_combo),
            iterations: copy_iterations(&s.iterations),
            search_budget: self.config.search_budget,
            candidates_costed: s.candidates.len(),
        }
    }
}

/// Yes or no.
pub open spec fn yes_no(b: bool) -> Text {
    if b {
        "yes"@
    } else {
        "no"@
    }
}

fn say(b: bool) -> (r: String)
    ensures
        r@ == yes_no(b),
{
    if b {
        "yes".to_owned()
    } else {
        "no".to_owned()
    }
}

/// What changed between the baseline and the end; nothing where there was no
/// time to begin with.
pub open spec fn runtime_change(d: HmpExplain) -> Text {
    if d.baseline_ms > 0 {
        change_text(d.baseline_ms, d.final_ms)
    } else {
        "+0.0%"@
    }
}

/// The search in tiles.
pub open spec fn explain_cards(d: HmpExplain) -> Seq<(Text, Text)> {
    seq![
        ("Baseline runtime"@, ms_text(d.baseline_ms)),
        ("Final runtime"@, ms_text(d.final_ms)),
        ("Change"@, runtime_change(d)),
        ("Materializations chosen"@, decimal(d.best_combo@.len())),
        ("Search budget used"@, decimal(d.runs_used as nat) + "/"@ + decimal(d.max_runs as nat) + " runs"@),
        ("Combinations costed"@, decimal(d.candidates_costed as nat) + "/"@ + decimal(d.search_budget as nat)),
        ("Ranking normalized by cardinality"@, yes_no(d.normalize_with_cardinality)),
    ]
}

fn tiles(d: &HmpExplain) -> (r: Vec<Card>)
    ensures
        card_texts(r@) == explain_cards(*d),
{
    let changed = if d.baseline_ms > 0 {
        change(d.baseline_ms, d.final_ms)
    } else {
        "+0.0%".to_owned()
    };
    let mut used = decimal_text(d.runs_used as u64);
    used.append("/");
    used.append(decimal_text(d.max_runs as u64).as_str());
    used.append(" runs");
    let mut costed = decimal_text(d.candidates_costed as u64);
    costed.append("/");
    costed.append(decimal_text(d.search_budget as u64).as_str());
    let mut cards: Vec<Card> = Vec::new();
    cards.push(card("Baseline runtime", milliseconds(d.baseline_ms)));
    cards.push(card("Final runtime", milliseconds(d.final_ms)));
    cards.push(card("Change", changed));
    cards.push(card("Materializations chosen", decimal_text(d.best_combo.len() as u64)));
    cards.push(card("Search budget used", used));
    cards.push(card("Combinations costed", costed));
    cards.push(card("Ranking normalized by cardinality", say(d.normalize_with_cardinality)));
    proof {
        assert(card_texts(cards@) =~= explain_cards(*d));
    }
    cards
}

/// One View's row.
pub open spec fn view_row(r: NodeRankingRow, working_set: Seq<Text>) -> Seq<Text> {
    seq![
        decimal(r.rank as nat),
        r.node@,
        cost_text(r.total, r.timed) + "s"@,
        rows_text(r.cardinality),
        score_text(r.score, r.timed),
        yes_no(working_set.contains(r.node@)),
        listed_text(texts(r.leaves@), ", "@),
        listed_text(texts(r.matched@), "; "@),
    ]
}

/// The Views' rows.
pub open spec fn view_rows(rows: Seq<NodeRankingRow>, working_set: Seq<Text>) -> Seq<Seq<Text>> {
    rows.map_values(|r: NodeRankingRow| view_row(r, working_set))
}

/// The headers over Views.
pub open spec fn view_headers() -> Seq<Text> {
    seq![
        "Rank"@,
        "View"@,
        "Aggregate CPU time"@,
        "Cardinality"@,
        "Ranking score"@,
        "In working set"@,
        "Reads"@,
        "Matched region"@,
    ]
}

fn list_views(rows: &Vec<NodeRankingRow>, working_set: &Vec<String>) -> (r: Vec<Vec<String>>)
    ensures
        text_lists(r@) == view_rows(rows@, texts(working_set@)),
{
    let ghost set = texts(working_set@);
    let mut out: Vec<Vec<String>> = Vec::new();
    let mut i: usize = 0;
    while i < rows.len()
        invariant
            i <= rows@.len(),
            set == texts(working_set@),
            out@.len() == i,
            forall|k: int| 0 <= k < i ==> texts((#[trigger] out@[k])@) == view_row(rows@[k], set),
        decreases rows@.len() - i,
    {
        let r = &rows[i];
        let mut cost = show_cost(r.total, r.timed);
        cost.append("s");
        let mut cells: Vec<String> = Vec::new();
        cells.push(decimal_text(r.rank as u64));
        cells.push(r.node.clone());
        cells.push(cost);
        cells.push(show_rows(r.cardinality));
        cells.push(show_score(r.score, r.timed));
        cells.push(say(contains_text(working_set, r.node.as_str())));
        cells.push(show_list(&r.leaves, ", "));
        cells.push(show_list(&r.matched, "; "));
        proof {
            assert(texts(cells@) =~= view_row(*r, set));
        }
        out.push(cells);
        i = i + 1;
    }
    proof {
        assert(text_lists(out@) =~= view_rows(rows@, set));
    }
    out
}

/// One operator's row.
pub open spec fn operator_row(r: OperatorRankingRow) -> Seq<Text> {
    seq![
        decimal(r.rank as nat),
        r.operator@,
        seconds_text(r.average as nat) + "s"@,
        decimal(r.table_occurrences as nat),
        joined(texts(r.traced_views@), ", "@),
    ]
}

/// The rows of the first fifteen operators.
pub open spec fn operator_rows(rows: Seq<OperatorRankingRow>) -> Seq<Seq<Text>> {
    Seq::new(
        if rows.len() < 15 {
            rows.len()
        } else {
            15
        },
        |i: int| operator_row(rows[i]),
    )
}

/// The headers over operators.
pub open spec fn operator_row_headers() -> Seq<Text> {
    seq!["Rank"@, "Operator"@, "Avg runtime"@, "Table occurrences"@, "Traced view(s)"@]
}

fn list_operators(rows: &Vec<OperatorRankingRow>) -> (r: Vec<Vec<String>>)
    ensures
        text_lists(r@) == operator_rows(rows@),
{
    let count: usize = if rows.len() < 15 {
        rows.len()
    } else {
        15
    };
    let mut out: Vec<Vec<String>> = Vec::new();
    let mut i: usize = 0;
    while i < count
        invariant
            i <= count <= rows@.len(),
            out@.len() == i,
            forall|k: int| 0 <= k < i ==> texts((#[trigger] out@[k])@) == operator_row(rows@[k]),
        decreases count - i,
    {
        let r = &rows[i];
        let mut average = seconds(r.average);
        average.append("s");
        let mut cells: Vec<String> = Vec::new();
        cells.push(decimal_text(r.rank as u64));
        cells.push(r.operator.clone());
        cells.push(average);
        cells.push(decimal_text(r.table_occurrences as u64));
        cells.push(join(&r.traced_views, ", "));
        proof {
            assert(texts(cells@) =~= operator_row(*r));
        }
        out.push(cells);
        i = i + 1;
    }
    proof {
        assert(text_lists(out@) =~= operator_rows(rows@));
    }
    out
}

/// The longest time of the first `n` iterations, and at least one millisecond.
pub open spec fn longest(its: Seq<IterationStat>, n: nat) -> i64
    decreases n,
{
    if n == 0 {
        1
    } else {
        let rest = longest(its, (n - 1) as nat);
        if its[n - 1].runtime_ms > rest {
            its[n - 1].runtime_ms
        } else {
            rest
        }
    }
}

/// How wide an iteration's bar is, in tenths of a hundredth.
pub open spec fn bar_tenths(runtime_ms: i64, most: i64) -> nat {
    if runtime_ms <= 0 {
        0
    } else {
        rounded((runtime_ms * 1000) as nat, most as nat)
    }
}

/// What an iteration's bar is labelled with.
pub open spec fn bar_label(it: IterationStat, best: Seq<Text>) -> Text {
    let combo = texts(it.combo@);
    let label = if combo.len() == 0 {
        "Iteration "@ + decimal(it.iteration as nat) + " (baseline)"@
    } else {
        "Iteration "@ + decimal(it.iteration as nat) + ": materialize ["@ + joined(combo, ", "@) + "]"@
    };
    if combo.len() > 0 && combo == best {
        label + " — chosen"@
    } else {
        label
    }
}

/// The bars of the first `n` iterations.
pub open spec fn bars(its: Seq<IterationStat>, best: Seq<Text>, n: nat) -> Text
    decreases n,
{
    if n == 0 {
        Seq::<char>::empty()
    } else {
        let it = its[n - 1];
        bars(its, best, (n - 1) as nat) + bar_row(
            bar_label(it, best),
            ms_text(it.runtime_ms),
            bar_tenths(it.runtime_ms, longest(its, its.len())) as u64,
        )
    }
}

proof fn none_longer(its: Seq<IterationStat>, k: int, n: nat)
    requires
        0 <= k < n <= its.len(),
    ensures
        its[k].runtime_ms <= longest(its, n),
    decreases n,
{
    if k < n - 1 {
        none_longer(its, k, (n - 1) as nat);
    }
}

fn find_longest(its: &Vec<IterationStat>) -> (r: i64)
    ensures
        r == longest(its@, its@.len()),
        r >= 1,
{
    let mut most: i64 = 1;
    let mut i: usize = 0;
    while i < its.len()
        invariant
            i <= its@.len(),
            most >= 1,
            most == longest(its@, i as nat),
        decreases its@.len() - i,
    {
        if its[i].runtime_ms > most {
            most = its[i].runtime_ms;
        }
        i = i + 1;
    }
    most
}

/// Whether two lists hold the same texts in the same order.
fn same_list(a: &Vec<String>, b: &Vec<String>) -> (r: bool)
    ensures
        r == (texts(a@) == texts(b@)),
{
    proof {
        if list_le(texts(a@), texts(b@)) && list_le(texts(b@), texts(a@)) {
            list_le_antisymmetric(texts(a@), texts(b@));
        }
        if texts(a@) == texts(b@) {
            crate::text::list_le_total(texts(a@), texts(b@));
        }
    }
    list_at_most(a, b) && list_at_most(b, a)
}

fn label_bar(it: &IterationStat, best: &Vec<String>) -> (r: String)
    ensures
        r@ == bar_label(*it, texts(best@)),
{
    let mut label = "Iteration ".to_owned();
    label.append(decimal_text(it.iteration as u64).as_str());
    if it.combo.len() == 0 {
        label.append(" (baseline)");
    } else {
        label.append(": materialize [");
        label.append(join(&it.combo, ", ").as_str());
        label.append("]");
        if same_list(&it.combo, best) {
            label.append(" — chosen");
        }
    }
    proof {
        assert(texts(it.combo@).len() == it.combo@.len());
        assert(label@ =~= bar_label(*it, texts(best@)));
    }
    label
}

fn draw_bars(its: &Vec<IterationStat>, best: &Vec<String>) -> (r: String)
    ensures
        r@ == bars(its@, texts(best@), its@.len()),
{
    let most = find_longest(its);
    let mut out = String::new();
    let mut i: usize = 0;
    proof {
        assert(out@ =~= bars(its@, texts(best@), 0));
    }
    while i < its.len()
        invariant
            i <= its@.len(),
            most == longest(its@, its@.len()),
            most >= 1,
            out@ == bars(its@, texts(best@), i as nat),
        decreases its@.len() - i,
    {
        let it = &its[i];
        let ms: i64 = it.runtime_ms;
        let tenths: u64 = if ms <= 0 {
            0
        } else {
            let wide = round_div(ms as u128 * 1000, most as u128);
            proof {
                none_longer(its@, i as int, its@.len());
                share_is_at_most_whole(ms as nat, most as nat);
            }
            wide as u64
        };
        out.append(render_bar_row(label_bar(it, best).as_str(), milliseconds(ms).as_str(), tenths).as_str());
        proof {
            assert(out@ =~= bars(its@, texts(best@), (i + 1) as nat));
        }
        i = i + 1;
    }
    out
}

/// A time is at most the whole of the longest.
proof fn share_is_at_most_whole(ms: nat, most: nat)
    requires
        0 < ms <= most,
    ensures
        rounded(ms * 1000, most) <= 1000,
{
    let a = ms * 1000;
    vstd::arithmetic::div_mod::lemma_fundamental_div_mod(a as int, most as int);
    let q = a / most;
    let rest = a % most;
    assert(q <= 1000 && (q == 1000 ==> rest == 0)) by (nonlinear_arith)
        requires
            a == most * q + rest,
            0 <= rest < most,
            a <= most * 1000,
    ;
    assert(a <= most * 1000);
}

/// How combinations are searched.
pub open spec fn search_text(d: HmpExplain) -> Text {
    "Combinations of working-set nodes were priced before any of them was run: up to "@ + decimal(
        d.search_budget as nat,
    )
        + " of them, each costed by inlining its members as materialized CTEs and charging every copy but one. A combination is costed as a chain -- each member against a DAG in which the members before it are already tables -- so a node is not credited with removing work that another member of the same combination already removed. "@
        + decimal(d.candidates_costed as nat)
        + " were costed, and the run budget was spent on them in descending order of the duplicate computation they remove."@
}

/// What the search did, as HTML.
pub open spec fn hmp_html(data: Option<HmpExplain>) -> Text {
    match data {
        None => "<div class=\"panel\"><p class=\"subtle\">HMPPass did not run.</p></div>"@,
        Some(d) => "<div class=\"section-stack\">\n        "@ + card_grid(explain_cards(d))
            + "\n        <div class=\"panel\">\n          <h2>Why these nodes were considered</h2>\n          <div class=\"subtle\">Views with out-degree &gt; 1 and more than one downstream path to a TABLE/TEMP_TABLE node are candidates because materializing them can deduplicate work repeated by every downstream consumer. They're ranked by the aggregate CPU time of every operator (from the baseline's EXPLAIN plans) traced back to them. The working set walks this ranking, accumulating nodes until it covers "@
            + decimal(rounded(d.top_cpu_time as nat, 10000)) + "% of the total ranked CPU time.</div>\n          "@
            + ranked_table(view_headers(), view_rows(d.node_rows@, texts(d.working_set@)))
            + "\n        </div>\n        <div class=\"panel\">\n          <h2>Operators traced back to candidate views</h2>\n          <div class=\"subtle\">Operators from materialized plans, with their average runtime across occurrences.</div>\n          "@
            + ranked_table(operator_row_headers(), operator_rows(d.operator_rows@))
            + "\n        </div>\n        <div class=\"panel\">\n          <h2>Combinations searched</h2>\n          <div class=\"subtle\">\n            "@
            + search_text(d)
            + "\n            The combination with the lowest runtime was applied to the DAG.\n          </div>\n          <div class=\"plan-tree\">"@
            + bars(d.iterations@, texts(d.best_combo@), d.iterations@.len()) + "</div>\n        </div>\n      </div>"@,
    }
}

fn describe_search(d: &HmpExplain) -> (r: String)
    ensures
        r@ == search_text(*d),
{
    let mut out = "Combinations of working-set nodes were priced before any of them was run: up to ".to_owned();
    out.append(decimal_text(d.search_budget as u64).as_str());
    out.append(
        " of them, each costed by inlining its members as materialized CTEs and charging every copy but one. A combination is costed as a chain -- each member against a DAG in which the members before it are already tables -- so a node is not credited with removing work that another member of the same combination already removed. ",
    );
    out.append(decimal_text(d.candidates_costed as u64).as_str());
    out.append(
        " were costed, and the run budget was spent on them in descending order of the duplicate computation they remove.",
    );
    out
}

/// What the search did, as HTML.
pub fn explain_html(data: &Option<HmpExplain>) -> (r: String)
    ensures
        r@ == hmp_html(*data),
{
    let d = match data {
        None => {
            return "<div class=\"panel\"><p class=\"subtle\">HMPPass did not run.</p></div>".to_owned();
        },
        Some(d) => d,
    };
    let view_names = strings(
        &[
            "Rank",
            "View",
            "Aggregate CPU time",
            "Cardinality",
            "Ranking score",
            "In working set",
            "Reads",
            "Matched region",
        ],
    );
    let operator_names = strings(&["Rank", "Operator", "Avg runtime", "Table occurrences", "Traced view(s)"]);
    proof {
        assert(texts(view_names@) =~= view_headers());
        assert(texts(operator_names@) =~= operator_row_headers());
    }
    let mut out = "<div class=\"section-stack\">\n        ".to_owned();
    out.append(render_card_grid(&tiles(d)).as_str());
    out.append(
        "\n        <div class=\"panel\">\n          <h2>Why these nodes were considered</h2>\n          <div class=\"subtle\">Views with out-degree &gt; 1 and more than one downstream path to a TABLE/TEMP_TABLE node are candidates because materializing them can deduplicate work repeated by every downstream consumer. They're ranked by the aggregate CPU time of every operator (from the baseline's EXPLAIN plans) traced back to them. The working set walks this ranking, accumulating nodes until it covers ",
    );
    out.append(crate::text::decimal_wide(round_div(d.top_cpu_time as u128, 10000)).as_str());
    out.append("% of the total ranked CPU time.</div>\n          ");
    out.append(render_ranked_table(&view_names, &list_views(&d.node_rows, &d.working_set)).as_str());
    out.append(
        "\n        </div>\n        <div class=\"panel\">\n          <h2>Operators traced back to candidate views</h2>\n          <div class=\"subtle\">Operators from materialized plans, with their average runtime across occurrences.</div>\n          ",
    );
    out.append(render_ranked_table(&operator_names, &list_operators(&d.operator_rows)).as_str());
    out.append(
        "\n        </div>\n        <div class=\"panel\">\n          <h2>Combinations searched</h2>\n          <div class=\"subtle\">\n            ",
    );
    out.append(describe_search(d).as_str());
    out.append(
        "\n            The combination with the lowest runtime was applied to the DAG.\n          </div>\n          <div class=\"plan-tree\">",
    );
    out.append(draw_bars(&d.iterations, &d.best_combo).as_str());
    out.append("</div>\n        </div>\n      </div>");
    out
}

/// The longest time is no shorter than any, and one of them unless all are
/// shorter than a millisecond.
pub proof fn the_longest_is_the_longest(its: Seq<IterationStat>, n: nat)
    requires
        n <= its.len(),
    ensures
        longest(its, n) >= 1,
        forall|i: int| 0 <= i < n ==> longest(its, n) >= (#[trigger] its[i]).runtime_ms,
        longest(its, n) == 1 || exists|i: int| 0 <= i < n && longest(its, n) == (#[trigger] its[i]).runtime_ms,
    decreases n,
{
    if n > 0 {
        the_longest_is_the_longest(its, (n - 1) as nat);
    }
}

/// The longest run has a full bar, no run has a longer one, and every bar is
/// in proportion but for rounding.
pub proof fn bars_are_in_proportion(runtime_ms: i64, most: i64)
    requires
        0 < runtime_ms <= most,
    ensures
        bar_tenths(most, most) == 1000,
        bar_tenths(runtime_ms, most) <= 1000,
        2 * (bar_tenths(runtime_ms, most) * most) <= 2000 * runtime_ms + most,
        2000 * runtime_ms <= 2 * (bar_tenths(runtime_ms, most) * most) + most,
        bar_tenths(0, most) == 0,
{
    rounded_is_the_nearest((runtime_ms * 1000) as nat, most as nat);
    rounded_is_the_nearest((most * 1000) as nat, most as nat);
    vstd::arithmetic::div_mod::lemma_fundamental_div_mod_converse(most * 1000, most as int, 1000, 0);
    let t = bar_tenths(runtime_ms, most);
    if t > 1000 {
        assert(t * most >= 1001 * most) by (nonlinear_arith)
            requires
                t >= 1001,
                most > 0,
        ;
    }
}

/// Every operator among the first fifteen has a row of its own, and no other
/// has one.
pub proof fn the_first_fifteen_operators_are_shown(rows: Seq<OperatorRankingRow>, row: OperatorRankingRow)
    ensures
        operator_rows(rows).len() <= rows.len(),
        rows.len() < 15 ==> operator_rows(rows.push(row)) == operator_rows(rows).push(operator_row(row)),
        rows.len() >= 15 ==> operator_rows(rows.push(row)) == operator_rows(rows),
        operator_rows(Seq::<OperatorRankingRow>::empty()).len() == 0,
{
    if rows.len() < 15 {
        assert(operator_rows(rows.push(row)) =~= operator_rows(rows).push(operator_row(row)));
    } else {
        assert(operator_rows(rows.push(row)) =~= operator_rows(rows));
    }
}

} // verus!
