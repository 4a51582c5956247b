//! What the fusion pass says of itself.

use vstd::prelude::*;
use vstd::string::*;

use crate::combo::{objective_name, text_lists, HmpObjective};
use crate::explain::{card, card_grid, card_texts, ranked_table, render_card_grid, render_ranked_table, strings, Card};
use crate::fusion::{CtePlan, TablePlan};
use crate::fusion_search::{describe_set, reason_text, set_label, NodeFusionCandidate, NodeFusionState};
use crate::nodefusion::{count_materialized, materialized_count, FusionReport};
use crate::step::{change, change_text, milliseconds, ms_text, phase_name};
use crate::text::{decimal, decimal_text, signed_decimal, signed_decimal_text, texts, Text};

verus! {

/// What changed between the baseline and the best run, where both are known.
pub open spec fn change_of(s: NodeFusionState) -> Text {
    if s.baseline_ms > 0 && s.best_ms != i64::MAX {
        change_text(s.baseline_ms, s.best_ms)
    } else {
        "-"@
    }
}

/// A measured time, or a dash where none is known.
pub open spec fn known_ms(n: i64, unknown: bool) -> Text {
    if unknown {
        "-"@
    } else {
        ms_text(n)
    }
}

/// What the search has come to, in tiles.
pub open spec fn search_cards(s: NodeFusionState, objective: HmpObjective) -> Seq<(Text, Text)> {
    seq![
        ("Objective"@, objective_name(objective)),
        ("Phase"@, phase_name(s.phase)),
        ("Baseline"@, known_ms(s.baseline_ms, s.baseline_ms <= 0)),
        ("Best"@, known_ms(s.best_ms, s.best_ms == i64::MAX)),
        ("Change"@, change_of(s)),
        ("Best query time"@, known_ms(s.best_node_time_ms, s.best_node_time_ms == i64::MAX)),
        ("DAG runs"@, decimal(s.runs_used as nat)),
        ("Iterations"@, decimal(s.iterations@.len())),
        ("Candidates priced"@, decimal(s.candidates@.len())),
        ("Working set"@, decimal(s.working_set@.len())),
        (
            "Winner"@,
            match s.best_set {
                Some(set) => set_label(texts(set@)),
                None => "the default rule"@,
            },
        ),
        ("Default rule"@, set_label(texts(s.default_set@))),
    ]
}

/// One candidate's row.
pub open spec fn candidate_row(c: NodeFusionCandidate, i: int) -> Seq<Text> {
    seq![
        decimal((i + 1) as nat),
        set_label(texts(c.set@)),
        signed_decimal(c.cost as int),
        match c.makespan {
            Some(m) => signed_decimal(m as int),
            None => "-"@,
        },
        decimal(c.stages as nat),
    ]
}

/// The candidates' rows.
pub open spec fn candidate_rows(c: Seq<NodeFusionCandidate>) -> Seq<Seq<Text>> {
    Seq::new(c.len(), |i: int| candidate_row(c[i], i))
}

/// Why nothing was tried, where nothing was.
pub open spec fn why_nothing(s: NodeFusionState) -> Text {
    match s.no_candidates_because {
        Some(reason) => if s.candidates@.len() == 0 {
            "<div class=\"subtle\"><b>No candidate was tried.</b> "@ + reason_text(reason) + ".</div>"@
        } else {
            Seq::<char>::empty()
        },
        None => Seq::<char>::empty(),
    }
}

/// What the search did.
pub open spec fn search_panel_html(s: NodeFusionState, objective: HmpObjective) -> Text {
    "<div class=\"panel\">\n          <h2>The adaptive search</h2>\n          "@ + why_nothing(s)
        + "\n          <div class=\"subtle\">Candidate sets of CTEs to mark <code>AS MATERIALIZED</code>, priced by EXPLAINing the fused query with each set applied and ordered by the objective. <b>Work removed</b> is relative to the default rule, higher is better; <b>Path</b> is the longest chain through the WITH clause with that set materialized, lower is better. The two disagree because materializing removes repeated computation and inserts a barrier, which is why the objective picks both the order candidates are trialled in and the test each has to pass. The spool term behind both is modelled rather than measured.</div>\n          "@
        + card_grid(search_cards(s, objective)) + "\n          "@ + ranked_table(
        seq!["#"@, "Materialized set"@, "Work removed"@, "Path"@, "Stages"@],
        candidate_rows(s.candidates@),
    ) + "\n        </div>"@
}

/// The candidates' rows.
fn list_candidates(c: &Vec<NodeFusionCandidate>) -> (r: Vec<Vec<String>>)
    ensures
        text_lists(r@) == candidate_rows(c@),
{
    let mut rows: Vec<Vec<String>> = Vec::new();
    let mut i: usize = 0;
    while i < c.len()
        invariant
            i <= c@.len(),
            rows@.len() == i,
            forall|k: int| 0 <= k < i ==> texts((#[trigger] rows@[k])@) == candidate_row(c@[k], k),
        decreases c@.len() - i,
    {
        let mut row: Vec<String> = Vec::new();
        row.push(decimal_text(i as u64 + 1));
        row.push(describe_set(&c[i].set));
        row.push(signed_decimal_text(c[i].cost));
        row.push(
            match c[i].makespan {
                Some(m) => signed_decimal_text(m),
                None => "-".to_owned(),
            },
        );
        row.push(decimal_text(c[i].stages as u64));
        proof {
            assert(texts(row@) =~= candidate_row(c@[i as int], i as int));
        }
        rows.push(row);
        i = i + 1;
    }
    proof {
        assert(text_lists(rows@) =~= candidate_rows(c@));
    }
    rows
}

/// A measured time, or a dash where none is known.
fn show_ms(n: i64, unknown: bool) -> (r: String)
    ensures
        r@ == known_ms(n, unknown),
{
    if unknown {
        "-".to_owned()
    } else {
        milliseconds(n)
    }
}

/// What the search did.
pub fn search_panel(s: &NodeFusionState, objective: HmpObjective) -> (r: String)
    ensures
        r@ == search_panel_html(*s, objective),
{
    let changed = if s.baseline_ms > 0 && s.best_ms != i64::MAX {
        change(s.baseline_ms, s.best_ms)
    } else {
        "-".to_owned()
    };
    let winner = match &s.best_set {
        Some(set) => describe_set(set),
        None => "the default rule".to_owned(),
    };
    let mut cards: Vec<Card> = Vec::new();
    cards.push(card("Objective", objective.as_str().to_owned()));
    cards.push(card("Phase", s.phase.as_str().to_owned()));
    cards.push(card("Baseline", show_ms(s.baseline_ms, s.baseline_ms <= 0)));
    cards.push(card("Best", show_ms(s.best_ms, s.best_ms == i64::MAX)));
    cards.push(card("Change", changed));
    cards.push(card("Best query time", show_ms(s.best_node_time_ms, s.best_node_time_ms == i64::MAX)));
    cards.push(card("DAG runs", decimal_text(s.runs_used as u64)));
    cards.push(card("Iterations", decimal_text(s.iterations.len() as u64)));
    cards.push(card("Candidates priced", decimal_text(s.candidates.len() as u64)));
    cards.push(card("Working set", decimal_text(s.working_set.len() as u64)));
    cards.push(card("Winner", winner));
    cards.push(card("Default rule", describe_set(&s.default_set)));
    proof {
        assert(card_texts(cards@) =~= search_cards(*s, objective));
    }
    let headers = strings(&["#", "Materialized set", "Work removed", "Path", "Stages"]);
    proof {
        assert(texts(headers@) =~= seq!["#"@, "Materialized set"@, "Work removed"@, "Path"@, "Stages"@]);
    }
    let mut out = "<div class=\"panel\">\n          <h2>The adaptive search</h2>\n          ".to_owned();
    let mut why = String::new();
    if let Some(reason) = s.no_candidates_because {
        if s.candidates.len() == 0 {
            why.append("<div class=\"subtle\"><b>No candidate was tried.</b> ");
            why.append(reason.text());
            why.append(".</div>");
        }
    }
    proof {
        assert(why@ =~= why_nothing(*s));
    }
    out.append(why.as_str());
    out.append(
        "\n          <div class=\"subtle\">Candidate sets of CTEs to mark <code>AS MATERIALIZED</code>, priced by EXPLAINing the fused query with each set applied and ordered by the objective. <b>Work removed</b> is relative to the default rule, higher is better; <b>Path</b> is the longest chain through the WITH clause with that set materialized, lower is better. The two disagree because materializing removes repeated computation and inserts a barrier, which is why the objective picks both the order candidates are trialled in and the test each has to pass. The spool term behind both is modelled rather than measured.</div>\n          ",
    );
    out.append(render_card_grid(&cards).as_str());
    out.append("\n          ");
    out.append(render_ranked_table(&headers, &list_candidates(&s.candidates)).as_str());
    out.append("\n        </div>");
    out
}

/// One expression's row.
pub open spec fn cte_row(c: CtePlan, i: int) -> Seq<Text> {
    seq![
        decimal((i + 1) as nat),
        c.node_id@,
        if c.is_table {
            "Table"@
        } else {
            "View"@
        },
        c.cte_name@,
        decimal(c.readers as nat),
        if c.materialized {
            "MATERIALIZED"@
        } else {
            "plain"@
        },
        if c.decidable {
            "search"@
        } else {
            "fixed"@
        },
    ]
}

/// The expressions' rows.
pub open spec fn cte_rows(c: Seq<CtePlan>) -> Seq<Seq<Text>> {
    Seq::new(c.len(), |i: int| cte_row(c[i], i))
}

/// The Tables' rows.
pub open spec fn kind_rows(t: Seq<TablePlan>) -> Seq<Seq<Text>> {
    t.map_values(|t: TablePlan| seq![decimal(t.kind as nat), t.node_id@, decimal(t.columns@.len())])
}

/// The expressions of a report.
pub open spec fn reported_ctes(r: FusionReport) -> Seq<CtePlan> {
    match r.plan {
        Some(p) => p.ctes@,
        None => Seq::<CtePlan>::empty(),
    }
}

/// The Tables of a report.
pub open spec fn reported_tables(r: FusionReport) -> Seq<TablePlan> {
    match r.plan {
        Some(p) => p.tables@,
        None => Seq::<TablePlan>::empty(),
    }
}

/// What a rewrite did, in tiles.
pub open spec fn report_cards(r: FusionReport) -> Seq<(Text, Text)> {
    seq![
        ("Outcome"@, r.outcome@),
        (
            "Fused node"@,
            match r.plan {
                Some(p) => p.fused_id@,
                None => "-"@,
            },
        ),
        ("CTEs"@, decimal(reported_ctes(r).len())),
        ("Materialized CTEs"@, decimal(materialized_count(reported_ctes(r), reported_ctes(r).len()))),
        (
            "Fused columns"@,
            decimal(
                match r.plan {
                    Some(p) => p.fused_columns@.len(),
                    None => 0,
                },
            ),
        ),
    ]
}

/// What the pass says of itself.
pub open spec fn fusion_html(report: Option<FusionReport>, panel: Text) -> Text {
    match report {
        None => "<div class=\"panel\"><p class=\"subtle\">NodeFusionPass did not run.</p></div>"@,
        Some(r) => "<div class=\"section-stack\">\n        "@ + card_grid(report_cards(r)) + "\n        "@ + panel
            + "\n        <div class=\"panel\">\n          <h2>The WITH chain</h2>\n          <div class=\"subtle\">Emitted in the graph's own topological order, so every CTE is defined before the CTE that reads it. A Table's CTE is materialized by default -- it was authored as a materialization barrier, and a plain CTE read by several downstream CTEs may be unfolded into each of them, which is the duplication this pass removes.</div>\n          "@
            + ranked_table(
            seq!["#"@, "Node"@, "Role"@, "CTE"@, "Readers"@, "Hint"@, "Decided by"@],
            cte_rows(reported_ctes(r)),
        )
            + "\n        </div>\n        <div class=\"panel\">\n          <h2>The UNION ALL</h2>\n          <div class=\"subtle\">One branch per Table, discriminated by <code>kind</code>. The fused relation's columns are these schemas concatenated in kind order; each branch fills the columns that are not its own with NULL, and each Table reads its own back out under their original names.</div>\n          "@
            + ranked_table(seq!["kind"@, "Table"@, "Columns"@], kind_rows(reported_tables(r)))
            + "\n        </div>\n      </div>"@,
    }
}

/// The expressions' rows.
fn list_ctes(c: &Vec<CtePlan>) -> (r: Vec<Vec<String>>)
    ensures
        text_lists(r@) == cte_rows(c@),
{
    let mut rows: Vec<Vec<String>> = Vec::new();
    let mut i: usize = 0;
    while i < c.len()
        invariant
            i <= c@.len(),
            rows@.len() == i,
            forall|k: int| 0 <= k < i ==> texts((#[trigger] rows@[k])@) == cte_row(c@[k], k),
        decreases c@.len() - i,
    {
        let mut row: Vec<String> = Vec::new();
        row.push(decimal_text(i as u64 + 1));
        row.push(c[i].node_id.clone());
        row.push(
            if c[i].is_table {
                "Table".to_owned()
            } else {
                "View".to_owned()
            },
        );
        row.push(c[i].cte_name.clone());
        row.push(decimal_text(c[i].readers as u64));
        row.push(
            if c[i].materialized {
                "MATERIALIZED".to_owned()
            } else {
                "plain".to_owned()
            },
        );
        row.push(
            if c[i].decidable {
                "search".to_owned()
            } else {
                "fixed".to_owned()
            },
        );
        proof {
            assert(texts(row@) =~= cte_row(c@[i as int], i as int));
        }
        rows.push(row);
        i = i + 1;
    }
    proof {
        assert(text_lists(rows@) =~= cte_rows(c@));
    }
    rows
}

/// The Tables' rows.
fn list_kinds(t: &Vec<TablePlan>) -> (r: Vec<Vec<String>>)
    ensures
        text_lists(r@) == kind_rows(t@),
{
    let mut rows: Vec<Vec<String>> = Vec::new();
    let mut i: usize = 0;
    while i < t.len()
        invariant
            i <= t@.len(),
            rows@.len() == i,
            forall|k: int| 0 <= k < i ==> texts((#[trigger] rows@[k])@) == kind_rows(t@)[k],
        decreases t@.len() - i,
    {
        let mut row: Vec<String> = Vec::new();
        row.push(decimal_text(t[i].kind as u64));
        row.push(t[i].node_id.clone());
        row.push(decimal_text(t[i].columns.len() as u64));
        proof {
            assert(texts(row@) =~= kind_rows(t@)[i as int]);
        }
        rows.push(row);
        i = i + 1;
    }
    proof {
        assert(text_lists(rows@) =~= kind_rows(t@));
    }
    rows
}

/// What the pass says of itself: what its last rewrite did, and in `panel` what
/// its search did, where it searched.
pub fn explain_html(report: &Option<FusionReport>, panel: &str) -> (r: String)
    ensures
        r@ == fusion_html(*report, panel@),
{
    let report = match report {
        Some(r) => r,
        None => {
            return "<div class=\"panel\"><p class=\"subtle\">NodeFusionPass did not run.</p></div>".to_owned();
        },
    };
    let no_ctes: Vec<CtePlan> = Vec::new();
    let no_tables: Vec<TablePlan> = Vec::new();
    let (ctes, tables) = match &report.plan {
        Some(p) => (&p.ctes, &p.tables),
        None => (&no_ctes, &no_tables),
    };
    proof {
        assert(ctes@ =~= reported_ctes(*report));
        assert(tables@ =~= reported_tables(*report));
    }
    let fused_id = match &report.plan {
        Some(p) => p.fused_id.clone(),
        None => "-".to_owned(),
    };
    let fused_columns: usize = match &report.plan {
        Some(p) => p.fused_columns.len(),
        None => 0,
    };
    let mut cards: Vec<Card> = Vec::new();
    cards.push(card("Outcome", report.outcome.clone()));
    cards.push(card("Fused node", fused_id));
    cards.push(card("CTEs", decimal_text(ctes.len() as u64)));
    cards.push(card("Materialized CTEs", decimal_text(count_materialized(ctes) as u64)));
    cards.push(card("Fused columns", decimal_text(fused_columns as u64)));
    proof {
        assert(card_texts(cards@) =~= report_cards(*report));
    }
    let cte_headers = strings(&["#", "Node", "Role", "CTE", "Readers", "Hint", "Decided by"]);
    let kind_headers = strings(&["kind", "Table", "Columns"]);
    proof {
        assert(texts(cte_headers@) =~= seq!["#"@, "Node"@, "Role"@, "CTE"@, "Readers"@, "Hint"@, "Decided by"@]);
        assert(texts(kind_headers@) =~= seq!["kind"@, "Table"@, "Columns"@]);
    }
    let mut out = "<div class=\"section-stack\">\n        ".to_owned();
    out.append(render_card_grid(&cards).as_str());
    out.append("\n        ");
    out.append(panel);
    out.append(
        "\n        <div class=\"panel\">\n          <h2>The WITH chain</h2>\n          <div class=\"subtle\">Emitted in the graph's own topological order, so every CTE is defined before the CTE that reads it. A Table's CTE is materialized by default -- it was authored as a materialization barrier, and a plain CTE read by several downstream CTEs may be unfolded into each of them, which is the duplication this pass removes.</div>\n          ",
    );
    out.append(render_ranked_table(&cte_headers, &list_ctes(ctes)).as_str());
    out.append(
        "\n        </div>\n        <div class=\"panel\">\n          <h2>The UNION ALL</h2>\n          <div class=\"subtle\">One branch per Table, discriminated by <code>kind</code>. The fused relation's columns are these schemas concatenated in kind order; each branch fills the columns that are not its own with NULL, and each Table reads its own back out under their original names.</div>\n          ",
    );
    out.append(render_ranked_table(&kind_headers, &list_kinds(tables)).as_str());
    out.append("\n        </div>\n      </div>");
    out
}

} // verus!
