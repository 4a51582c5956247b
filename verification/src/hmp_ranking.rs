//! Which ranking the search goes by, and what it then goes through.

use vstd::prelude::*;

use crate::combo::{canonical, canonical_order, CostedCombo};
use crate::dag::Dag;
use crate::dup::{DuplicateCost, SubtreeCostMethod};
use crate::hmp::{
    candidate_texts, first_of, priced_candidates, smallest_first, unpriced_candidates, CandidateCombo, HMPPass,
    HmpConfig, HmpCostMethod,
};
use crate::leaf_ranking::{leaf_ranking_of, names_a_relation, ranking_leafset};
use crate::learned::{is_blank, is_total, LearnedCostModel, LearnedModel, OperatorSamples};
use crate::operators::{ranking_by_signature, signature_ranking};
use crate::order::stably_sorted;
use crate::ranking::{
    as_cost, dup_rows, learn_from, learned_after, learned_rows, rankable_ids, rankable_views, ranked, ranking_dup,
    ranking_from_node_times, ranking_learned, scores_of, timed_rows, NodeRankingRow, NodeStat,
};
use crate::search::{is_working_set, new_search, score_nodes, search_combos, singles_of, working_set_from, ComboSearch, SingletonCost};
use crate::text::{texts, Text};

verus! {

/// What a ranking was made by.
#[derive(Debug, Clone, Copy, PartialEq, Eq, Structural)]
pub enum RankedBy {
    NodeTimes,
    Duplicates,
    LearnedRates,
    Leaves,
    Signatures,
}

/// A ranking and what it was made by.
#[derive(Debug)]
pub struct Ranking {
    pub by: RankedBy,
    pub rows: Vec<NodeRankingRow>,
}

/// What the ranking goes by: what a run tells of its nodes, what the Views were
/// measured to duplicate, and what is learned.
#[derive(Debug)]
pub struct Evidence {
    pub stats: Vec<NodeStat>,
    /// The Views that were measured, and what each duplicates.
    pub ids: Vec<String>,
    pub measured: Vec<Option<DuplicateCost>>,
}

impl Evidence {
    /// Every View stands beside what it was measured at.
    pub open spec fn wf(&self) -> bool {
        self.ids@.len() == self.measured@.len()
    }
}

/// Some View could be measured.
pub open spec fn any_measured(e: Evidence) -> bool {
    exists|i: int| 0 <= i < e.measured@.len() && (#[trigger] e.measured@[i]) is Some
}

/// `rows` is the ranking by learned rates; None where the model knows nothing
/// or prices no View.
pub open spec fn learned_answer(dag: &Dag, e: Evidence, m: LearnedModel, c: HmpConfig, rows: Option<Seq<NodeRankingRow>>) -> bool {
    exists|total: OperatorSamples|
        #[trigger] is_total(m.ops, total) && ({
            let items = learned_rows(
                dag.nodes@,
                dag.nodes.listed(),
                e.stats@,
                m,
                total,
                c.downstream_cost,
                c.normalize_with_cardinality,
                dag.nodes.listed().len(),
            );
            match rows {
                Some(out) => !is_blank(m) && items.len() > 0 && ranked(out, items),
                None => is_blank(m) || items.len() == 0,
            }
        })
}

/// The ranking by regions of plans, or by operators where no plan of the run
/// names a relation.
pub open spec fn plan_answer(dag: &Dag, sources: Seq<Text>, e: Evidence, c: HmpConfig, r: Ranking) -> bool {
    if names_a_relation(dag.nodes.listed(), e.stats@, dag.nodes.listed().len() as int) {
        r.by == RankedBy::Leaves && leaf_ranking_of(
            dag,
            sources,
            e.stats@,
            c.downstream_cost,
            c.normalize_with_cardinality,
            r.rows@,
        )
    } else {
        signature_answer(dag, e, c, r)
    }
}

/// The ranking by operators.
pub open spec fn signature_answer(dag: &Dag, e: Evidence, c: HmpConfig, r: Ranking) -> bool {
    r.by == RankedBy::Signatures && signature_ranking(
        dag.nodes.listed(),
        e.stats@,
        c.downstream_cost,
        c.normalize_with_cardinality,
        r.rows@,
    )
}

/// The ranking by the Views' own times.
pub open spec fn time_answer(dag: &Dag, e: Evidence, r: Ranking) -> bool {
    r.by == RankedBy::NodeTimes && ranked(
        r.rows@,
        timed_rows(dag.nodes.listed(), e.stats@, dag.nodes.listed().len()),
    )
}

/// `r` is the ranking by the method that is asked for, or, where that has
/// nothing to go by, by the next best.
pub open spec fn is_ranking(
    c: HmpConfig,
    dag: &Dag,
    sources: Seq<Text>,
    e: Evidence,
    m: LearnedModel,
    r: Ranking,
) -> bool {
    match c.cost_method {
        HmpCostMethod::NodeTime => time_answer(dag, e, r),
        HmpCostMethod::DupAttribution => if any_measured(e) {
            r.by == RankedBy::Duplicates && ranked(
                r.rows@,
                dup_rows(
                    texts(e.ids@),
                    e.measured@,
                    c.dup_cost_model == SubtreeCostMethod::LearnedCost,
                    e.stats@,
                    c.normalize_with_cardinality,
                    e.ids@.len(),
                ),
            )
        } else {
            plan_answer(dag, sources, e, c, r)
        },
        HmpCostMethod::LearnedCost => if r.by == RankedBy::LearnedRates {
            learned_answer(dag, e, m, c, Some(r.rows@))
        } else {
            learned_answer(dag, e, m, c, None) && plan_answer(dag, sources, e, c, r)
        },
        HmpCostMethod::Leafset => plan_answer(dag, sources, e, c, r),
        HmpCostMethod::Signature => signature_answer(dag, e, c, r),
    }
}

/// The model once a ranking by learned rates has learned from the run.
pub open spec fn taught(c: HmpConfig, dag: &Dag, e: Evidence, m: LearnedModel) -> LearnedModel {
    if c.cost_method == HmpCostMethod::LearnedCost {
        learned_after(m, dag.nodes.listed(), e.stats@, dag.nodes.listed().len())
    } else {
        m
    }
}

impl HMPPass {
    /// Learns from a run before anything is measured by learned rates: what
    /// prices a duplicate has to know about the run first.
    pub fn learn_before_measuring(&self, dag: &Dag, stats: &Vec<NodeStat>, model: &mut LearnedCostModel)
        requires
            dag.wf(),
            old(model).wf(),
        ensures
            final(model).wf(),
            final(model)@ == if self.config.cost_method == HmpCostMethod::DupAttribution && self.config.dup_cost_model
                == SubtreeCostMethod::LearnedCost {
                learned_after(old(model)@, dag.nodes.listed(), stats@, dag.nodes.listed().len())
            } else {
                old(model)@
            },
    {
        if self.config.cost_method == HmpCostMethod::DupAttribution && self.config.dup_cost_model
            == SubtreeCostMethod::LearnedCost {
            learn_from(model, dag, stats);
        }
    }

    fn ranking_by_plans(&self, dag: &Dag, sources: &Vec<String>, e: &Evidence) -> (r: Ranking)
        requires
            dag.wf(),
        ensures
            plan_answer(dag, texts(sources@), *e, self.config, r),
    {
        match ranking_leafset(
            dag,
            sources,
            &e.stats,
            self.config.downstream_cost,
            self.config.normalize_with_cardinality,
        ) {
            Some(rows) => Ranking { by: RankedBy::Leaves, rows },
            None => self.ranking_by_operators(dag, e),
        }
    }

    fn ranking_by_operators(&self, dag: &Dag, e: &Evidence) -> (r: Ranking)
        requires
            dag.wf(),
        ensures
            signature_answer(dag, *e, self.config, r),
    {
        let rows = ranking_by_signature(
            dag,
            &e.stats,
            self.config.downstream_cost,
            self.config.normalize_with_cardinality,
        );
        Ranking { by: RankedBy::Signatures, rows }
    }

    /// Ranks the Views of a run by the method that is asked for. A method that
    /// finds nothing to go by gives way to the next: measured duplicates and
    /// learned rates to the regions of plans, and those to operators. A ranking
    /// by learned rates learns from the run first.
    pub fn ranking_for(
        &self,
        dag: &Dag,
        sources: &Vec<String>,
        e: &Evidence,
        model: &mut LearnedCostModel,
    ) -> (r: Ranking)
        requires
            dag.wf(),
            e.wf(),
            old(model).wf(),
        ensures
            final(model).wf(),
            final(model)@ == taught(self.config, dag, *e, old(model)@),
            is_ranking(self.config, dag, texts(sources@), *e, final(model)@, r),
    {
        match self.config.cost_method {
            HmpCostMethod::NodeTime => {
                Ranking { by: RankedBy::NodeTimes, rows: ranking_from_node_times(dag, &e.stats) }
            },
            HmpCostMethod::DupAttribution => {
                let timed = self.config.dup_cost_model == SubtreeCostMethod::LearnedCost;
                match ranking_dup(&e.ids, &e.measured, timed, &e.stats, self.config.normalize_with_cardinality) {
                    Some(rows) => Ranking { by: RankedBy::Duplicates, rows },
                    None => self.ranking_by_plans(dag, sources, e),
                }
            },
            HmpCostMethod::LearnedCost => {
                learn_from(model, dag, &e.stats);
                let priced = ranking_learned(
                    dag,
                    &e.stats,
                    model,
                    self.config.downstream_cost,
                    self.config.normalize_with_cardinality,
                );
                match priced {
                    Some(rows) => {
                        proof {
                            assert(learned_answer(dag, *e, model@, self.config, Some(rows@)));
                        }
                        Ranking { by: RankedBy::LearnedRates, rows }
                    },
                    None => {
                        proof {
                            assert(learned_answer(dag, *e, model@, self.config, None));
                        }
                        self.ranking_by_plans(dag, sources, e)
                    },
                }
            },
            HmpCostMethod::Leafset => self.ranking_by_plans(dag, sources, e),
            HmpCostMethod::Signature => self.ranking_by_operators(dag, e),
        }
    }

    /// The ranking that the search starts from: one by the Views' own times
    /// where the method that is asked for ranks nothing.
    pub fn baseline_ranking(
        &self,
        dag: &Dag,
        sources: &Vec<String>,
        e: &Evidence,
        model: &mut LearnedCostModel,
    ) -> (r: Ranking)
        requires
            dag.wf(),
            e.wf(),
            old(model).wf(),
        ensures
            final(model).wf(),
            final(model)@ == taught(self.config, dag, *e, old(model)@),
            (r.rows@.len() > 0 && is_ranking(self.config, dag, texts(sources@), *e, final(model)@, r)) || (time_answer(
                dag,
                *e,
                r,
            ) && nothing_ranked(self.config, dag, texts(sources@), *e, final(model)@)),
    {
        let r = self.ranking_for(dag, sources, e, model);
        if r.rows.len() > 0 {
            return r;
        }
        proof {
            assert(is_ranking(self.config, dag, texts(sources@), *e, model@, r));
        }
        Ranking { by: RankedBy::NodeTimes, rows: ranking_from_node_times(dag, &e.stats) }
    }

    /// The Views to search among: the first of the ranking that come to the
    /// share of its cost that is asked for.
    pub fn working_set_from(&self, rows: &Vec<NodeRankingRow>) -> (r: Vec<String>)
        requires
            self.config.top_cpu_time <= 1000000,
        ensures
            exists|scores: Seq<SingletonCost>|
                #[trigger] is_working_set(scores, self.config.top_cpu_time, r@.len()) && scores_rows(scores, rows@),
            texts(r@) == rows@.map_values(|x: NodeRankingRow| x.node@).take(r@.len() as int),
            r@.len() <= rows@.len(),
    {
        let scores = scores_of(rows);
        let r = working_set_from(&scores, self.config.top_cpu_time);
        proof {
            assert(scores_rows(scores@, rows@));
            assert(score_nodes(scores@) =~= rows@.map_values(|x: NodeRankingRow| x.node@));
        }
        r
    }

    /// The Views whose duplicates are to be measured: those that can be ranked,
    /// where duplicates are what the ranking goes by.
    pub fn views_to_measure(&self, dag: &Dag) -> (r: Vec<String>)
        requires
            dag.wf(),
        ensures
            texts(r@) == if self.config.cost_method == HmpCostMethod::DupAttribution {
                rankable_ids(dag.nodes.listed(), dag.nodes.listed().len())
            } else {
                Seq::<Text>::empty()
            },
    {
        if self.config.cost_method == HmpCostMethod::DupAttribution {
            return rankable_views(&dag.nodes);
        }
        let none: Vec<String> = Vec::new();
        proof {
            assert(texts(none@) =~= Seq::<Text>::empty());
        }
        none
    }

    /// The search for combinations of `working_set` worth a trial, its members
    /// consumer-most first and each with the score that the ranking gave it.
    /// `timed` says whether the scores are of times.
    pub fn start_search(
        &self,
        dag: &Dag,
        working_set: &Vec<String>,
        scores: &Vec<SingletonCost>,
        timed: bool,
    ) -> (r: ComboSearch)
        requires
            dag.wf(),
        ensures
            r.wf(),
            stably_sorted(r.names(), texts(working_set@), canonical(dag.nodes.listed())),
            r@ == new_search(
                singles_of(r.names(), scores@),
                self.config.search_budget as nat,
                price_unit(self.config, timed),
            ),
    {
        let ordered = canonical_order(dag, working_set);
        let unit: i128 = if timed && self.config.dup_cost_model != SubtreeCostMethod::LearnedCost {
            1000000000000000000000
        } else {
            1000000000000
        };
        search_combos(&ordered, scores, self.config.search_budget, unit)
    }

    /// Whether the method that is asked for ranks by times.
    pub fn ranks_by_time(&self) -> (r: bool)
        ensures
            r == (self.config.cost_method != HmpCostMethod::DupAttribution || self.config.dup_cost_model
                == SubtreeCostMethod::LearnedCost),
    {
        self.config.cost_method != HmpCostMethod::DupAttribution || self.config.dup_cost_model
            == SubtreeCostMethod::LearnedCost
    }

    /// What to try: what could be priced, in the order in which it comes; where
    /// nothing could, combinations of the Views, smallest first, as many as may
    /// be priced or run.
    pub fn build_candidates(&self, working_set: &Vec<String>, costed: &Vec<CostedCombo>) -> (r: Vec<CandidateCombo>)
        ensures
            working_set@.len() == 0 ==> r@.len() == 0,
            working_set@.len() > 0 && costed@.len() > 0 ==> r@.len() == costed@.len() && forall|i: int|
                0 <= i < r@.len() ==> texts((#[trigger] r@[i]).combo@) == texts(costed@[i].combo@) && r@[i].cost
                    == costed@[i].cost && !r@[i].partial,
            working_set@.len() > 0 && costed@.len() == 0 ==> candidate_texts(r@) == first_of(
                smallest_first(texts(working_set@), working_set@.len()),
                most_tries(self.config),
            ) && forall|i: int| 0 <= i < r@.len() ==> (#[trigger] r@[i]).cost == 0 && r@[i].partial,
    {
        if working_set.len() == 0 {
            return Vec::new();
        }
        if costed.len() > 0 {
            return priced_candidates(costed);
        }
        let cap: usize = if self.config.search_budget >= self.config.max_runs {
            self.config.search_budget
        } else {
            self.config.max_runs
        };
        unpriced_candidates(working_set, cap)
    }
}

/// What a unit of the cost model is in units of the scores, which count in
/// millionths of a millionth. Scores of times are of nanoseconds. The learned
/// model prices in those too; beside the other models a time counts in seconds.
pub open spec fn price_unit(c: HmpConfig, timed: bool) -> i128 {
    if timed && c.dup_cost_model != SubtreeCostMethod::LearnedCost {
        1000000000000000000000
    } else {
        1000000000000
    }
}

/// As many combinations as may be priced or run.
pub open spec fn most_tries(c: HmpConfig) -> nat {
    if c.search_budget >= c.max_runs {
        c.search_budget as nat
    } else {
        c.max_runs as nat
    }
}

/// The scores are those of the rows.
pub open spec fn scores_rows(scores: Seq<SingletonCost>, rows: Seq<NodeRankingRow>) -> bool {
    &&& scores.len() == rows.len()
    &&& forall|i: int|
        0 <= i < scores.len() ==> (#[trigger] scores[i]).node@ == rows[i].node@ && scores[i].cost == as_cost(rows[i].score)
}

/// The method that is asked for ranks nothing.
pub open spec fn nothing_ranked(c: HmpConfig, dag: &Dag, sources: Seq<Text>, e: Evidence, m: LearnedModel) -> bool {
    exists|r: Ranking| #[trigger] is_ranking(c, dag, sources, e, m, r) && r.rows@.len() == 0
}

/// Scores and prices are added in one unit: a nanosecond of a score is a
/// nanosecond of the learned model, and a billionth of a unit of any other.
pub proof fn times_count_in_seconds_beside_counts(c: HmpConfig)
    ensures
        c.dup_cost_model == SubtreeCostMethod::LearnedCost ==> price_unit(c, true) == price_unit(c, false),
        c.dup_cost_model != SubtreeCostMethod::LearnedCost ==> price_unit(c, true) == 1000000000 * price_unit(c, false),
        price_unit(c, false) == 1000000000000,
{
}

/// The method that is asked for ranks where it has something to go by.
pub proof fn the_method_asked_for_ranks(c: HmpConfig, dag: &Dag, sources: Seq<Text>, e: Evidence, m: LearnedModel, r: Ranking, i: int)
    requires
        is_ranking(c, dag, sources, e, m, r),
        0 <= i < e.measured@.len(),
    ensures
        c.cost_method == HmpCostMethod::NodeTime ==> r.by == RankedBy::NodeTimes,
        c.cost_method == HmpCostMethod::Signature ==> r.by == RankedBy::Signatures,
        c.cost_method == HmpCostMethod::DupAttribution && e.measured@[i] is Some ==> r.by == RankedBy::Duplicates,
        c.cost_method == HmpCostMethod::Leafset && names_a_relation(
            dag.nodes.listed(),
            e.stats@,
            dag.nodes.listed().len() as int,
        ) ==> r.by == RankedBy::Leaves,
        r.by == RankedBy::LearnedRates ==> c.cost_method == HmpCostMethod::LearnedCost && !is_blank(m) && r.rows@.len() > 0,
{
    if c.cost_method == HmpCostMethod::DupAttribution && e.measured@[i] is Some {
        assert(any_measured(e));
    }
    if r.by == RankedBy::LearnedRates && c.cost_method == HmpCostMethod::LearnedCost {
        let total = choose|total: OperatorSamples|
            #[trigger] is_total(m.ops, total) && ({
                let items = learned_rows(
                    dag.nodes@,
                    dag.nodes.listed(),
                    e.stats@,
                    m,
                    total,
                    c.downstream_cost,
                    c.normalize_with_cardinality,
                    dag.nodes.listed().len(),
                );
                !is_blank(m) && items.len() > 0 && ranked(r.rows@, items)
            });
        let items = learned_rows(
            dag.nodes@,
            dag.nodes.listed(),
            e.stats@,
            m,
            total,
            c.downstream_cost,
            c.normalize_with_cardinality,
            dag.nodes.listed().len(),
        );
        let le = crate::ranking::row_le();
        let p = choose|p: Seq<usize>|
            #[trigger] crate::order::stable_order(p, items, le) && crate::ranking::row_models(r.rows@) == crate::order::picked(
                items,
                p,
            );
        assert(crate::ranking::row_models(r.rows@).len() == items.len());
    }
}

/// As many combinations may be tried as the larger of the two budgets says.
pub proof fn the_larger_budget_counts(c: HmpConfig)
    ensures
        most_tries(c) >= c.search_budget,
        most_tries(c) >= c.max_runs,
        most_tries(c) == c.search_budget || most_tries(c) == c.max_runs,
{
}

/// Every row of what Views duplicate is in seconds, or none is.
proof fn duplicates_are_in_one_unit(
    ids: Seq<Text>,
    measured: Seq<Option<DuplicateCost>>,
    timed: bool,
    stats: Seq<NodeStat>,
    normalize: bool,
    n: nat,
)
    ensures
        forall|k: int|
            0 <= k < dup_rows(ids, measured, timed, stats, normalize, n).len() ==> (#[trigger] dup_rows(
                ids,
                measured,
                timed,
                stats,
                normalize,
                n,
            )[k]).timed == timed,
    decreases n,
{
    if n > 0 {
        duplicates_are_in_one_unit(ids, measured, timed, stats, normalize, (n - 1) as nat);
    }
}

/// A ranking by what Views duplicate is in seconds exactly where the learned
/// model prices them; another model counts in its own units.
pub proof fn duplicates_are_in_the_units_of_their_model(
    c: HmpConfig,
    dag: &Dag,
    sources: Seq<Text>,
    e: Evidence,
    m: LearnedModel,
    r: Ranking,
    i: int,
)
    requires
        is_ranking(c, dag, sources, e, m, r),
        r.by == RankedBy::Duplicates,
        c.cost_method == HmpCostMethod::DupAttribution,
        0 <= i < r.rows@.len(),
    ensures
        r.rows@[i].timed <==> c.dup_cost_model == SubtreeCostMethod::LearnedCost,
{
    let timed = c.dup_cost_model == SubtreeCostMethod::LearnedCost;
    let items = dup_rows(texts(e.ids@), e.measured@, timed, e.stats@, c.normalize_with_cardinality, e.ids@.len());
    duplicates_are_in_one_unit(texts(e.ids@), e.measured@, timed, e.stats@, c.normalize_with_cardinality, e.ids@.len());
    let le = crate::ranking::row_le();
    let models = crate::ranking::row_models(r.rows@);
    assert(any_measured(e));
    assert(ranked(r.rows@, items));
    assert(stably_sorted(models, items, le));
    assert(models.len() == r.rows@.len());
    let p = choose|p: Seq<usize>|
        #[trigger] crate::order::stable_order(p, items, le) && models == crate::order::picked(items, p);
    assert(models.len() == p.len());
    assert(models[i] == items[p[i] as int]);
    assert(0 <= p[i] < items.len());
    assert(models[i].timed == r.rows@[i].timed);
}

/// A View is searched by the score that it is ranked by.
pub proof fn a_view_is_searched_by_its_score(scores: Seq<SingletonCost>, rows: Seq<NodeRankingRow>, i: int)
    requires
        scores_rows(scores, rows),
        0 <= i < rows.len(),
        rows[i].score <= i128::MAX,
    ensures
        scores.len() == rows.len(),
        scores[i].cost == rows[i].score,
        scores[i].node@ == rows[i].node@,
{
}

/// Only where learned rates are asked for does a run teach the model anything.
pub proof fn only_learned_rates_are_learned(c: HmpConfig, dag: &Dag, e: Evidence, m: LearnedModel)
    ensures
        c.cost_method != HmpCostMethod::LearnedCost ==> taught(c, dag, e, m) == m,
        c.cost_method == HmpCostMethod::LearnedCost ==> taught(c, dag, e, m) == learned_after(
            m,
            dag.nodes.listed(),
            e.stats@,
            dag.nodes.listed().len(),
        ),
{
}

} // verus!
