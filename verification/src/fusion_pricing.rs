//! What a search over the sets of a fused query starts from.
//!
//! Pricing is a machine: it names the next set whose fused query the engine is
//! to plan, and takes in what that plan costs, until it can say which sets are
//! worth a run or why there are none.

use vstd::prelude::*;

use crate::chain::{flip, flipped, fused_work, price_flips, responds_to_the_hint, scores, spool_total, spooling_is_determined, spools, work_of, CteProfile, Profiles};
use crate::combo::{canonical, canonical_order, combo_models, named, objective_le, CostedCombo, HmpObjective, Scored};
use crate::dag::{Dag, NodeModel};
use crate::fusion::{decidable_of, fusion_of, materialized_of, not_fusable, CtePlan, FusionPlan};
use crate::fusion_search::{candidates_from, helpful, is_candidate, rank_flips, NodeFusionCandidate, NodeFusionState, NothingToSearch};
use crate::nodefusion::{configured_rule, NodeFusionPass};
use crate::order::stably_sorted;
use crate::search::{
    clamped, is_working_set, kept, new_search, recorded, score_le, score_models, score_nodes, search_combos,
    singles_of, wanted, working_set_from, ComboSearch, SingletonCost,
};
use crate::sql::{named_dialect, unicode_lower};
use crate::table::TextMap;
use crate::text::{copy_texts, texts, Text};

verus! {

/// What a search starts from.
#[derive(Debug)]
pub struct SearchSetup {
    /// What each helpful flip saves on its own, the most first.
    pub scores: Vec<SingletonCost>,
    pub working_set: Vec<String>,
    /// The sets worth a run, the best first.
    pub candidates: Vec<NodeFusionCandidate>,
    /// Why there are none.
    pub reason: Option<NothingToSearch>,
}

impl SearchSetup {
    /// Nothing to search, and why.
    pub fn nothing(reason: NothingToSearch) -> (r: SearchSetup)
        ensures
            r.scores@.len() == 0,
            r.working_set@.len() == 0,
            r.candidates@.len() == 0,
            r.reason == Some(reason),
    {
        SearchSetup { scores: Vec::new(), working_set: Vec::new(), candidates: Vec::new(), reason: Some(reason) }
    }
}

/// What is being priced.
#[derive(Debug, Clone, Copy, PartialEq, Eq, Structural)]
pub enum Stage {
    /// The set of the default rule.
    Default,
    /// No expression materialized.
    Plain,
    /// Every expression that can be decided about materialized.
    Materialized,
    /// One flip of the default set after another.
    Flips,
    /// Combinations of flips.
    Sets,
    /// Nothing any more.
    Over,
}

/// The pricing of the sets of one fused query.
pub struct FusionPricing {
    pub chain: Vec<CtePlan>,
    pub profiles: TextMap<CteProfile>,
    /// What the default rule materializes.
    pub default_set: Vec<String>,
    /// What can be decided about.
    pub decidable: Vec<String>,
    pub objective: HmpObjective,
    /// How many combinations of two or more flips may be priced.
    pub budget: usize,
    /// How much of what single flips save the searched ones save together, in
    /// millionths.
    pub share: u64,
    pub stage: Stage,
    /// What the default set costs.
    pub baseline: u64,
    /// What the plan with nothing materialized costs.
    pub plain: Option<u64>,
    /// What the flips asked for so far are worth.
    pub scored: Vec<Option<Scored>>,
    pub scores: Vec<SingletonCost>,
    pub working_set: Vec<String>,
    pub search: ComboSearch,
    pub reason: Option<NothingToSearch>,
}

/// `b` is what the default set costs, its plan costing `compute`.
pub open spec fn is_baseline(profiles: Profiles, default_set: Set<Text>, compute: u64, b: u64) -> bool {
    exists|spool: Option<u64>| #[trigger] spools(profiles, default_set, spool) && b == fused_work(compute, spool)
}

/// `s` is what flipping `flips` is worth, the plan so reached costing
/// `compute`.
pub open spec fn is_priced(p: FusionPricing, flips: Seq<Text>, compute: Option<u64>, s: Option<Scored>) -> bool {
    match (compute, s) {
        (Some(c), Some(s)) => scores(
            p.chain@,
            p.profiles@,
            p.baseline,
            flipped(texts(p.default_set@).to_set(), flips, flips.len()),
            c,
            s,
        ),
        (None, None) => true,
        _ => false,
    }
}

/// Nothing but the progress of the pricing differs.
pub open spec fn same_question(a: FusionPricing, b: FusionPricing) -> bool {
    &&& b.chain == a.chain
    &&& b.profiles == a.profiles
    &&& b.default_set == a.default_set
    &&& b.decidable == a.decidable
    &&& b.objective == a.objective
    &&& b.budget == a.budget
    &&& b.share == a.share
}

/// Nothing has been ranked between `a` and `b`.
pub open spec fn same_ranking(a: FusionPricing, b: FusionPricing) -> bool {
    b.scores == a.scores && b.working_set == a.working_set && b.search == a.search
}

/// `b` is `a` once the default set's plan is known to cost `compute`.
pub open spec fn default_priced(a: FusionPricing, compute: Option<u64>, b: FusionPricing) -> bool {
    &&& same_ranking(a, b)
    &&& b.scored == a.scored
    &&& b.plain == a.plain
    &&& match compute {
        Some(c) => b.stage == Stage::Plain && b.reason == a.reason && is_baseline(
            a.profiles@,
            texts(a.default_set@).to_set(),
            c,
            b.baseline,
        ),
        None => b.stage == Stage::Over && b.reason == Some(NothingToSearch::DefaultUnpriced) && b.baseline == a.baseline,
    }
}

/// `b` is `a` once the plan with everything materialized is known to cost
/// `compute`: where that is what the plan with nothing materialized costs, the
/// engine does not heed the hint.
pub open spec fn hint_judged(a: FusionPricing, compute: Option<u64>, b: FusionPricing) -> bool {
    &&& same_ranking(a, b)
    &&& b.scored == a.scored
    &&& b.plain == a.plain
    &&& b.baseline == a.baseline
    &&& if a.plain is Some && compute is Some && a.plain == compute {
        b.stage == Stage::Over && b.reason == Some(NothingToSearch::Unresponsive)
    } else {
        b.stage == Stage::Flips && b.reason == a.reason
    }
}

/// The flips priced in `b` are ranked, and the search over the best of them is
/// set up; or it is over, where none helps.
pub open spec fn flips_ranked(a: FusionPricing, nodes: Seq<NodeModel>, b: FusionPricing) -> bool {
    &&& stably_sorted(
        score_models(b.scores@),
        helpful(texts(a.decidable@), b.scored@, a.decidable@.len()),
        score_le(),
    )
    &&& is_working_set(b.scores@, a.share, b.working_set@.len())
    &&& texts(b.working_set@) == score_nodes(b.scores@).take(b.working_set@.len() as int)
    &&& if b.working_set@.len() == 0 {
        b.stage == Stage::Over && b.reason == Some(NothingToSearch::NoFlipHelps) && b.search == a.search
    } else {
        &&& b.stage == Stage::Sets
        &&& b.reason == a.reason
        &&& stably_sorted(b.search.names(), texts(b.working_set@), canonical(nodes))
        &&& b.search@ == new_search(singles_of(b.search.names(), b.scores@), a.budget as nat, 1)
    }
}

/// `b` is `a` once the plan of the next flip is known to cost `compute`.
pub open spec fn flip_priced(a: FusionPricing, nodes: Seq<NodeModel>, compute: Option<u64>, b: FusionPricing) -> bool {
    &&& b.plain == a.plain
    &&& b.baseline == a.baseline
    &&& b.scored@.len() == a.scored@.len() + 1
    &&& b.scored@.drop_last() == a.scored@
    &&& is_priced(a, seq![texts(a.decidable@)[a.scored@.len() as int]], compute, b.scored@.last())
    &&& if b.scored@.len() < a.decidable@.len() {
        b.stage == Stage::Flips && b.reason == a.reason && same_ranking(a, b)
    } else {
        flips_ranked(a, nodes, b)
    }
}

/// `b` is `a` once the plan of the next combination is known to cost `compute`.
pub open spec fn set_priced(a: FusionPricing, compute: Option<u64>, b: FusionPricing) -> bool {
    &&& b.plain == a.plain
    &&& b.baseline == a.baseline
    &&& b.scored == a.scored
    &&& b.scores == a.scores
    &&& b.working_set == a.working_set
    &&& b.reason == a.reason
    &&& b.search.names() == a.search.names()
    &&& exists|s: Option<Scored>|
        #[trigger] is_priced(a, named(a.search.names(), wanted(a.search@)->Some_0), compute, s) && b.search@ == recorded(
            a.search@,
            s,
        )
    &&& b.stage == if wanted(b.search@) is Some {
        Stage::Sets
    } else {
        Stage::Over
    }
}

/// `b` is `a` once the plan that `a` asks for is known to cost `compute`; none
/// where it could not be priced.
pub open spec fn moves(a: FusionPricing, nodes: Seq<NodeModel>, compute: Option<u64>, b: FusionPricing) -> bool {
    &&& same_question(a, b)
    &&& match a.stage {
        Stage::Default => default_priced(a, compute, b),
        Stage::Plain => b.stage == Stage::Materialized && b.plain == compute && same_ranking(a, b) && b.scored == a.scored
            && b.baseline == a.baseline && b.reason == a.reason,
        Stage::Materialized => hint_judged(a, compute, b),
        Stage::Flips => flip_priced(a, nodes, compute, b),
        Stage::Sets => set_priced(a, compute, b),
        Stage::Over => false,
    }
}

/// The set whose plan `p` asks for; none once the pricing is over.
pub open spec fn asks(p: FusionPricing) -> Option<Set<Text>> {
    let default_set = texts(p.default_set@).to_set();
    match p.stage {
        Stage::Default => Some(default_set),
        Stage::Plain => Some(Set::<Text>::empty()),
        Stage::Materialized => Some(texts(p.decidable@).to_set()),
        Stage::Flips => Some(flipped(default_set, seq![texts(p.decidable@)[p.scored@.len() as int]], 1)),
        Stage::Sets => {
            let flips = named(p.search.names(), wanted(p.search@)->Some_0);
            Some(flipped(default_set, flips, flips.len()))
        },
        Stage::Over => None,
    }
}

impl NodeFusionPass {
    /// The fusion that a search would decide about, or why there is nothing to
    /// search.
    pub fn plan_search(&self, dag: &Dag) -> (r: Result<FusionPlan, NothingToSearch>)
        requires
            dag.wf(),
        ensures
            match r {
                Ok(p) => fusion_of(
                    dag.nodes@,
                    named_dialect(unicode_lower(dag.db@)),
                    configured_rule(&self.config),
                    p,
                ) && decidable_of(p.ctes@, p.ctes@.len()).len() > 0,
                Err(NothingToSearch::NotFusable) => exists|why: Text| not_fusable(dag.nodes@, why),
                Err(NothingToSearch::NothingDecidable) => exists|p: FusionPlan|
                    #[trigger] fusion_of(
                        dag.nodes@,
                        named_dialect(unicode_lower(dag.db@)),
                        configured_rule(&self.config),
                        p,
                    ) && decidable_of(p.ctes@, p.ctes@.len()).len() == 0,
                Err(_) => false,
            },
    {
        match self.plan(dag) {
            Ok(p) => {
                let decidable = p.decidable();
                proof {
                    assert(texts(decidable@).len() == decidable@.len());
                }
                if decidable.len() == 0 {
                    return Err(NothingToSearch::NothingDecidable);
                }
                Ok(p)
            },
            Err(why) => {
                proof {
                    assert(not_fusable(dag.nodes@, why@));
                }
                Err(NothingToSearch::NotFusable)
            },
        }
    }

    /// The pricing of the sets of the fused query that `plan` stands for, of
    /// whose expressions `profiles` is known.
    pub fn start_pricing(&self, plan: FusionPlan, profiles: TextMap<CteProfile>) -> (r: Result<
        FusionPricing,
        NothingToSearch,
    >)
        requires
            profiles.wf(),
            decidable_of(plan.ctes@, plan.ctes@.len()).len() > 0,
            self.config.top_share <= 1000000,
        ensures
            match r {
                Ok(p) => {
                    &&& p.wf()
                    &&& exists|id: Text| profiles@.contains_key(id)
                    &&& p.chain == plan.ctes
                    &&& p.profiles == profiles
                    &&& texts(p.default_set@) == materialized_of(plan.ctes@, plan.ctes@.len())
                    &&& texts(p.decidable@) == decidable_of(plan.ctes@, plan.ctes@.len())
                    &&& p.objective == self.config.objective
                    &&& p.budget == self.config.search_budget
                    &&& p.share == self.config.top_share
                    &&& p.stage == Stage::Default
                    &&& p.scored@.len() == 0
                    &&& p.scores@.len() == 0
                    &&& p.working_set@.len() == 0
                    &&& p.reason is None
                },
                Err(why) => why == NothingToSearch::NothingPriced && forall|id: Text| !profiles@.contains_key(id),
            },
    {
        if profiles.len() == 0 {
            return Err(NothingToSearch::NothingPriced);
        }
        proof {
            assert(exists|id: Text| profiles@.contains_key(id)) by {
                if forall|id: Text| !profiles@.contains_key(id) {
                    assert(profiles@ =~= Map::<Text, CteProfile>::empty());
                }
            }
        }
        let default_set = plan.materialized_set();
        let decidable = plan.decidable();
        proof {
            assert(texts(decidable@).len() == decidable@.len());
        }
        let none: Vec<String> = Vec::new();
        let unknown: Vec<SingletonCost> = Vec::new();
        let search = search_combos(&none, &unknown, self.config.search_budget, 1);
        Ok(
            FusionPricing {
                chain: plan.ctes,
                profiles,
                default_set,
                decidable,
                objective: self.config.objective,
                budget: self.config.search_budget,
                share: self.config.top_share,
                stage: Stage::Default,
                baseline: 0,
                plain: None,
                scored: Vec::new(),
                scores: Vec::new(),
                working_set: Vec::new(),
                search,
                reason: None,
            },
        )
    }
}

impl FusionPricing {
    /// What every pricing keeps.
    pub open spec fn wf(&self) -> bool {
        &&& self.profiles.wf()
        &&& self.search.wf()
        &&& self.share <= 1000000
        &&& self.decidable@.len() > 0
        &&& self.scored@.len() <= self.decidable@.len()
        &&& !(self.stage is Sets || self.stage is Over) ==> self.scored@.len() < self.decidable@.len()
        &&& self.stage is Sets ==> wanted(self.search@) is Some && self.search@.singles.len() <= self.decidable@.len()
            && self.search@.budget == self.budget
    }

    /// How many more plans may be asked for, at most.
    pub open spec fn left(&self) -> int {
        let flips = self.decidable@.len() - self.scored@.len() + self.decidable@.len() + self.budget;
        match self.stage {
            Stage::Default => flips + 3,
            Stage::Plain => flips + 2,
            Stage::Materialized => flips + 1,
            Stage::Flips => flips,
            Stage::Sets => self.search@.singles.len() + self.budget - self.search@.asked.len(),
            Stage::Over => 0,
        }
    }

    /// The set whose fused query is to be planned next; none once the pricing
    /// is over.
    pub fn wanted(&self) -> (r: Option<Vec<String>>)
        requires
            self.wf(),
        ensures
            match r {
                Some(set) => asks(*self) == Some(texts(set@).to_set()),
                None => self.stage is Over,
            },
    {
        match self.stage {
            Stage::Default => Some(copy_texts(&self.default_set)),
            Stage::Plain => {
                let none: Vec<String> = Vec::new();
                proof {
                    assert(texts(none@).to_set() =~= Set::<Text>::empty());
                }
                Some(none)
            },
            Stage::Materialized => Some(copy_texts(&self.decidable)),
            Stage::Flips => {
                let flips = self.next_flip();
                let set = flip(&self.default_set, &flips);
                Some(set)
            },
            Stage::Sets => match self.search.wanted() {
                Some(flips) => {
                    let set = flip(&self.default_set, &flips);
                    proof {
                        assert(texts(flips@).len() == flips@.len());
                    }
                    Some(set)
                },
                None => None,
            },
            Stage::Over => None,
        }
    }

    /// The flip to price next, as the only member of a list.
    fn next_flip(&self) -> (r: Vec<String>)
        requires
            self.scored@.len() < self.decidable@.len(),
        ensures
            texts(r@) == seq![texts(self.decidable@)[self.scored@.len() as int]],
            r@.len() == 1,
    {
        let mut flips: Vec<String> = Vec::new();
        flips.push(self.decidable[self.scored.len()].clone());
        proof {
            assert(texts(flips@) =~= seq![texts(self.decidable@)[self.scored@.len() as int]]);
        }
        flips
    }

    /// Takes in what the plan that `wanted` asked for costs; none where it
    /// could not be priced.
    pub fn record(&mut self, dag: &Dag, compute: Option<u64>)
        requires
            old(self).wf(),
            !(old(self).stage is Over),
            dag.wf(),
        ensures
            final(self).wf(),
            moves(*old(self), dag.nodes.listed(), compute, *final(self)),
            0 <= final(self).left() < old(self).left(),
    {
        match self.stage {
            Stage::Default => match compute {
                Some(c) => {
                    let spool = spool_total(&self.profiles, &self.default_set);
                    self.baseline = work_of(c, spool);
                    self.stage = Stage::Plain;
                },
                None => {
                    self.stage = Stage::Over;
                    self.reason = Some(NothingToSearch::DefaultUnpriced);
                },
            },
            Stage::Plain => {
                self.plain = compute;
                self.stage = Stage::Materialized;
            },
            Stage::Materialized => {
                if responds_to_the_hint(self.plain, compute) {
                    self.stage = Stage::Flips;
                } else {
                    self.stage = Stage::Over;
                    self.reason = Some(NothingToSearch::Unresponsive);
                }
            },
            Stage::Flips => self.record_flip(dag, compute),
            Stage::Sets => self.record_set(compute),
            Stage::Over => {},
        }
    }

    fn record_flip(&mut self, dag: &Dag, compute: Option<u64>)
        requires
            old(self).wf(),
            old(self).stage is Flips,
            dag.wf(),
        ensures
            final(self).wf(),
            same_question(*old(self), *final(self)),
            flip_priced(*old(self), dag.nodes.listed(), compute, *final(self)),
            0 <= final(self).left() < old(self).left(),
    {
        let flips = self.next_flip();
        let s = price_flips(&self.chain, &self.profiles, &self.default_set, &flips, self.baseline, compute);
        proof {
            assert(is_priced(*self, texts(flips@), compute, s));
        }
        self.scored.push(s);
        proof {
            assert(self.scored@.drop_last() =~= old(self).scored@);
        }
        if self.scored.len() < self.decidable.len() {
            return;
        }
        self.scores = rank_flips(&self.decidable, &self.scored);
        self.working_set = working_set_from(&self.scores, self.share);
        proof {
            self.working_set_fits();
        }
        if self.working_set.len() == 0 {
            self.stage = Stage::Over;
            self.reason = Some(NothingToSearch::NoFlipHelps);
            return;
        }
        let ordered = canonical_order(dag, &self.working_set);
        self.search = search_combos(&ordered, &self.scores, self.budget, 1);
        self.stage = Stage::Sets;
    }

    /// No more flips are searched than there are.
    proof fn working_set_fits(&self)
        requires
            self.scored@.len() == self.decidable@.len(),
            stably_sorted(
                score_models(self.scores@),
                helpful(texts(self.decidable@), self.scored@, self.decidable@.len()),
                score_le(),
            ),
            is_working_set(self.scores@, self.share, self.working_set@.len()),
        ensures
            self.working_set@.len() <= self.decidable@.len(),
    {
        helpful_are_few(texts(self.decidable@), self.scored@, self.decidable@.len());
        assert(score_models(self.scores@).len() == self.scores@.len());
    }

    fn record_set(&mut self, compute: Option<u64>)
        requires
            old(self).wf(),
            old(self).stage is Sets,
        ensures
            final(self).wf(),
            same_question(*old(self), *final(self)),
            set_priced(*old(self), compute, *final(self)),
            0 <= final(self).left() < old(self).left(),
    {
        if let Some(flips) = self.search.wanted() {
            let s = price_flips(&self.chain, &self.profiles, &self.default_set, &flips, self.baseline, compute);
            proof {
                assert(texts(flips@).len() == flips@.len());
                assert(is_priced(*self, texts(flips@), compute, s));
            }
            self.search.record(s);
            proof {
                self.search.keeps_to_its_budget();
            }
            if self.search.wanted().is_none() {
                self.stage = Stage::Over;
            }
        }
    }

    /// What the search starts from.
    pub fn setup(self) -> (r: SearchSetup)
        requires
            self.wf(),
            self.stage is Over,
        ensures
            sets_up(self, r),
    {
        match self.reason {
            Some(why) => SearchSetup {
                scores: self.scores,
                working_set: self.working_set,
                candidates: Vec::new(),
                reason: Some(why),
            },
            None => {
                let costed = self.search.results(self.objective);
                let candidates = candidates_from(&costed, &self.default_set);
                let reason = if candidates.len() == 0 {
                    Some(NothingToSearch::NoSetHelps)
                } else {
                    None
                };
                proof {
                    assert(results_of(self, costed@));
                }
                SearchSetup { scores: self.scores, working_set: self.working_set, candidates, reason }
            },
        }
    }
}

/// `costed` are the combinations that remove work, in the order of the
/// objective.
pub open spec fn results_of(p: FusionPricing, costed: Seq<CostedCombo>) -> bool {
    stably_sorted(
        combo_models(costed),
        kept(p.search@, p.search.names(), p.search@.costed.len()),
        objective_le(p.objective),
    )
}

/// `r` is what the search starts from, once `p` has been priced.
pub open spec fn sets_up(p: FusionPricing, r: SearchSetup) -> bool {
    &&& r.scores == p.scores
    &&& r.working_set == p.working_set
    &&& match p.reason {
        Some(why) => r.candidates@.len() == 0 && r.reason == Some(why),
        None => {
            &&& exists|costed: Seq<CostedCombo>|
                #[trigger] results_of(p, costed) && costed.len() == r.candidates@.len() && forall|i: int|
                    0 <= i < costed.len() ==> is_candidate(
                        costed[i],
                        texts(p.default_set@).to_set(),
                        #[trigger] r.candidates@[i],
                    )
            &&& r.reason == if r.candidates@.len() == 0 {
                Some(NothingToSearch::NoSetHelps)
            } else {
                None
            }
        },
    }
}

proof fn helpful_are_few(ids: Seq<Text>, scored: Seq<Option<Scored>>, n: nat)
    ensures
        helpful(ids, scored, n).len() <= n,
    decreases n,
{
    if n > 0 {
        helpful_are_few(ids, scored, (n - 1) as nat);
    }
}

impl NodeFusionState {
    /// Takes in what the search starts from.
    pub fn adopt(&mut self, setup: SearchSetup)
        ensures
            final(self).baseline_scores == setup.scores,
            final(self).working_set == setup.working_set,
            final(self).candidates == setup.candidates,
            final(self).no_candidates_because == setup.reason,
            final(self).candidates_built,
            final(self).phase == old(self).phase,
            final(self).baseline_ms == old(self).baseline_ms,
            final(self).best_ms == old(self).best_ms,
            final(self).best_node_time_ms == old(self).best_node_time_ms,
            final(self).best_set == old(self).best_set,
            final(self).default_set == old(self).default_set,
            final(self).runs_used == old(self).runs_used,
            final(self).iterations == old(self).iterations,
            final(self).tried_sigs == old(self).tried_sigs,
            final(self).cursor == old(self).cursor,
            final(self).in_flight == old(self).in_flight,
    {
        self.baseline_scores = setup.scores;
        self.working_set = setup.working_set;
        self.candidates = setup.candidates;
        self.no_candidates_because = setup.reason;
        self.candidates_built = true;
    }
}

/// The baseline is what the default set's plan computes and what it spools.
pub proof fn the_baseline_is_all_of_the_work(profiles: Profiles, default_set: Set<Text>, compute: u64, b: u64, spool: Option<u64>)
    requires
        is_baseline(profiles, default_set, compute, b),
        spools(profiles, default_set, spool),
    ensures
        spool is None ==> b == compute,
        spool is Some && compute + spool->0 <= u64::MAX ==> b == compute + spool->0,
        spool is Some && compute + spool->0 > u64::MAX ==> b == u64::MAX,
{
    let other = choose|other: Option<u64>| #[trigger] spools(profiles, default_set, other) && b == fused_work(compute, other);
    crate::chain::spooling_is_determined(profiles, default_set, other, spool);
}

/// The pricing asks for the default set, for nothing and for everything, and
/// then for the default set with one decision reversed.
pub proof fn the_extremes_and_each_flip_are_asked_for(p: FusionPricing, t: Text)
    requires
        p.scored@.len() < p.decidable@.len(),
    ensures
        p.stage is Default ==> asks(p) == Some(texts(p.default_set@).to_set()),
        p.stage is Plain ==> asks(p) == Some(Set::<Text>::empty()),
        p.stage is Materialized ==> asks(p) == Some(texts(p.decidable@).to_set()),
        p.stage is Flips ==> asks(p) is Some && (asks(p)->0.contains(t) <==> (texts(p.default_set@).to_set().contains(t) != (t
            == texts(p.decidable@)[p.scored@.len() as int]))),
        p.stage is Over <==> asks(p) is None,
{
    if p.stage is Flips {
        let flip = texts(p.decidable@)[p.scored@.len() as int];
        let start = texts(p.default_set@).to_set();
        assert(crate::chain::flipped(start, seq![flip], 0) == start);
        assert(seq![flip][0] == flip);
    }
}

/// An engine that plans both extremes alike is not searched on; any other is,
/// one that could not be asked among them.
pub proof fn an_engine_that_ignores_the_hint_is_left(a: FusionPricing, nodes: Seq<NodeModel>, compute: Option<u64>, b: FusionPricing)
    requires
        moves(a, nodes, compute, b),
        a.stage is Materialized,
    ensures
        a.plain is Some && compute == a.plain ==> b.stage is Over && b.reason == Some(NothingToSearch::Unresponsive),
        a.plain is None || compute is None || compute != a.plain ==> b.stage is Flips && b.reason == a.reason,
{
}

/// No answer changes what is being priced, and the baseline is settled by the
/// first one. What was found out of a flip stays found out.
pub proof fn pricing_keeps_its_question(a: FusionPricing, nodes: Seq<NodeModel>, compute: Option<u64>, b: FusionPricing, i: int)
    requires
        moves(a, nodes, compute, b),
    ensures
        b.chain == a.chain,
        b.profiles == a.profiles,
        b.default_set == a.default_set,
        b.decidable == a.decidable,
        b.objective == a.objective,
        b.budget == a.budget,
        b.share == a.share,
        !(a.stage is Default) ==> b.baseline == a.baseline,
        !(a.stage is Plain) ==> b.plain == a.plain,
        a.stage is Plain ==> b.plain == compute,
        b.scored@.len() == a.scored@.len() + if a.stage is Flips {
            1int
        } else {
            0
        },
        0 <= i < a.scored@.len() ==> b.scored@[i] == a.scored@[i],
{
    if a.stage is Flips && 0 <= i < a.scored@.len() {
        assert(b.scored@.drop_last()[i] == b.scored@[i]);
    }
}

/// The steps of a pricing follow each other: the default set, nothing, and
/// everything, each flip in turn, and then sets of flips, unless it is over.
pub proof fn pricing_goes_step_by_step(a: FusionPricing, nodes: Seq<NodeModel>, compute: Option<u64>, b: FusionPricing)
    requires
        moves(a, nodes, compute, b),
    ensures
        a.stage is Default ==> (compute is Some <==> b.stage is Plain) && (compute is None <==> b.stage is Over),
        a.stage is Plain ==> b.stage is Materialized,
        a.stage is Materialized ==> b.stage is Flips || b.stage is Over,
        a.stage is Flips && a.scored@.len() + 1 < a.decidable@.len() ==> b.stage is Flips,
        a.stage is Flips && a.scored@.len() + 1 >= a.decidable@.len() ==> b.stage is Sets || b.stage is Over,
        a.stage is Sets ==> b.stage is Sets || b.stage is Over,
        a.stage is Flips && (b.scored@.last() is Some <==> compute is Some) || !(a.stage is Flips),
{
}

/// Where there is nothing to search it is said why, and only there.
pub proof fn nothing_to_search_is_explained(p: FusionPricing, r: SearchSetup)
    requires
        sets_up(p, r),
    ensures
        r.candidates@.len() == 0 <==> r.reason is Some,
        p.reason is Some ==> r.reason == p.reason,
        r.scores == p.scores,
        r.working_set == p.working_set,
{
}

/// Flips are worth what they save of the baseline: what the plan so reached
/// computes and spools is taken off it. What could not be planned is worth
/// nothing that is known.
pub proof fn flips_are_worth_what_they_save(
    p: FusionPricing,
    flips: Seq<Text>,
    compute: Option<u64>,
    s: Option<Scored>,
    spool: Option<u64>,
)
    requires
        is_priced(p, flips, compute, s),
        spools(p.profiles@, flipped(texts(p.default_set@).to_set(), flips, flips.len()), spool),
        p.baseline <= i64::MAX,
        compute is Some ==> compute->0 + (match spool {
            Some(x) => x as int,
            None => 0,
        }) <= i64::MAX,
    ensures
        s is Some <==> compute is Some,
        compute is Some ==> s->0.cost == p.baseline - compute->0 - (match spool {
            Some(x) => x as int,
            None => 0,
        }),
{
    if compute is Some {
        let set = flipped(texts(p.default_set@).to_set(), flips, flips.len());
        let x = choose|x: Option<u64>| #[trigger] spools(p.profiles@, set, x) && s->0.cost == clamped(
            p.baseline - fused_work(compute->0, x),
        );
        spooling_is_determined(p.profiles@, set, x, spool);
    }
}

/// Once every flip is priced the search over the best of them starts afresh: it
/// has the budget that was given, and has asked for nothing.
pub proof fn the_search_over_flips_starts_afresh(a: FusionPricing, nodes: Seq<NodeModel>, b: FusionPricing)
    requires
        flips_ranked(a, nodes, b),
        b.working_set@.len() > 0,
    ensures
        b.stage is Sets,
        b.search@.budget == a.budget,
        b.search@.unit == 1,
        b.search@.asked.len() == 0,
        b.search@.spent == 0,
        b.search@.singles.len() == b.search.names().len(),
{
}

} // verus!
