//! Fusing the Tables of a graph into one query, by rule or by search.
//!
//! By rule the pass rewrites the graph from what it sees and runs nothing. As a
//! search it measures the fusion under the default rule, prices sets of
//! expressions to materialize instead, tries them one run at a time, and keeps
//! the best.

use vstd::prelude::*;
use vstd::string::*;

use crate::combo::HmpObjective;
use crate::common::OptimizerError;
use crate::dag::{Dag, GraphModel};
use crate::dup::SubtreeCostMethod;
use crate::fused::{
    building_is_determined, fused_text_is_determined, fusing_twice_is_refused, fusion_is_determined, refused_has_no_plan,
};
use crate::fusion::{
    build_fused_sql, can_build, cannot_build_because, decidable_of, fusable, fused_graph, fused_text, fusion_of, install,
    materialized_of, not_fusable, plan_fusion, table_ids, verbatim_count, CtePlan, FusionPlan, MaterializeRule,
};
use crate::learned::{is_median_rate, rate_source, written, LearnedCostModel};
use crate::order::{list_of, listing};
use crate::plan::cap64;
use crate::sql::{dialect_for_db, dialect_name, named_dialect, parse_error, sql_parse_error, unicode_lower, Dialect};
use crate::step::{BudgetMetric, OptimizationType, StepPhase};
use crate::text::{decimal, decimal_text, texts, Text};

verus! {

/// What the pass is asked to do.
#[derive(Debug)]
pub struct FusionConfig {
    /// Materialize every expression.
    pub materialize_ctes: bool,
    /// Materialize the expressions of Views that several Tables read.
    pub naive_materialize_ctes: bool,
    /// The exact set to materialize.
    pub materialize_override: Option<Vec<String>>,
    /// Find the set by search.
    pub adaptive: bool,
    pub objective: HmpObjective,
    /// How many sets may be priced.
    pub search_budget: usize,
    /// How many sets may be tried.
    pub max_runs: usize,
    /// How much of all that single flips save the searched ones must save
    /// together, in millionths.
    pub top_share: u64,
    pub cost_model: SubtreeCostMethod,
    /// What spooling a byte takes, in femtoseconds.
    pub spool_rate: Option<u64>,
    /// What spooling takes of what writing takes, in millionths.
    pub spool_factor: Option<u64>,
}

/// The pass, with settings that make sense.
#[derive(Debug)]
pub struct NodeFusionPass {
    pub config: FusionConfig,
}

/// `n`, and at least one.
pub open spec fn at_least_one(n: usize) -> usize {
    if n == 0 {
        1
    } else {
        n
    }
}

/// A share that makes sense: some, and no more than all; else half.
pub open spec fn sensible_share(share: u64) -> u64 {
    if 0 < share <= 1000000 {
        share
    } else {
        500000
    }
}

/// What spooling takes of what writing takes, in millionths, where nobody says:
/// a guess. An engine that buffers in memory pays less than one that may
/// spill.
pub open spec fn default_factor(dialect: Dialect) -> u64 {
    if dialect is DuckDB {
        250000
    } else {
        500000
    }
}

/// What spooling takes of what writing takes, in millionths, where nobody says.
pub fn default_spool_factor(dialect: Dialect) -> (r: u64)
    ensures
        r == default_factor(dialect),
{
    match dialect {
        Dialect::DuckDB => 250000,
        _ => 500000,
    }
}

/// What a rewrite did.
#[derive(Debug)]
pub struct FusionReport {
    /// What happened, in words.
    pub outcome: String,
    /// The fusion, where there was one.
    pub plan: Option<FusionPlan>,
}

/// How many of the first `n` expressions are Views'.
pub open spec fn view_count(ctes: Seq<CtePlan>, n: nat) -> nat
    decreases n,
{
    if n == 0 {
        0
    } else {
        view_count(ctes, (n - 1) as nat) + if ctes[n - 1].is_table {
            0nat
        } else {
            1
        }
    }
}

/// How many of the first `n` expressions are materialized.
pub open spec fn materialized_count(ctes: Seq<CtePlan>, n: nat) -> nat
    decreases n,
{
    if n == 0 {
        0
    } else {
        materialized_count(ctes, (n - 1) as nat) + if ctes[n - 1].materialized {
            1nat
        } else {
            0
        }
    }
}

/// How many expressions are Views'.
pub fn count_views(ctes: &Vec<CtePlan>) -> (r: usize)
    ensures
        r == view_count(ctes@, ctes@.len()),
{
    let mut n: usize = 0;
    let mut i: usize = 0;
    while i < ctes.len()
        invariant
            i <= ctes@.len(),
            n == view_count(ctes@, i as nat),
            n <= i,
        decreases ctes@.len() - i,
    {
        if !ctes[i].is_table {
            n = n + 1;
        }
        i = i + 1;
    }
    n
}

/// How many expressions are materialized.
pub fn count_materialized(ctes: &Vec<CtePlan>) -> (r: usize)
    ensures
        r == materialized_count(ctes@, ctes@.len()),
{
    let mut n: usize = 0;
    let mut i: usize = 0;
    while i < ctes.len()
        invariant
            i <= ctes@.len(),
            n == materialized_count(ctes@, i as nat),
            n <= i,
        decreases ctes@.len() - i,
    {
        if ctes[i].materialized {
            n = n + 1;
        }
        i = i + 1;
    }
    n
}

/// What is said of a fusion.
pub open spec fn fused_outcome(p: FusionPlan) -> Text {
    "fused "@ + decimal(p.tables@.len()) + " Table node(s) and "@ + decimal(view_count(p.ctes@, p.ctes@.len()))
        + " inlined View(s) into '"@ + p.fused_id@ + "'"@
}

/// What is said where there was none.
pub open spec fn not_fused_outcome(why: Text) -> Text {
    "not fused: "@ + why
}

/// What is said of a fused query that does not parse.
pub open spec fn unparsable_text(e: Text) -> Text {
    "nodefusion built a fused query that does not parse ("@ + e + "); refusing to install it"@
}

/// The graph is left alone, and why.
pub open spec fn refuses(g: GraphModel, dialect: Dialect, rule: MaterializeRule, why: Text) -> bool {
    ||| not_fusable(g, why)
    ||| exists|p: FusionPlan| #[trigger] fusion_of(g, dialect, rule, p) && cannot_build_because(g, dialect, p, why)
}

/// The fused query of `p` is known not to parse, by the message `e`. A query
/// that holds a body as it was written is not asked about: the body may be what
/// the parser cannot read.
pub open spec fn known_unparsable(g: GraphModel, dialect: Dialect, p: FusionPlan, e: Text) -> bool {
    &&& verbatim_count(g, p.ctes@, p.ctes@.len()) == 0
    &&& sql_parse_error(fused_text(g, dialect, p), dialect_name(dialect)) == Some(e)
}

/// Nothing is known against the fused query of `p`.
pub open spec fn installable(g: GraphModel, dialect: Dialect, p: FusionPlan) -> bool {
    &&& can_build(g, dialect, p)
    &&& verbatim_count(g, p.ctes@, p.ctes@.len()) == 0 ==> sql_parse_error(
        fused_text(g, dialect, p),
        dialect_name(dialect),
    ) is None
}

/// A rewrite of `g` into `after` under a rule, and what it reports. The graph
/// changes only where it is fused.
pub open spec fn rewrites(
    g: GraphModel,
    dialect: Dialect,
    rule: MaterializeRule,
    after: GraphModel,
    r: Result<FusionReport, OptimizerError>,
) -> bool {
    match r {
        Ok(report) => match report.plan {
            Some(p) => {
                &&& fusion_of(g, dialect, rule, p)
                &&& installable(g, dialect, p)
                &&& after == fused_graph(g, dialect, p)
                &&& report.outcome@ == fused_outcome(p)
            },
            None => {
                &&& after == g
                &&& exists|why: Text|
                    #[trigger] refuses(g, dialect, rule, why) && report.outcome@ == not_fused_outcome(why)
            },
        },
        Err(OptimizerError::Exec(message)) => {
            &&& after == g
            &&& exists|p: FusionPlan, e: Text|
                #[trigger] fusion_of(g, dialect, rule, p) && can_build(g, dialect, p) && #[trigger] known_unparsable(
                    g,
                    dialect,
                    p,
                    e,
                ) && message@ == unparsable_text(e)
        },
        Err(OptimizerError::Config(_)) => false,
    }
}

/// Fuses the graph under `rule`, in place.
pub fn rewrite_under(dag: &mut Dag, rule: &MaterializeRule) -> (r: Result<FusionReport, OptimizerError>)
    requires
        old(dag).wf(),
    ensures
        final(dag).wf(),
        final(dag).db == old(dag).db,
        final(dag).sources == old(dag).sources,
        final(dag).max_parallelism == old(dag).max_parallelism,
        rewrites(old(dag).nodes@, named_dialect(unicode_lower(old(dag).db@)), *rule, final(dag).nodes@, r),
{
    let ghost g = dag.nodes@;
    let dialect = dialect_for_db(dag.db.as_str());
    let plan = match plan_fusion(dag, rule) {
        Ok(p) => p,
        Err(why) => {
            let mut outcome = "not fused: ".to_owned();
            outcome.append(why.as_str());
            proof {
                assert(refuses(g, dialect, *rule, why@));
            }
            return Ok(FusionReport { outcome, plan: None });
        },
    };
    let fused = match build_fused_sql(dag, &plan, dialect) {
        Ok(f) => f,
        Err(why) => {
            let mut outcome = "not fused: ".to_owned();
            outcome.append(why.as_str());
            proof {
                assert(fusion_of(g, dialect, *rule, plan));
                assert(refuses(g, dialect, *rule, why@));
            }
            return Ok(FusionReport { outcome, plan: None });
        },
    };
    if fused.verbatim_bodies == 0 {
        if let Some(e) = parse_error(fused.sql.as_str(), dialect.name()) {
            let mut message = "nodefusion built a fused query that does not parse (".to_owned();
            message.append(e.as_str());
            message.append("); refusing to install it");
            proof {
                assert(fusion_of(g, dialect, *rule, plan));
                assert(known_unparsable(g, dialect, plan, e@));
            }
            return Err(OptimizerError::Exec(message));
        }
    }
    proof {
        assert forall|k: int| 0 <= k < plan.tables@.len() implies g.contains_key((#[trigger] plan.tables@[k]).node_id@) by {
            crate::fused::tables_of_plan(g, dialect, *rule, plan);
            assert(table_ids(g).contains(plan.tables@[k].node_id@));
        }
    }
    install(dag, &plan, fused.sql, Ghost(dialect));
    let mut outcome = "fused ".to_owned();
    outcome.append(decimal_text(plan.tables.len() as u64).as_str());
    outcome.append(" Table node(s) and ");
    outcome.append(decimal_text(count_views(&plan.ctes) as u64).as_str());
    outcome.append(" inlined View(s) into '");
    outcome.append(plan.fused_id.as_str());
    outcome.append("'");
    let report = FusionReport { outcome, plan: Some(plan) };
    proof {
        let p = report.plan->0;
        assert(fusion_of(g, dialect, *rule, p));
        assert(installable(g, dialect, p));
    }
    Ok(report)
}

/// A refused fusion leaves the graph as it was.
pub proof fn refusal_changes_nothing(
    g: GraphModel,
    dialect: Dialect,
    rule: MaterializeRule,
    after: GraphModel,
    r: Result<FusionReport, OptimizerError>,
)
    requires
        rewrites(g, dialect, rule, after, r),
        r matches Ok(report) ==> report.plan is None,
    ensures
        after == g,
{
}

/// A graph that cannot be fused -- one that does not sort, has fewer than two
/// Tables, or has a TempTable upstream of a Table -- is left as it was, and that
/// is no error.
pub proof fn unfusable_is_left_alone(
    g: GraphModel,
    dialect: Dialect,
    rule: MaterializeRule,
    after: GraphModel,
    r: Result<FusionReport, OptimizerError>,
)
    requires
        rewrites(g, dialect, rule, after, r),
        !fusable(g),
    ensures
        after == g,
        r matches Ok(report) && report.plan is None && exists|why: Text|
            #[trigger] not_fusable(g, why) && report.outcome@ == not_fused_outcome(why),
{
    let report = r->Ok_0;
    let why = choose|why: Text|
        #[trigger] refuses(g, dialect, rule, why) && report.outcome@ == not_fused_outcome(why);
    assert(not_fusable(g, why));
}

/// A graph that was refused for want of a plan or of a query is refused again.
proof fn refused_stays_refused(g: GraphModel, dialect: Dialect, rule: MaterializeRule, why: Text, p: FusionPlan)
    requires
        refuses(g, dialect, rule, why),
        fusion_of(g, dialect, rule, p),
    ensures
        !can_build(g, dialect, p),
{
    if not_fusable(g, why) {
        refused_has_no_plan(g, dialect, rule, why, p);
    } else {
        let q = choose|q: FusionPlan| #[trigger] fusion_of(g, dialect, rule, q) && cannot_build_because(g, dialect, q, why);
        if can_build(g, dialect, p) {
            building_is_determined(g, dialect, rule, p, q);
        }
    }
}

/// Rewriting a second time changes nothing: a fused graph is refused, because
/// its Tables read a TempTable, and a graph that was refused is refused again.
pub proof fn rewriting_twice_is_refused(
    g: GraphModel,
    dialect: Dialect,
    rule: MaterializeRule,
    after: GraphModel,
    r: Result<FusionReport, OptimizerError>,
    again: GraphModel,
    s: Result<FusionReport, OptimizerError>,
)
    requires
        rewrites(g, dialect, rule, after, r),
        r is Ok,
        rewrites(after, dialect, rule, again, s),
    ensures
        s matches Ok(report) && report.plan is None,
        again == after,
{
    match r->Ok_0.plan {
        Some(p) => {
            fusing_twice_is_refused(g, dialect, rule, p);
            unfusable_is_left_alone(after, dialect, rule, again, s);
        },
        None => {
            let why = choose|why: Text| #[trigger] refuses(g, dialect, rule, why);
            match s {
                Ok(report) => {
                    if report.plan is Some {
                        refused_stays_refused(g, dialect, rule, why, report.plan->0);
                    }
                },
                Err(OptimizerError::Exec(message)) => {
                    let (p, e) = choose|p: FusionPlan, e: Text|
                        #[trigger] fusion_of(g, dialect, rule, p) && can_build(g, dialect, p) && #[trigger] known_unparsable(
                            g,
                            dialect,
                            p,
                            e,
                        ) && message@ == unparsable_text(e);
                    refused_stays_refused(g, dialect, rule, why, p);
                },
                Err(_) => {},
            }
        },
    }
}

/// What a rewrite makes of a graph is a function of the graph and the rule.
pub proof fn rewrite_is_determined(
    g: GraphModel,
    dialect: Dialect,
    rule: MaterializeRule,
    a: GraphModel,
    ra: Result<FusionReport, OptimizerError>,
    b: GraphModel,
    rb: Result<FusionReport, OptimizerError>,
)
    requires
        rewrites(g, dialect, rule, a, ra),
        rewrites(g, dialect, rule, b, rb),
        ra matches Ok(report) && report.plan is Some,
        rb matches Ok(report) && report.plan is Some,
    ensures
        ra->Ok_0.outcome@ == rb->Ok_0.outcome@,
        a == b,
{
    let p = ra->Ok_0.plan->0;
    let q = rb->Ok_0.plan->0;
    fusion_is_determined(g, dialect, rule, p, q);
    fused_text_is_determined(g, dialect, rule, p, q);
    same_view_count(p.ctes@, q.ctes@, p.ctes@.len());
    crate::fused::fused_graph_is_determined(g, dialect, rule, p, q);
}

proof fn same_view_count(a: Seq<CtePlan>, b: Seq<CtePlan>, n: nat)
    requires
        n <= a.len() == b.len(),
        forall|i: int| 0 <= i < a.len() ==> crate::fused::same_cte(#[trigger] a[i], b[i]),
    ensures
        view_count(a, n) == view_count(b, n),
    decreases n,
{
    if n > 0 {
        same_view_count(a, b, (n - 1) as nat);
        assert(crate::fused::same_cte(a[n - 1], b[n - 1]));
    }
}

/// What contradicts a search, of the settings that fix what it is to find.
pub open spec fn contradiction(c: FusionConfig) -> Option<Text> {
    if !c.adaptive {
        None
    } else if c.naive_materialize_ctes {
        Some(
            "nodefusion: the adaptive search and the naive reader-count rule are incompatible -- the naive rule is the floor the search exists to beat, and applying it to the search's own baseline would compare every candidate against the wrong control"@,
        )
    } else if c.materialize_override is Some {
        Some(
            "nodefusion: the adaptive search and an explicit materialize-CTE override are incompatible -- the override pins the exact set the search exists to find"@,
        )
    } else if c.materialize_ctes {
        Some(
            "nodefusion: the adaptive search and nodefusion_materialize_ctes are incompatible -- the global switch materializes every View CTE regardless of what the search decides"@,
        )
    } else {
        None
    }
}

/// The rule that the settings give.
pub open spec fn configured_rule<'a>(c: &'a FusionConfig) -> MaterializeRule<'a> {
    MaterializeRule::Configured {
        all_views: c.materialize_ctes,
        naive: c.naive_materialize_ctes,
        over: match &c.materialize_override {
            Some(list) => Some(list),
            None => None,
        },
    }
}

/// `factor` is what spooling takes of what writing through `path` takes, in
/// millionths: the explicit rate against the write rate where there are both,
/// else the configured factor, else the engine's default.
pub open spec fn is_spool_factor(c: FusionConfig, model: LearnedCostModel, path: Text, dialect: Dialect, factor: u64) -> bool {
    let fallback = match c.spool_factor {
        Some(f) => f,
        None => default_factor(dialect),
    };
    match c.spool_rate {
        Some(rate) => {
            ||| (exists|from: Text, write: u64|
                #[trigger] rate_source(model@.writes, path, from) && #[trigger] is_median_rate(
                    written(model@.writes, from),
                    Some(write),
                ) && (if write > 0 {
                    factor == cap64((rate * 1000000 / write as int) as nat)
                } else {
                    factor == fallback
                }))
            ||| (factor == fallback && forall|p: Text| #[trigger]
                model@.writes.contains_key(p) ==> model@.writes[p].len() == 0)
        },
        None => factor == fallback,
    }
}

impl NodeFusionPass {
    /// A pass that decides by rule.
    pub fn new(
        materialize_ctes: bool,
        naive_materialize_ctes: bool,
        materialize_override: Option<Vec<String>>,
    ) -> (r: NodeFusionPass)
        ensures
            r.config.materialize_ctes == materialize_ctes,
            r.config.naive_materialize_ctes == naive_materialize_ctes,
            r.config.materialize_override == materialize_override,
            !r.config.adaptive,
            r.config.objective == HmpObjective::QueryTime,
            r.config.search_budget == 32,
            r.config.max_runs == 1,
            r.config.top_share == 500000,
            r.config.cost_model == SubtreeCostMethod::LearnedCost,
            r.config.spool_rate is None,
            r.config.spool_factor is None,
    {
        NodeFusionPass {
            config: FusionConfig {
                materialize_ctes,
                naive_materialize_ctes,
                materialize_override,
                adaptive: false,
                objective: HmpObjective::QueryTime,
                search_budget: 32,
                max_runs: 1,
                top_share: 500000,
                cost_model: SubtreeCostMethod::LearnedCost,
                spool_rate: None,
                spool_factor: None,
            },
        }
    }

    /// A pass with these settings; those that make no sense are mended.
    pub fn from_config(config: FusionConfig) -> (r: NodeFusionPass)
        ensures
            r.config == (FusionConfig {
                search_budget: at_least_one(config.search_budget),
                max_runs: at_least_one(config.max_runs),
                top_share: sensible_share(config.top_share),
                ..config
            }),
    {
        let search_budget: usize = if config.search_budget == 0 {
            1
        } else {
            config.search_budget
        };
        let max_runs: usize = if config.max_runs == 0 {
            1
        } else {
            config.max_runs
        };
        let top_share: u64 = if 0 < config.top_share && config.top_share <= 1000000 {
            config.top_share
        } else {
            500000
        };
        NodeFusionPass { config: FusionConfig { search_budget, max_runs, top_share, ..config } }
    }

    /// Whether the settings contradict each other: a search and a rule that
    /// fixes what it is to find.
    pub fn check_config(&self) -> (r: Result<(), OptimizerError>)
        ensures
            match r {
                Ok(_) => contradiction(self.config) is None,
                Err(OptimizerError::Config(m)) => contradiction(self.config) == Some(m@),
                Err(_) => false,
            },
    {
        if !self.config.adaptive {
            return Ok(());
        }
        if self.config.naive_materialize_ctes {
            return Err(
                OptimizerError::Config(
                    "nodefusion: the adaptive search and the naive reader-count rule are incompatible -- the naive rule is the floor the search exists to beat, and applying it to the search's own baseline would compare every candidate against the wrong control".to_owned(),
                ),
            );
        }
        if self.config.materialize_override.is_some() {
            return Err(
                OptimizerError::Config(
                    "nodefusion: the adaptive search and an explicit materialize-CTE override are incompatible -- the override pins the exact set the search exists to find".to_owned(),
                ),
            );
        }
        if self.config.materialize_ctes {
            return Err(
                OptimizerError::Config(
                    "nodefusion: the adaptive search and nodefusion_materialize_ctes are incompatible -- the global switch materializes every View CTE regardless of what the search decides".to_owned(),
                ),
            );
        }
        Ok(())
    }

    /// The rule that the settings give.
    fn rule(&self) -> (r: MaterializeRule<'_>)
        ensures
            r == configured_rule(&self.config),
    {
        MaterializeRule::Configured {
            all_views: self.config.materialize_ctes,
            naive: self.config.naive_materialize_ctes,
            over: match &self.config.materialize_override {
                Some(list) => Some(list),
                None => None,
            },
        }
    }

    /// What to fuse under the settings, or why not.
    pub fn plan(&self, dag: &Dag) -> (r: Result<FusionPlan, String>)
        requires
            dag.wf(),
        ensures
            match r {
                Ok(p) => fusion_of(
                    dag.nodes@,
                    named_dialect(unicode_lower(dag.db@)),
                    configured_rule(&self.config),
                    p,
                ),
                Err(why) => not_fusable(dag.nodes@, why@),
            },
    {
        plan_fusion(dag, &self.rule())
    }

    /// Fuses the graph under the settings, in place.
    pub fn rewrite(&self, dag: &mut Dag) -> (r: Result<FusionReport, OptimizerError>)
        requires
            old(dag).wf(),
        ensures
            final(dag).wf(),
            final(dag).db == old(dag).db,
            final(dag).sources == old(dag).sources,
            final(dag).max_parallelism == old(dag).max_parallelism,
            rewrites(
                old(dag).nodes@,
                named_dialect(unicode_lower(old(dag).db@)),
                configured_rule(&self.config),
                final(dag).nodes@,
                r,
            ),
    {
        rewrite_under(dag, &self.rule())
    }

    /// Fuses the graph with exactly `set` materialized, in place.
    pub fn rewrite_with(&self, dag: &mut Dag, set: &Vec<String>) -> (r: Result<FusionReport, OptimizerError>)
        requires
            old(dag).wf(),
        ensures
            final(dag).wf(),
            final(dag).db == old(dag).db,
            final(dag).sources == old(dag).sources,
            final(dag).max_parallelism == old(dag).max_parallelism,
            rewrites(
                old(dag).nodes@,
                named_dialect(unicode_lower(old(dag).db@)),
                MaterializeRule::Exact(set),
                final(dag).nodes@,
                r,
            ),
    {
        rewrite_under(dag, &MaterializeRule::Exact(set))
    }

    /// The nodes whose expressions a search may decide about; none where the
    /// graph is not fused.
    pub fn decidable_ctes(&self, dag: &Dag) -> (r: Vec<String>)
        requires
            dag.wf(),
        ensures
            (exists|p: FusionPlan|
                #[trigger] fusion_of(
                    dag.nodes@,
                    named_dialect(unicode_lower(dag.db@)),
                    configured_rule(&self.config),
                    p,
                ) && texts(r@) == decidable_of(p.ctes@, p.ctes@.len())) || (r@.len() == 0 && exists|why: Text|
                not_fusable(dag.nodes@, why)),
    {
        match self.plan(dag) {
            Ok(p) => p.decidable(),
            Err(why) => {
                proof {
                    assert(not_fusable(dag.nodes@, why@));
                }
                Vec::new()
            },
        }
    }

    /// What the settings have materialized, in order of the ids; none where the
    /// graph is not fused.
    pub fn default_set(&self, dag: &Dag) -> (r: Option<Vec<String>>)
        requires
            dag.wf(),
        ensures
            match r {
                Some(set) => exists|p: FusionPlan|
                    #[trigger] fusion_of(
                        dag.nodes@,
                        named_dialect(unicode_lower(dag.db@)),
                        configured_rule(&self.config),
                        p,
                    ) && listing(texts(set@), materialized_of(p.ctes@, p.ctes@.len()).to_set()),
                None => exists|why: Text| not_fusable(dag.nodes@, why),
            },
    {
        match self.plan(dag) {
            Ok(p) => Some(list_of(&p.materialized_set())),
            Err(why) => {
                proof {
                    assert(not_fusable(dag.nodes@, why@));
                }
                None
            },
        }
    }

    /// The measure that a trial's budget caps: the objective's own.
    pub fn budget_metric(&self) -> (r: BudgetMetric)
        ensures
            r == match self.config.objective {
                HmpObjective::Makespan => BudgetMetric::WallClock,
                HmpObjective::QueryTime => BudgetMetric::NodeTime,
            },
    {
        match self.config.objective {
            HmpObjective::Makespan => BudgetMetric::WallClock,
            HmpObjective::QueryTime => BudgetMetric::NodeTime,
        }
    }

    /// A search measures runs; a rule does not.
    pub fn optimization_type(&self) -> (r: OptimizationType)
        ensures
            r == if self.config.adaptive {
                OptimizationType::Continuous
            } else {
                OptimizationType::Once
            },
    {
        if self.config.adaptive {
            OptimizationType::Continuous
        } else {
            OptimizationType::Once
        }
    }

    /// A search has its turn on both sides of a run.
    pub fn step_phase(&self, configured: StepPhase) -> (r: StepPhase)
        ensures
            r == if self.config.adaptive {
                StepPhase::Both
            } else {
                configured
            },
    {
        if self.config.adaptive {
            StepPhase::Both
        } else {
            configured
        }
    }

    /// Whether anything is priced with learned rates.
    pub fn uses_learned_constants(&self) -> (r: bool)
        ensures
            r == (self.config.adaptive && self.config.cost_model == SubtreeCostMethod::LearnedCost),
    {
        self.config.adaptive && self.config.cost_model == SubtreeCostMethod::LearnedCost
    }

    /// What spooling takes of what writing through `path` takes, in millionths.
    pub fn spool_factor_for(&self, model: &LearnedCostModel, path: &str, dialect: Dialect) -> (r: u64)
        requires
            model.wf(),
        ensures
            is_spool_factor(self.config, *model, path@, dialect, r),
    {
        let fallback = match self.config.spool_factor {
            Some(f) => f,
            None => default_spool_factor(dialect),
        };
        if let Some(rate) = self.config.spool_rate {
            if let Some((write, from)) = model.write_rate_for(path) {
                proof {
                    assert(rate_source(model@.writes, path@, from@));
                    assert(is_median_rate(written(model@.writes, from@), Some(write)));
                }
                if write > 0 {
                    let q: u128 = (rate as u128 * 1000000) / write as u128;
                    return if q <= u64::MAX as u128 {
                        q as u64
                    } else {
                        u64::MAX
                    };
                }
            }
        }
        fallback
    }
}

/// Every View's expression counts as one, and every materialized one.
pub proof fn every_expression_is_counted(ctes: Seq<CtePlan>, c: CtePlan)
    ensures
        view_count(ctes.push(c), ctes.len() + 1) == view_count(ctes, ctes.len()) + (if c.is_table {
            0int
        } else {
            1
        }),
        materialized_count(ctes.push(c), ctes.len() + 1) == materialized_count(ctes, ctes.len()) + (if c.materialized {
            1int
        } else {
            0
        }),
        view_count(ctes, 0) == 0 && materialized_count(ctes, 0) == 0,
{
    let more = ctes.push(c);
    counts_taken(ctes, more, ctes.len());
    assert(more[ctes.len() as int] == c);
}

proof fn counts_taken(a: Seq<CtePlan>, b: Seq<CtePlan>, n: nat)
    requires
        n <= a.len(),
        n <= b.len(),
        forall|i: int| 0 <= i < n ==> a[i] == b[i],
    ensures
        view_count(a, n) == view_count(b, n),
        materialized_count(a, n) == materialized_count(b, n),
    decreases n,
{
    if n > 0 {
        counts_taken(a, b, (n - 1) as nat);
    }
}

/// A factor is the explicit rate against the rate of the writes, rounded down,
/// where there are both; else what is configured; else the engine's guess, which
/// is lower for an engine that buffers in memory. A guess is a part of a write.
pub proof fn a_factor_is_rate_over_rate(c: FusionConfig, model: LearnedCostModel, path: Text, dialect: Dialect, factor: u64, from: Text, write: u64, rate: u64)
    requires
        is_spool_factor(c, model, path, dialect, factor),
    ensures
        c.spool_rate is None && c.spool_factor is Some ==> factor == c.spool_factor->0,
        c.spool_rate is None && c.spool_factor is None ==> 0 < factor < 1000000,
        default_factor(Dialect::DuckDB) < default_factor(Dialect::PostgreSQL),
        c.spool_rate == Some(rate) && rate_source(model@.writes, path, from) && (forall|f: Text, w: u64|
            #[trigger] rate_source(model@.writes, path, f) && #[trigger] is_median_rate(written(model@.writes, f), Some(w)) ==> w
                == write) && write > 0 && factor < u64::MAX ==> factor * write <= rate * 1000000 < (factor + 1) * write,
{
    if c.spool_rate == Some(rate) && rate_source(model@.writes, path, from) && write > 0 {
        let x = rate * 1000000;
        let w = write as int;
        assert(x / w * w <= x < (x / w + 1) * w) by (nonlinear_arith)
            requires
                w > 0,
        ;
        assert(x / w >= 0) by (nonlinear_arith)
            requires
                w > 0,
                x >= 0,
        ;
        assert(model@.writes.contains_key(from) && model@.writes[from].len() > 0);
    }
}

/// A search contradicts each of the settings that fix what it is to find, and
/// nothing contradicts a fusion by rule.
pub proof fn a_search_stands_alone(c: FusionConfig)
    ensures
        !c.adaptive ==> contradiction(c) is None,
        c.adaptive && (c.naive_materialize_ctes || c.materialize_override is Some || c.materialize_ctes) ==> contradiction(
            c,
        ) is Some,
        c.adaptive && !c.naive_materialize_ctes && c.materialize_override is None && !c.materialize_ctes ==> contradiction(
            c,
        ) is None,
        0 < sensible_share(0) <= 1000000,
        0 < c.top_share <= 1000000 ==> sensible_share(c.top_share) == c.top_share,
        at_least_one(0) == 1,
        c.max_runs > 0 ==> at_least_one(c.max_runs) == c.max_runs,
{
}

/// Where nobody says otherwise spooling in memory takes a quarter of a write,
/// and spooling that may spill takes half.
pub proof fn spooling_in_memory_takes_a_quarter(dialect: Dialect)
    ensures
        dialect is DuckDB ==> default_factor(dialect) * 4 == 1000000,
        !(dialect is DuckDB) ==> default_factor(dialect) * 2 == 1000000,
{
}

} // verus!
