use crate::aggregate::Aggregate;
use crate::aggregate_push_down::{
    eligible, id_after_proposal, is_eligible, propose, try_push_down_aggregate_expressions,
    AggregateProposal, AggregateProposalView,
};
use crate::aliases::Aliases;
use crate::join_push_down::{
    lemma_push_down_joins, push_down_join_filters, push_down_joins, PlanError,
};
use crate::join_tree_laws::{fully_pushed_down, joins_pushed_down};
use crate::plan::{group_plan_trees, plan_trees, Plan, PlanView};
use crate::visit_laws::{
    is_visit, law_every_aggregate_proposed, law_every_replacement_placed, placed, proposed_for,
};
use std::sync::Arc;
use vstd::prelude::*;

verus! {

/// This rule inspects the joins and aggregates of a physical plan and moves computations closer to
/// where their input comes from.
///
/// It pushes down those parts of the filters of nested loop joins that only depend on one side of
/// the join. By pushing them down, they are no longer evaluated for the cartesian product of the
/// two sides.
///
/// When `enable_aggregate_expression_pushdown` is set, the rule also extracts the scalar
/// expressions used as aggregate arguments and group by keys into a projection below the aggregate,
/// and proposes to push that projection into the data source. The rewrite is kept only when the
/// source absorbs the projection entirely.
#[derive(Debug)]
pub struct ProjectionPushdown {}

/// What the rule is allowed to do.
#[derive(Clone, Copy, Debug, PartialEq, Eq, Structural)]
pub struct OptimizerOptions {
    pub enable_aggregate_expression_pushdown: bool,
}

/// The views of several proposals.
pub open spec fn proposal_views(proposals: Seq<AggregateProposal>) -> Seq<AggregateProposalView> {
    proposals.map_values(|proposal: AggregateProposal| proposal@)
}

/// What is proposed for the aggregates of a plan, from the bottom up and from left to right, with
/// aliases numbered from `id` on, and the number of the next alias afterwards.
pub open spec fn plan_proposals(plan: PlanView, id: usize) -> (Seq<AggregateProposalView>, usize)
    decreases plan, 0nat,
{
    match plan {
        PlanView::NestedLoopJoin { left, right, .. } => {
            let (from_left, left_id) = plan_proposals(*left, id);
            let (from_right, right_id) = plan_proposals(*right, left_id);
            (from_left + from_right, right_id)
        },
        PlanView::Projection { input, .. } => plan_proposals(*input, id),
        PlanView::Aggregate { aggregate, input, .. } => {
            let (from_input, input_id) = plan_proposals(*input, id);
            match propose(aggregate, *input, input_id) {
                Some(proposal) => (
                    from_input.push(proposal),
                    id_after_proposal(aggregate, *input, input_id),
                ),
                None => (from_input, input_id),
            }
        },
        PlanView::Cooperative { input, .. } => plan_proposals(*input, id),
        PlanView::Repartition { input, .. } => plan_proposals(*input, id),
        PlanView::Other { children, .. } => plans_proposals(children, id),
    }
}

/// What is proposed for the aggregates of several plans, from left to right.
pub open spec fn plans_proposals(
    plans: Seq<PlanView>,
    id: usize,
) -> (Seq<AggregateProposalView>, usize)
    decreases plans, plans.len(),
{
    if plans.len() == 0 {
        (seq![], id)
    } else {
        let (before, last_id) = plans_proposals(plans.drop_last(), id);
        let (from_last, new_id) = plan_proposals(plans.last(), last_id);
        (before + from_last, new_id)
    }
}

/// The plan with the aggregates that something was proposed for replaced, as far as there are
/// replacements: those from position `k` on, in the order of the proposals. Also the position of
/// the next replacement.
pub open spec fn with_replacements(
    plan: PlanView,
    replacements: Seq<Option<PlanView>>,
    k: nat,
) -> (PlanView, nat)
    decreases plan, 0nat,
{
    match plan {
        PlanView::NestedLoopJoin { operator, join, left, right } => {
            let (new_left, left_k) = with_replacements(*left, replacements, k);
            let (new_right, right_k) = with_replacements(*right, replacements, left_k);
            (
                PlanView::NestedLoopJoin {
                    operator,
                    join,
                    left: Box::new(new_left),
                    right: Box::new(new_right),
                },
                right_k,
            )
        },
        PlanView::Projection { operator, exprs, input } => {
            let (new_input, new_k) = with_replacements(*input, replacements, k);
            (PlanView::Projection { operator, exprs, input: Box::new(new_input) }, new_k)
        },
        PlanView::Aggregate { operator, aggregate, input } => {
            let (new_input, new_k) = with_replacements(*input, replacements, k);
            let kept = PlanView::Aggregate { operator, aggregate, input: Box::new(new_input) };
            if eligible(aggregate, *input) && new_k < replacements.len() {
                match replacements[new_k as int] {
                    Some(replacement) => (replacement, new_k + 1),
                    None => (kept, new_k + 1),
                }
            } else {
                (kept, new_k)
            }
        },
        PlanView::Cooperative { operator, input } => {
            let (new_input, new_k) = with_replacements(*input, replacements, k);
            (PlanView::Cooperative { operator, input: Box::new(new_input) }, new_k)
        },
        PlanView::Repartition { operator, partitioning, input } => {
            let (new_input, new_k) = with_replacements(*input, replacements, k);
            (PlanView::Repartition { operator, partitioning, input: Box::new(new_input) }, new_k)
        },
        PlanView::Other { operator, schema, children } => {
            let (new_children, new_k) = all_with_replacements(children, replacements, k);
            (PlanView::Other { operator, schema, children: new_children }, new_k)
        },
    }
}

/// Several plans with aggregates replaced, from left to right.
pub open spec fn all_with_replacements(
    plans: Seq<PlanView>,
    replacements: Seq<Option<PlanView>>,
    k: nat,
) -> (Seq<PlanView>, nat)
    decreases plans, plans.len(),
{
    if plans.len() == 0 {
        (seq![], k)
    } else {
        let (before, last_k) = all_with_replacements(plans.drop_last(), replacements, k);
        let (last, new_k) = with_replacements(plans.last(), replacements, last_k);
        (before.push(last), new_k)
    }
}

/// A plan with the join filters pushed down, and what is proposed for its aggregates. The owner of
/// the plan carries the proposals out and calls [`Optimization::finish`] with the aggregates that
/// came out, and then removes the projections that have become unnecessary from the plan.
pub struct Optimization {
    pub plan: Arc<Plan>,
    pub proposals: Vec<AggregateProposal>,
}

/// Collects what is proposed for the aggregates of a plan.
fn collect_proposals(plan: &Arc<Plan>, aliases: &mut Aliases, found: &mut Vec<AggregateProposal>)
    requires
        forall|i: int| 0 <= i < old(found).len() ==> (#[trigger] old(found)@[i])@.valid(),
    ensures
        proposal_views(final(found)@) == proposal_views(old(found)@) + plan_proposals(
            plan@,
            old(aliases).counter(),
        ).0,
        final(aliases).counter() == plan_proposals(plan@, old(aliases).counter()).1,
        forall|i: int| 0 <= i < final(found).len() ==> (#[trigger] final(found)@[i])@.valid(),
    decreases plan,
{
    broadcast use group_plan_trees;

    let ghost start = proposal_views(found@);
    let ghost id = aliases.counter();
    match &**plan {
        Plan::NestedLoopJoin { left, right, .. } => {
            collect_proposals(left, aliases, found);
            let ghost left_id = aliases.counter();
            collect_proposals(right, aliases, found);
            assert(proposal_views(found@) =~= start + (plan_proposals(left@, id).0
                + plan_proposals(right@, left_id).0));
        },
        Plan::Projection { input, .. } => collect_proposals(input, aliases, found),
        Plan::Aggregate { aggregate, input, .. } => {
            collect_proposals(input, aliases, found);
            let ghost before = proposal_views(found@);
            if let Some(proposal) = try_push_down_aggregate_expressions(
                aggregate,
                input,
                aliases,
            ) {
                found.push(proposal);
                assert(proposal_views(found@) =~= before.push(proposal@));
                assert(proposal_views(found@) =~= start + plan_proposals(plan@, id).0);
            }
        },
        Plan::Cooperative { input, .. } => collect_proposals(input, aliases, found),
        Plan::Repartition { input, .. } => collect_proposals(input, aliases, found),
        Plan::Other { operator, schema, children } => {
            let ghost all = plan_trees(children@);
            assert(all.take(0) =~= seq![]);
            assert(start + plans_proposals(all.take(0), id).0 =~= start);
            for i in 0..children.len()
                invariant
                    all == plan_trees(children@),
                    all.len() == children.len(),
                    decreases_to!(plan => children),
                    forall|i: int| 0 <= i < found.len() ==> (#[trigger] found@[i])@.valid(),
                    proposal_views(found@) == start + plans_proposals(all.take(i as int), id).0,
                    aliases.counter() == plans_proposals(all.take(i as int), id).1,
            {
                let ghost before = plans_proposals(all.take(i as int), id);
                collect_proposals(&children[i], aliases, found);
                proof {
                    assert(all.take(i + 1).drop_last() =~= all.take(i as int));
                    assert(all.take(i + 1).last() == all[i as int]);
                    assert(proposal_views(found@) =~= start + (before.0 + plan_proposals(
                        all[i as int],
                        before.1,
                    ).0));
                }
            }
            assert(all.take(children.len() as int) =~= all);
        },
    }
}

/// The views of several replacements.
pub open spec fn replacement_views(replacements: Seq<Option<Arc<Plan>>>) -> Seq<Option<PlanView>> {
    replacements.map_values(
        |replacement: Option<Arc<Plan>>|
            match replacement {
                Some(plan) => Some(plan@),
                None => None,
            },
    )
}

/// Replaces aggregates in a plan, see [`with_replacements`].
fn install(
    plan: &Arc<Plan>,
    replacements: &Vec<Option<Arc<Plan>>>,
    next: &mut usize,
) -> (new_plan: Arc<Plan>)
    requires
        *old(next) <= replacements.len(),
    ensures
        (new_plan@, *final(next) as nat) == with_replacements(
            plan@,
            replacement_views(replacements@),
            *old(next) as nat,
        ),
        *final(next) <= replacements.len(),
    decreases plan, 1nat,
{
    match &**plan {
        Plan::NestedLoopJoin { operator, join, left, right } => {
            let new_left = install(left, replacements, next);
            let new_right = install(right, replacements, next);
            Arc::new(
                Plan::NestedLoopJoin {
                    operator: *operator,
                    join: Arc::clone(join),
                    left: new_left,
                    right: new_right,
                },
            )
        },
        Plan::Projection { operator, exprs, input } => {
            let new_input = install(input, replacements, next);
            Arc::new(
                Plan::Projection {
                    operator: *operator,
                    exprs: Arc::clone(exprs),
                    input: new_input,
                },
            )
        },
        Plan::Aggregate { operator, aggregate, input } => {
            let new_input = install(input, replacements, next);
            if is_eligible(aggregate, input) && *next < replacements.len() {
                let ghost views = replacement_views(replacements@);
                let ghost k = *next as int;
                assert(views[k] == match replacements@[k] {
                    Some(replacement) => Some(replacement@),
                    None => None,
                });
                let replacement = &replacements[*next];
                *next = *next + 1;
                if let Some(replacement) = replacement {
                    return Arc::clone(replacement);
                }
            }
            Arc::new(
                Plan::Aggregate {
                    operator: *operator,
                    aggregate: Arc::clone(aggregate),
                    input: new_input,
                },
            )
        },
        Plan::Cooperative { operator, input } => {
            let new_input = install(input, replacements, next);
            Arc::new(Plan::Cooperative { operator: *operator, input: new_input })
        },
        Plan::Repartition { operator, partitioning, input } => {
            let new_input = install(input, replacements, next);
            Arc::new(
                Plan::Repartition {
                    operator: *operator,
                    partitioning: *partitioning,
                    input: new_input,
                },
            )
        },
        Plan::Other { operator, schema, children } => {
            let new_children = install_all(children, replacements, next);
            Arc::new(
                Plan::Other {
                    operator: *operator,
                    schema: Arc::clone(schema),
                    children: new_children,
                },
            )
        },
    }
}

/// Replaces aggregates in several plans, see [`all_with_replacements`].
fn install_all(
    plans: &Vec<Arc<Plan>>,
    replacements: &Vec<Option<Arc<Plan>>>,
    next: &mut usize,
) -> (new_plans: Vec<Arc<Plan>>)
    requires
        *old(next) <= replacements.len(),
    ensures
        (plan_trees(new_plans@), *final(next) as nat) == all_with_replacements(
            plan_trees(plans@),
            replacement_views(replacements@),
            *old(next) as nat,
        ),
        *final(next) <= replacements.len(),
    decreases plans, 0nat,
{
    broadcast use group_plan_trees;

    let ghost all = plan_trees(plans@);
    let ghost views = replacement_views(replacements@);
    let ghost k = *next as nat;
    let mut new_plans: Vec<Arc<Plan>> = Vec::new();
    assert(all.take(0) =~= seq![]);
    assert(plan_trees(new_plans@) =~= seq![]);
    for i in 0..plans.len()
        invariant
            all == plan_trees(plans@),
            all.len() == plans.len(),
            views == replacement_views(replacements@),
            *next <= replacements.len(),
            (plan_trees(new_plans@), *next as nat) == all_with_replacements(
                all.take(i as int),
                views,
                k,
            ),
    {
        let ghost before = plan_trees(new_plans@);
        let new_plan = install(&plans[i], replacements, next);
        new_plans.push(new_plan);
        proof {
            assert(plan_trees(new_plans@) =~= before.push(new_plan@));
            assert(all.take(i + 1).drop_last() =~= all.take(i as int));
            assert(all.take(i + 1).last() == all[i as int]);
        }
    }
    assert(all.take(plans.len() as int) =~= all);
    new_plans
}

impl Default for ProjectionPushdown {
    fn default() -> (rule: Self)
        ensures
            rule == (ProjectionPushdown {  }),
    {
        ProjectionPushdown {  }
    }
}

impl Optimization {
    /// The plan with the aggregates of the proposals replaced: a `None` keeps the aggregate as it
    /// is, and so does a missing replacement.
    pub fn finish(&self, replacements: &Vec<Option<Arc<Plan>>>) -> (plan: Arc<Plan>)
        ensures
            plan@ == with_replacements(self.plan@, replacement_views(replacements@), 0).0,
            forall|paths: Seq<Seq<int>>| #[trigger]
                is_visit(self.plan@, paths) ==> placed(
                    self.plan@,
                    plan@,
                    paths,
                    replacement_views(replacements@),
                    0,
                ),
    {
        proof {
            let views = replacement_views(replacements@);
            assert forall|paths: Seq<Seq<int>>| #[trigger]
                is_visit(self.plan@, paths) implies placed(
                self.plan@,
                with_replacements(self.plan@, views, 0).0,
                paths,
                views,
                0,
            ) by {
                law_every_replacement_placed(self.plan@, views, paths);
            }
        }
        let mut next: usize = 0;
        install(&self.plan, replacements, &mut next)
    }
}

impl ProjectionPushdown {
    /// Creates the rule.
    pub fn new() -> (rule: Self)
        ensures
            rule == (ProjectionPushdown {  }),
    {
        ProjectionPushdown {  }
    }

    /// The name of the rule.
    pub fn name(&self) -> (name: &str)
        ensures
            name@ == "ProjectionPushdown"@,
    {
        "ProjectionPushdown"
    }

    /// Whether the schema of the plan is to be compared before and after the rule.
    pub fn schema_check(&self) -> (check: bool)
        ensures
            check,
    {
        true
    }

    /// Pushes down the parts of join filters that depend on one side alone, and proposes what to
    /// extract out of aggregates.
    pub fn optimize(&self, plan: &Arc<Plan>, config: &OptimizerOptions) -> (result: Result<
        Optimization,
        PlanError,
    >)
        requires
            plan@.well_formed(),
        ensures
            match push_down_joins(plan@, 1) {
                (Ok(new), id) => {
                    &&& result matches Ok(o) && o.plan@ == new && proposal_views(o.proposals@) == (
                    if config.enable_aggregate_expression_pushdown {
                        plan_proposals(new, id).0
                    } else {
                        seq![]
                    })
                },
                (Err(error), _) => result matches Err(e) && e == error,
            },
            result matches Ok(o) ==> o.plan@.well_formed() && forall|i: int|
                0 <= i < o.proposals.len() ==> (#[trigger] o.proposals@[i])@.valid(),
            result matches Ok(o) ==> joins_pushed_down(plan@, o.plan@) && fully_pushed_down(
                o.plan@,
            ),
            result matches Ok(o) ==> if config.enable_aggregate_expression_pushdown {
                exists|paths: Seq<Seq<int>>| #[trigger]
                    is_visit(o.plan@, paths) && proposed_for(
                        o.plan@,
                        paths,
                        proposal_views(o.proposals@),
                    )
            } else {
                o.proposals.len() == 0
            },
    {
        let mut aliases = Aliases::new();
        let new_plan = push_down_join_filters(plan, &mut aliases)?;
        proof {
            lemma_push_down_joins(plan@, 1);
        }
        let mut proposals: Vec<AggregateProposal> = Vec::new();
        assert(proposal_views(proposals@) =~= seq![]);
        if config.enable_aggregate_expression_pushdown {
            collect_proposals(&new_plan, &mut aliases, &mut proposals);
            assert(proposal_views(proposals@) =~= plan_proposals(
                new_plan@,
                push_down_joins(plan@, 1).1,
            ).0);
            proof {
                let paths = law_every_aggregate_proposed(
                    new_plan@,
                    push_down_joins(plan@, 1).1,
                );
                assert(is_visit(new_plan@, paths));
            }
        }
        Ok(Optimization { plan: new_plan, proposals })
    }
}

} // verus!
