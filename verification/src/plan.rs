use crate::aggregate::{Aggregate, AggregateView};
use crate::expr::stays_within;
use crate::join::{NestedLoopJoin, NestedLoopJoinView};
use crate::projection::{
    project_schema, projected, projection_views, ProjectionExpr, ProjectionExprView,
};
use crate::schema::{FieldView, Schema};
use std::sync::Arc;
use vstd::prelude::*;

verus! {

/// How a repartition deals its input out.
#[derive(Clone, Copy, Debug, PartialEq, Eq, Structural)]
pub enum Partitioning {
    /// In turn, to the given number of partitions.
    RoundRobinBatch(usize),
    /// In any other way, named by a number that the owner of the plan chooses.
    Other(u64),
}

/// A tree of operators. An operator that the owner of the plan made is named by a number that the
/// owner chooses; a join, projection or aggregate without such a number was made by a rewrite.
#[derive(Debug)]
#[allow(inconsistent_fields)]
pub enum Plan {
    NestedLoopJoin {
        operator: Option<u64>,
        join: Arc<NestedLoopJoin>,
        left: Arc<Plan>,
        right: Arc<Plan>,
    },
    Projection { operator: Option<u64>, exprs: Arc<Vec<ProjectionExpr>>, input: Arc<Plan> },
    Aggregate { operator: Option<u64>, aggregate: Arc<Aggregate>, input: Arc<Plan> },
    /// Yields now and then; passes its input through.
    Cooperative { operator: u64, input: Arc<Plan> },
    Repartition { operator: u64, partitioning: Partitioning, input: Arc<Plan> },
    /// Any other operator.
    Other { operator: u64, schema: Arc<Schema>, children: Vec<Arc<Plan>> },
}

/// The view of a [`Plan`].
#[allow(inconsistent_fields)]
pub enum PlanView {
    NestedLoopJoin {
        operator: Option<u64>,
        join: NestedLoopJoinView,
        left: Box<PlanView>,
        right: Box<PlanView>,
    },
    Projection { operator: Option<u64>, exprs: Seq<ProjectionExprView>, input: Box<PlanView> },
    Aggregate { operator: Option<u64>, aggregate: AggregateView, input: Box<PlanView> },
    Cooperative { operator: u64, input: Box<PlanView> },
    Repartition { operator: u64, partitioning: Partitioning, input: Box<PlanView> },
    Other { operator: u64, schema: Seq<FieldView>, children: Seq<PlanView> },
}

impl Plan {
    /// The plan as a tree of views.
    pub open spec fn tree(self) -> PlanView
        decreases self,
    {
        match self {
            Plan::NestedLoopJoin { operator, join, left, right } => PlanView::NestedLoopJoin {
                operator,
                join: join@,
                left: Box::new(left.tree()),
                right: Box::new(right.tree()),
            },
            Plan::Projection { operator, exprs, input } => PlanView::Projection {
                operator,
                exprs: projection_views(exprs@),
                input: Box::new(input.tree()),
            },
            Plan::Aggregate { operator, aggregate, input } => PlanView::Aggregate {
                operator,
                aggregate: aggregate@,
                input: Box::new(input.tree()),
            },
            Plan::Cooperative { operator, input } => PlanView::Cooperative {
                operator,
                input: Box::new(input.tree()),
            },
            Plan::Repartition { operator, partitioning, input } => PlanView::Repartition {
                operator,
                partitioning,
                input: Box::new(input.tree()),
            },
            Plan::Other { operator, schema, children } => PlanView::Other {
                operator,
                schema: schema@,
                children: plan_trees(children@),
            },
        }
    }
}

/// The views of several plans.
pub open spec fn plan_trees(plans: Seq<Arc<Plan>>) -> Seq<PlanView>
    decreases plans,
{
    Seq::new(
        plans.len(),
        |i: int| if 0 <= i < plans.len() { plans[i].tree() } else { arbitrary() },
    )
}

/// There is one view for each plan.
pub broadcast proof fn lemma_plan_trees_len(plans: Seq<Arc<Plan>>)
    ensures
        #[trigger] plan_trees(plans).len() == plans.len(),
{
}

/// The views are in the order of the plans.
pub broadcast proof fn lemma_plan_trees_index(plans: Seq<Arc<Plan>>, i: int)
    requires
        0 <= i < plans.len(),
    ensures
        #[trigger] plan_trees(plans)[i] == plans[i]@,
{
}

pub broadcast group group_plan_trees {
    lemma_plan_trees_len,
    lemma_plan_trees_index,
}

impl View for Plan {
    type V = PlanView;

    open spec fn view(&self) -> PlanView {
        self.tree()
    }
}

impl PlanView {
    /// The columns of the result.
    pub open spec fn fields(self) -> Seq<FieldView>
        decreases self,
    {
        match self {
            PlanView::NestedLoopJoin { join, left, right, .. } => join.fields(
                left.fields(),
                right.fields(),
            ),
            PlanView::Projection { exprs, input, .. } => projected(exprs, input.fields()),
            PlanView::Aggregate { aggregate, .. } => aggregate.schema,
            PlanView::Cooperative { input, .. } => input.fields(),
            PlanView::Repartition { input, .. } => input.fields(),
            PlanView::Other { schema, .. } => schema,
        }
    }

    /// Whether joins and projections refer only to columns that their inputs have.
    pub open spec fn well_formed(self) -> bool
        decreases self,
    {
        match self {
            PlanView::NestedLoopJoin { join, left, right, .. } => {
                &&& left.well_formed()
                &&& right.well_formed()
                &&& join.fits(left.fields(), right.fields())
            },
            PlanView::Projection { exprs, input, .. } => {
                &&& input.well_formed()
                &&& exprs_fit(exprs, input.fields().len() as int)
            },
            PlanView::Aggregate { input, .. } => input.well_formed(),
            PlanView::Cooperative { input, .. } => input.well_formed(),
            PlanView::Repartition { input, .. } => input.well_formed(),
            PlanView::Other { children, .. } => forall|i: int|
                0 <= i < children.len() ==> (#[trigger] children[i]).well_formed(),
        }
    }
}

/// Whether the expressions refer only to the first `width` columns.
pub open spec fn exprs_fit(exprs: Seq<ProjectionExprView>, width: int) -> bool {
    forall|i: int| 0 <= i < exprs.len() ==> (#[trigger] exprs[i]).expr.within(width)
}

impl Plan {
    /// The columns of the result.
    pub fn schema(&self) -> (schema: Schema)
        requires
            self@.well_formed(),
        ensures
            schema@ == self@.fields(),
        decreases self,
    {
        match self {
            Plan::NestedLoopJoin { join, left, right, .. } => join.schema(
                &left.schema(),
                &right.schema(),
            ),
            Plan::Projection { exprs, input, .. } => {
                assert forall|i: int| 0 <= i < exprs.len() implies (
                #[trigger] exprs@[i])@.expr.within(input@.fields().len() as int) by {
                    assert(projection_views(exprs@)[i] == exprs@[i]@);
                }
                project_schema(exprs, &input.schema())
            },
            Plan::Aggregate { aggregate, .. } => aggregate.schema.clone(),
            Plan::Cooperative { input, .. } => input.schema(),
            Plan::Repartition { input, .. } => input.schema(),
            Plan::Other { schema, .. } => (**schema).clone(),
        }
    }

    /// Whether joins and projections refer only to columns that their inputs have.
    pub fn is_well_formed(&self) -> (result: bool)
        ensures
            result == self@.well_formed(),
        decreases self,
    {
        broadcast use group_plan_trees;

        match self {
            Plan::NestedLoopJoin { join, left, right, .. } => {
                left.is_well_formed() && right.is_well_formed() && join.stays_within(
                    &left.schema(),
                    &right.schema(),
                )
            },
            Plan::Projection { exprs, input, .. } => {
                if !input.is_well_formed() {
                    return false;
                }
                let schema = input.schema();
                assert(schema@.len() == schema.fields.len());
                let ghost views = projection_views(exprs@);
                for i in 0..exprs.len()
                    invariant
                        self@.well_formed() ==> exprs_fit(views, schema@.len() as int),
                        schema@.len() == schema.fields.len(),
                        views == projection_views(exprs@),
                        forall|j: int|
                            0 <= j < i ==> (#[trigger] views[j]).expr.within(schema@.len() as int),
                {
                    assert(views[i as int] == exprs@[i as int]@);
                    if !stays_within(&exprs[i].expr, schema.fields.len()) {
                        return false;
                    }
                }
                true
            },
            Plan::Aggregate { input, .. } => input.is_well_formed(),
            Plan::Cooperative { input, .. } => input.is_well_formed(),
            Plan::Repartition { input, .. } => input.is_well_formed(),
            Plan::Other { operator, schema, children } => {
                let ghost views = plan_trees(children@);
                assert(self@ == PlanView::Other {
                    operator: *operator,
                    schema: schema@,
                    children: views,
                });
                for i in 0..children.len()
                    invariant
                        self@ == (PlanView::Other {
                            operator: *operator,
                            schema: schema@,
                            children: views,
                        }),
                        views == plan_trees(children@),
                        decreases_to!(self => children),
                        forall|j: int| 0 <= j < i ==> (#[trigger] views[j]).well_formed(),
                {
                    if !children[i].is_well_formed() {
                        assert(!self@->children[i as int].well_formed());
                        return false;
                    }
                }
                true
            },
        }
    }
}

} // verus!
