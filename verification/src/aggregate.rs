use crate::expr::{trees, Expr, ExprView};
use crate::projection::{projection_views, ProjectionExpr, ProjectionExprView};
use crate::schema::{FieldView, Schema};
use std::sync::Arc;
use vstd::prelude::*;

verus! {

/// What an aggregate reads, and what it returns.
#[derive(Clone, Copy, Debug, PartialEq, Eq, Structural)]
pub enum AggregateMode {
    /// From rows to intermediate state.
    Partial,
    /// From intermediate state to results.
    Final,
    /// From intermediate state that is partitioned by group to results.
    FinalPartitioned,
    /// From rows to results.
    Single,
    /// From rows that are partitioned by group to results.
    SinglePartitioned,
    /// From intermediate state to intermediate state.
    PartialReduce,
}

/// How the order of the input fits the groups of an aggregate.
#[derive(Debug)]
pub enum InputOrderMode {
    Linear,
    PartiallySorted(Vec<usize>),
    Sorted,
}

/// The view of an [`InputOrderMode`].
pub enum InputOrderModeView {
    Linear,
    PartiallySorted(Seq<usize>),
    Sorted,
}

impl View for InputOrderMode {
    type V = InputOrderModeView;

    open spec fn view(&self) -> InputOrderModeView {
        match *self {
            InputOrderMode::Linear => InputOrderModeView::Linear,
            InputOrderMode::PartiallySorted(indices) => InputOrderModeView::PartiallySorted(
                indices@,
            ),
            InputOrderMode::Sorted => InputOrderModeView::Sorted,
        }
    }
}

impl InputOrderMode {
    /// Whether two modes are the same.
    pub fn same_mode(&self, other: &InputOrderMode) -> (result: bool)
        ensures
            result == (self@ == other@),
    {
        match (self, other) {
            (InputOrderMode::Linear, InputOrderMode::Linear) => true,
            (InputOrderMode::Sorted, InputOrderMode::Sorted) => true,
            (InputOrderMode::PartiallySorted(left), InputOrderMode::PartiallySorted(right)) => {
                if left.len() != right.len() {
                    return false;
                }
                for i in 0..left.len()
                    invariant
                        left.len() == right.len(),
                        self@ == InputOrderModeView::PartiallySorted(left@),
                        other@ == InputOrderModeView::PartiallySorted(right@),
                        forall|j: int| 0 <= j < i ==> left@[j] == right@[j],
                {
                    if left[i] != right[i] {
                        return false;
                    }
                }
                assert(left@ =~= right@);
                true
            },
            _ => false,
        }
    }
}

/// The parts of a GROUP BY with grouping sets that no rewrite touches: the null expressions, which
/// expressions each set leaves out, and whether there are grouping sets at all.
#[derive(Debug)]
pub struct GroupingSets {
    pub null_exprs: Vec<ProjectionExpr>,
    pub groups: Vec<Vec<bool>>,
    pub has_grouping_set: bool,
}

/// The parts of an aggregate function call that no rewrite touches. The function is named by a
/// number that the owner of the plan chooses.
#[derive(Debug)]
pub struct AggregateCall {
    pub function: u64,
    pub name: String,
    pub ignore_nulls: bool,
    pub is_distinct: bool,
    pub is_reversed: bool,
    pub human_display: Option<String>,
    pub human_display_alias: Option<String>,
}

/// The direction of a sort, and where it puts nulls.
#[derive(Clone, Copy, Debug, PartialEq, Eq, Structural)]
pub struct SortOptions {
    pub descending: bool,
    pub nulls_first: bool,
}

/// A sort key.
#[derive(Debug)]
pub struct SortExpr {
    pub expr: Arc<Expr>,
    pub options: SortOptions,
}

/// The view of a [`SortExpr`].
pub struct SortExprView {
    pub expr: ExprView,
    pub options: SortOptions,
}

impl View for SortExpr {
    type V = SortExprView;

    open spec fn view(&self) -> SortExprView {
        SortExprView { expr: self.expr@, options: self.options }
    }
}

/// The views of several sort keys.
pub open spec fn sort_views(exprs: Seq<SortExpr>) -> Seq<SortExprView> {
    exprs.map_values(|expr: SortExpr| expr@)
}

/// An aggregate function call with its arguments and the order in which it wants its input.
#[derive(Debug)]
pub struct AggregateExpr {
    pub call: Arc<AggregateCall>,
    pub args: Vec<Arc<Expr>>,
    pub order_bys: Vec<SortExpr>,
}

/// The view of an [`AggregateExpr`].
pub struct AggregateExprView {
    pub call: AggregateCall,
    pub args: Seq<ExprView>,
    pub order_bys: Seq<SortExprView>,
}

impl View for AggregateExpr {
    type V = AggregateExprView;

    open spec fn view(&self) -> AggregateExprView {
        AggregateExprView {
            call: *self.call,
            args: trees(self.args@),
            order_bys: sort_views(self.order_bys@),
        }
    }
}

/// The views of several aggregate function calls.
pub open spec fn aggregate_views(exprs: Seq<AggregateExpr>) -> Seq<AggregateExprView> {
    exprs.map_values(|expr: AggregateExpr| expr@)
}

/// The views of several optional expressions.
pub open spec fn filter_views(filters: Seq<Option<Arc<Expr>>>) -> Seq<Option<ExprView>> {
    filters.map_values(
        |filter: Option<Arc<Expr>>|
            match filter {
                Some(expr) => Some(expr@),
                None => None,
            },
    )
}

/// How many groups are wanted, and in which order of their keys.
#[derive(Clone, Copy, Debug, PartialEq, Eq, Structural)]
pub struct LimitOptions {
    pub limit: usize,
    pub descending: Option<bool>,
}

/// What an aggregate computes: groups by `group_by`, and for each group the calls in `aggr_exprs`,
/// each over the rows that pass its filter.
#[derive(Debug)]
pub struct Aggregation {
    pub mode: AggregateMode,
    pub group_by: Vec<ProjectionExpr>,
    pub grouping_sets: Arc<GroupingSets>,
    pub aggr_exprs: Vec<AggregateExpr>,
    pub filters: Vec<Option<Arc<Expr>>>,
    pub limit_options: Option<LimitOptions>,
}

/// The view of an [`Aggregation`].
pub struct AggregationView {
    pub mode: AggregateMode,
    pub group_by: Seq<ProjectionExprView>,
    pub grouping_sets: GroupingSets,
    pub aggr_exprs: Seq<AggregateExprView>,
    pub filters: Seq<Option<ExprView>>,
    pub limit_options: Option<LimitOptions>,
}

impl View for Aggregation {
    type V = AggregationView;

    open spec fn view(&self) -> AggregationView {
        AggregationView {
            mode: self.mode,
            group_by: projection_views(self.group_by@),
            grouping_sets: *self.grouping_sets,
            aggr_exprs: aggregate_views(self.aggr_exprs@),
            filters: filter_views(self.filters@),
            limit_options: self.limit_options,
        }
    }
}

/// An aggregate operator, without its input: what it computes, the columns of its result, how the
/// order of its input fits the groups, and whether it feeds a filter that its input applies.
#[derive(Debug)]
pub struct Aggregate {
    pub aggregation: Aggregation,
    pub schema: Schema,
    pub input_order_mode: InputOrderMode,
    pub produces_dynamic_filter: bool,
}

/// The view of an [`Aggregate`].
pub struct AggregateView {
    pub aggregation: AggregationView,
    pub schema: Seq<FieldView>,
    pub input_order_mode: InputOrderModeView,
    pub produces_dynamic_filter: bool,
}

impl View for Aggregate {
    type V = AggregateView;

    open spec fn view(&self) -> AggregateView {
        AggregateView {
            aggregation: self.aggregation@,
            schema: self.schema@,
            input_order_mode: self.input_order_mode@,
            produces_dynamic_filter: self.produces_dynamic_filter,
        }
    }
}

} // verus!
