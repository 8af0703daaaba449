use crate::expr::{ColumnView, ExprView};
use crate::join::{join_fields, ColumnIndex, JoinSide, JoinType, NestedLoopJoinView};
use crate::parts::{lemma_column_read, lemma_read_column};
use crate::plan::{exprs_fit, PlanView};
use vstd::prelude::*;

verus! {

impl PlanView {
    /// The plans that an operator reads from, from left to right.
    pub open spec fn inputs(self) -> Seq<PlanView> {
        match self {
            PlanView::NestedLoopJoin { left, right, .. } => seq![*left, *right],
            PlanView::Projection { input, .. } => seq![*input],
            PlanView::Aggregate { input, .. } => seq![*input],
            PlanView::Cooperative { input, .. } => seq![*input],
            PlanView::Repartition { input, .. } => seq![*input],
            PlanView::Other { children, .. } => children,
        }
    }

    /// The node that a path leads to. A path says, from the top down, which input to go to.
    pub open spec fn at(self, path: Seq<int>) -> Option<PlanView>
        decreases path.len(),
    {
        if path.len() == 0 {
            Some(self)
        } else if 0 <= path[0] < self.inputs().len() {
            self.inputs()[path[0]].at(path.drop_first())
        } else {
            None
        }
    }

    /// Whether something holds of every node of the plan, at any depth.
    pub open spec fn everywhere(self, holds: spec_fn(PlanView) -> bool) -> bool {
        forall|path: Seq<int>| (#[trigger] self.at(path)) is Some ==> holds(self.at(path)->0)
    }

    /// Whether two nodes are the same but for what they read from.
    pub open spec fn same_node(self, other: PlanView) -> bool {
        match (self, other) {
            (
                PlanView::NestedLoopJoin { operator, join, .. },
                PlanView::NestedLoopJoin { operator: new_operator, join: new_join, .. },
            ) => operator == new_operator && join == new_join,
            (
                PlanView::Projection { operator, exprs, .. },
                PlanView::Projection { operator: new_operator, exprs: new_exprs, .. },
            ) => operator == new_operator && exprs == new_exprs,
            (
                PlanView::Aggregate { operator, aggregate, .. },
                PlanView::Aggregate { operator: new_operator, aggregate: new_aggregate, .. },
            ) => operator == new_operator && aggregate == new_aggregate,
            (
                PlanView::Cooperative { operator, .. },
                PlanView::Cooperative { operator: new_operator, .. },
            ) => operator == new_operator,
            (
                PlanView::Repartition { operator, partitioning, .. },
                PlanView::Repartition {
                    operator: new_operator,
                    partitioning: new_partitioning,
                    ..
                },
            ) => operator == new_operator && partitioning == new_partitioning,
            (
                PlanView::Other { operator, schema, children },
                PlanView::Other {
                    operator: new_operator,
                    schema: new_schema,
                    children: new_children,
                },
            ) => operator == new_operator && schema == new_schema && children.len()
                == new_children.len(),
            _ => false,
        }
    }
}

/// Something holds everywhere in a plan if and only if it holds of the top and everywhere in each
/// input.
pub proof fn lemma_everywhere(plan: PlanView, holds: spec_fn(PlanView) -> bool)
    ensures
        plan.everywhere(holds) <==> holds(plan) && forall|i: int|
            0 <= i < plan.inputs().len() ==> (#[trigger] plan.inputs()[i]).everywhere(holds),
{
    if plan.everywhere(holds) {
        assert(plan.at(Seq::<int>::empty()) == Some(plan));
        assert forall|i: int| 0 <= i < plan.inputs().len() implies (
        #[trigger] plan.inputs()[i]).everywhere(holds) by {
            let input = plan.inputs()[i];
            assert forall|path: Seq<int>| (#[trigger] input.at(path)) is Some implies holds(
                input.at(path)->0,
            ) by {
                let longer = seq![i] + path;
                assert(longer.drop_first() =~= path);
                assert(plan.at(longer) == plan.inputs()[i].at(path));
            }
        }
    }
    if holds(plan) && forall|i: int|
        0 <= i < plan.inputs().len() ==> (#[trigger] plan.inputs()[i]).everywhere(holds) {
        assert forall|path: Seq<int>| (#[trigger] plan.at(path)) is Some implies holds(
            plan.at(path)->0,
        ) by {
            if path.len() > 0 {
                let input = plan.inputs()[path[0]];
                assert(input.everywhere(holds));
                assert(input.at(path.drop_first()) is Some);
            }
        }
    }
}

/// How many columns a join returns, before any are left out.
pub open spec fn join_width(join_type: JoinType, left: nat, right: nat) -> nat {
    match join_type {
        JoinType::Inner | JoinType::Left | JoinType::Right | JoinType::Full => left + right,
        JoinType::LeftSemi | JoinType::LeftAnti => left,
        JoinType::RightSemi | JoinType::RightAnti => right,
        JoinType::LeftMark => left + 1,
        JoinType::RightMark => right + 1,
    }
}

/// Whether every column that stands in the expression is one of the first `width` columns.
pub open spec fn has_columns_below(expr: ExprView, width: nat) -> bool {
    forall|column: ColumnView| #[trigger] expr.has_column(column) ==> 0 <= column.index < width
}

/// Whether a node refers only to columns that its inputs have.
pub open spec fn refers_to_inputs(node: PlanView) -> bool {
    match node {
        PlanView::NestedLoopJoin { join, left, right, .. } => {
            let (left_width, right_width) = (left.fields().len(), right.fields().len());
            &&& join.filter is Some ==> {
                let filter = join.filter->0;
                &&& has_columns_below(filter.expression, filter.column_indices.len())
                &&& forall|i: int|
                    0 <= i < filter.column_indices.len() ==> {
                        let origin: ColumnIndex = #[trigger] filter.column_indices[i];
                        origin.index < (if origin.side == JoinSide::Left {
                            left_width
                        } else {
                            right_width
                        })
                    }
            }
            &&& join.projection is Some ==> forall|i: int|
                0 <= i < join.projection->0.len() ==> #[trigger] join.projection->0[i]
                    < join_width(join.join_type, left_width, right_width)
        },
        PlanView::Projection { exprs, input, .. } => forall|i: int|
            0 <= i < exprs.len() ==> has_columns_below(
                (#[trigger] exprs[i]).expr,
                input.fields().len(),
            ),
        _ => true,
    }
}

proof fn lemma_within_is_below(expr: ExprView, width: nat)
    ensures
        expr.within(width as int) <==> has_columns_below(expr, width),
{
    if expr.within(width as int) {
        assert forall|column: ColumnView| #[trigger] expr.has_column(column) implies 0
            <= column.index < width by {
            lemma_column_read(expr, column);
        }
    }
    if has_columns_below(expr, width) {
        assert forall|k: int| #[trigger] expr.reads(k) implies 0 <= k < width by {
            let column = lemma_read_column(expr, k);
            assert(expr.has_column(column));
        }
    }
}

proof fn lemma_join_fits(join: NestedLoopJoinView, node: PlanView)
    requires
        node is NestedLoopJoin,
        node->join == join,
    ensures
        join.fits(node->left.fields(), node->right.fields()) <==> refers_to_inputs(node),
{
    let left = node->left.fields();
    let right = node->right.fields();
    assert(join_fields(join.join_type, left, right).len() == join_width(
        join.join_type,
        left.len(),
        right.len(),
    ));
    if join.filter is Some {
        let filter = join.filter->0;
        lemma_within_is_below(filter.expression, filter.column_indices.len());
        assert forall|i: int| 0 <= i < filter.column_indices.len() implies (
        #[trigger] filter.column_indices[i]).exists_in(left.len() as int, right.len() as int) == (
        filter.column_indices[i].index < (if filter.column_indices[i].side == JoinSide::Left {
            left.len()
        } else {
            right.len()
        })) by {}
    }
}

/// A plan is well formed if and only if every node, at any depth, refers only to columns that its
/// inputs have.
pub proof fn law_well_formed(plan: PlanView)
    ensures
        plan.well_formed() <==> plan.everywhere(|node: PlanView| refers_to_inputs(node)),
    decreases plan,
{
    let holds = |node: PlanView| refers_to_inputs(node);
    lemma_everywhere(plan, holds);
    match plan {
        PlanView::NestedLoopJoin { operator, join, left, right } => {
            law_well_formed(*left);
            law_well_formed(*right);
            lemma_join_fits(join, plan);
            assert(plan.inputs()[0] == *left);
            assert(plan.inputs()[1] == *right);
        },
        PlanView::Projection { operator, exprs, input } => {
            law_well_formed(*input);
            assert(plan.inputs()[0] == *input);
            let width = input.fields().len();
            assert forall|i: int| 0 <= i < exprs.len() implies (
            #[trigger] exprs[i]).expr.within(width as int) == has_columns_below(
                exprs[i].expr,
                width,
            ) by {
                lemma_within_is_below(exprs[i].expr, width);
            }
            assert(exprs_fit(exprs, width as int) == refers_to_inputs(plan));
        },
        PlanView::Aggregate { operator, aggregate, input } => {
            law_well_formed(*input);
            assert(plan.inputs()[0] == *input);
        },
        PlanView::Cooperative { operator, input } => {
            law_well_formed(*input);
            assert(plan.inputs()[0] == *input);
        },
        PlanView::Repartition { operator, partitioning, input } => {
            law_well_formed(*input);
            assert(plan.inputs()[0] == *input);
        },
        PlanView::Other { operator, schema, children } => {
            assert forall|i: int| 0 <= i < children.len() implies (
            #[trigger] children[i]).well_formed() == children[i].everywhere(holds) by {
                law_well_formed(children[i]);
            }
        },
    }
}

} // verus!
