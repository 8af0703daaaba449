use crate::aliases::id_after;
use crate::expr::ColumnView;
use crate::join::{join_fields, padded, JoinFilterView, JoinSide, NestedLoopJoinView};
use crate::join_filter::{filter_fits, lemma_referenced, renumbered, side_projection};
use crate::join_laws::{
    law_minimized_value, law_moved_columns_push_alike, law_nothing_left_to_push,
    law_side_columns_stay, law_side_filter_value,
};
use crate::join_push_down::{
    combined, fit_usize, kept_positions, lemma_kept_columns, lemma_push_down_joins,
    lemma_push_down_joins_all, lemma_push_side, push_count, push_down_join, push_down_joins,
    push_down_joins_all, push_left, push_right, push_side, supported, PlanError,
};
use crate::plan::PlanView;
use crate::rewriter::pushed;
use crate::schema::FieldView;
use crate::semantics::{lemma_row_widths, Semantics};
use vstd::prelude::*;

verus! {

/// Mark joins, and joins without a filter, stay as they are.
pub proof fn law_unsupported_joins_stay(
    join: NestedLoopJoinView,
    left: PlanView,
    right: PlanView,
    id: usize,
)
    requires
        join.join_type is LeftMark || join.join_type is RightMark || join.filter is None,
    ensures
        push_down_join(join, left, right, id) == Ok::<Option<PlanView>, PlanError>(None),
{
}

/// The push-down keeps the columns of a join, with their names, types and nullability. It fails
/// only if the columns of the inputs and the pushed expressions are together more than a `usize`
/// can count.
pub proof fn law_join_columns_stay(
    join: NestedLoopJoinView,
    left: PlanView,
    right: PlanView,
    id: usize,
)
    requires
        left.well_formed(),
        right.well_formed(),
        join.fits(left.fields(), right.fields()),
    ensures
        match push_down_join(join, left, right, id) {
            Ok(Some(plan)) => plan.fields() == join.fields(left.fields(), right.fields()),
            Ok(None) => true,
            Err(error) => {
                &&& error is TooManyColumns
                &&& left.fields().len() + right.fields().len() + push_count(join, left, right, id)
                    > usize::MAX
            },
        },
{
    let filter = join.filter->0;
    let pushed_left = push_left(filter, left, right, id);
    let pushed_right = push_right(filter, left, right, id);
    let new_left = pushed_left.plan.fields();
    let new_right = pushed_right.plan.fields();
    let positions = kept_positions(
        join.join_type,
        join.projection,
        left.fields().len() as int,
        new_left.len() as int,
        right.fields().len() as int,
    );
    if supported(join) && new_left.len() <= usize::MAX && new_right.len() <= usize::MAX
        && fit_usize(positions) {
        lemma_push_side(JoinSide::Left, left, right.fields(), filter, id);
        lemma_push_side(
            JoinSide::Right,
            right,
            new_left,
            pushed_left.filter,
            id_after(id, pushed_left.count),
        );
        let pad_left = join.join_type is Right || join.join_type is Full;
        let pad_right = join.join_type is Left || join.join_type is Full;
        let left_part = if pad_left {
            padded(left.fields())
        } else {
            left.fields()
        };
        let right_part = if pad_right {
            padded(right.fields())
        } else {
            right.fields()
        };
        let new_left_part = if pad_left {
            padded(new_left)
        } else {
            new_left
        };
        let new_right_part = if pad_right {
            padded(new_right)
        } else {
            new_right
        };
        lemma_padded_prefix(left.fields(), new_left);
        lemma_padded_prefix(right.fields(), new_right);
        assert(join_fields(join.join_type, left.fields(), right.fields()) == combined(
            join.join_type,
            left_part,
            right_part,
        ));
        assert(join_fields(join.join_type, new_left, new_right) == combined(
            join.join_type,
            new_left_part,
            new_right_part,
        ));
        lemma_kept_columns(
            join.join_type,
            join.projection,
            left_part,
            right_part,
            new_left_part,
            new_right_part,
        );
    }
}

proof fn lemma_padded_prefix(fields: Seq<FieldView>, new_fields: Seq<FieldView>)
    requires
        fields.len() <= new_fields.len(),
        new_fields.take(fields.len() as int) == fields,
    ensures
        padded(new_fields).take(fields.len() as int) == padded(fields),
{
    assert forall|i: int| 0 <= i < fields.len() implies #[trigger] new_fields[i] == fields[i] by {
        assert(new_fields.take(fields.len() as int)[i] == fields[i]);
    }
    assert(padded(new_fields).take(fields.len() as int) =~= padded(fields));
}

/// A side keeps its rows, with further columns behind the old ones, and the filter keeps its value
/// for every row of the side and every row of the other side.
proof fn lemma_push_side_rows<V>(
    semantics: Semantics<V>,
    side: JoinSide,
    plan: PlanView,
    other: Seq<FieldView>,
    filter: JoinFilterView,
    id: usize,
)
    requires
        plan.well_formed(),
        filter_fits(filter, side, plan.fields().len() as int, other.len() as int),
        push_side(side, plan, other, filter, id).plan.fields().len() <= usize::MAX,
    ensures
        ({
            let new = push_side(side, plan, other, filter, id);
            let rows = semantics.rows(plan);
            let new_rows = semantics.rows(new.plan);
            &&& new_rows.len() == rows.len()
            &&& forall|i: int|
                0 <= i < rows.len() ==> (#[trigger] new_rows[i]).len() == new.plan.fields().len()
                    && new_rows[i].take(plan.fields().len() as int) == rows[i]
            &&& forall|i: int, other_row: Seq<V>, at: Seq<int>|
                0 <= i < rows.len() ==> #[trigger] semantics.side_value(
                    new.filter,
                    side,
                    new_rows[i],
                    other_row,
                    at,
                ) == semantics.side_value(filter, side, rows[i], other_row, at)
        }),
{
    let new = push_side(side, plan, other, filter, id);
    let own = plan.fields();
    let rows = semantics.rows(plan);
    let new_rows = semantics.rows(new.plan);
    lemma_push_side(side, plan, other, filter, id);
    lemma_row_widths(semantics, plan);
    lemma_row_widths(semantics, new.plan);
    if new.count == 0 {
        assert forall|i: int| 0 <= i < rows.len() implies (#[trigger] new_rows[i]).take(
            own.len() as int,
        ) == rows[i] by {
            assert(rows[i].take(own.len() as int) =~= rows[i]);
        }
    } else {
        let projection = side_projection(side, own, filter, id);
        assert(new_rows == semantics.project_rows(projection, rows));
        assert forall|i: int| 0 <= i < rows.len() implies (#[trigger] new_rows[i]).take(
            own.len() as int,
        ) == rows[i] by {
            law_side_columns_stay(semantics, side, own, filter, id, rows[i], seq![i]);
        }
        assert forall|i: int, other_row: Seq<V>, at: Seq<int>|
            0 <= i < rows.len() implies #[trigger] semantics.side_value(
            new.filter,
            side,
            new_rows[i],
            other_row,
            at,
        ) == semantics.side_value(filter, side, rows[i], other_row, at) by {
            law_side_filter_value(
                semantics,
                side,
                own,
                other,
                filter,
                id,
                rows[i],
                other_row,
                at,
                seq![i],
            );
        }
    }
}

/// After the push-down the filter of a join lets the same pairs of rows pass as before.
pub proof fn law_join_filter_value<V>(
    semantics: Semantics<V>,
    join: NestedLoopJoinView,
    left: PlanView,
    right: PlanView,
    id: usize,
    i: int,
    j: int,
    at: Seq<int>,
)
    requires
        left.well_formed(),
        right.well_formed(),
        join.fits(left.fields(), right.fields()),
        0 <= i < semantics.rows(left).len(),
        0 <= j < semantics.rows(right).len(),
    ensures
        push_down_join(join, left, right, id) matches Ok(Some(plan)) ==> (plan matches
            PlanView::NestedLoopJoin { join: new_join, left: new_left, right: new_right, .. }
            && new_join.filter is Some && semantics.rows(*new_left).len() == semantics.rows(
            left,
        ).len() && semantics.rows(*new_right).len() == semantics.rows(right).len()
            && semantics.filter_value(
            new_join.filter->0,
            semantics.rows(*new_left)[i],
            semantics.rows(*new_right)[j],
            at,
        ) == semantics.filter_value(
            join.filter->0,
            semantics.rows(left)[i],
            semantics.rows(right)[j],
            at,
        )),
{
    if let Ok(Some(plan)) = push_down_join(join, left, right, id) {
        let filter = join.filter->0;
        let pushed_left = push_left(filter, left, right, id);
        let pushed_right = push_right(filter, left, right, id);
        let new_left = pushed_left.plan;
        let new_right = pushed_right.plan;
        let left_row = semantics.rows(left)[i];
        let right_row = semantics.rows(right)[j];
        let new_left_row = semantics.rows(new_left)[i];
        let new_right_row = semantics.rows(new_right)[j];
        lemma_push_side(JoinSide::Left, left, right.fields(), filter, id);
        lemma_push_side(
            JoinSide::Right,
            right,
            new_left.fields(),
            pushed_left.filter,
            id_after(id, pushed_left.count),
        );
        lemma_push_side_rows(semantics, JoinSide::Left, left, right.fields(), filter, id);
        lemma_push_side_rows(
            semantics,
            JoinSide::Right,
            right,
            new_left.fields(),
            pushed_left.filter,
            id_after(id, pushed_left.count),
        );
        assert(semantics.side_value(
            pushed_left.filter,
            JoinSide::Left,
            new_left_row,
            right_row,
            at,
        ) == semantics.side_value(filter, JoinSide::Left, left_row, right_row, at));
        assert(semantics.side_value(
            pushed_right.filter,
            JoinSide::Right,
            new_right_row,
            new_left_row,
            at,
        ) == semantics.side_value(
            pushed_left.filter,
            JoinSide::Right,
            right_row,
            new_left_row,
            at,
        ));
        law_minimized_value(
            semantics,
            pushed_right.filter.expression,
            pushed_right.filter.column_indices,
            new_left.fields(),
            new_right.fields(),
            new_left_row,
            new_right_row,
            at,
        );
    }
}

/// After the push-down a join returns the same rows as before, in the same order.
pub proof fn law_join_rows_stay<V>(
    semantics: Semantics<V>,
    join: NestedLoopJoinView,
    left: PlanView,
    right: PlanView,
    id: usize,
)
    requires
        left.well_formed(),
        right.well_formed(),
        join.fits(left.fields(), right.fields()),
    ensures
        push_down_join(join, left, right, id) matches Ok(Some(plan)) ==> semantics.rows(plan)
            == semantics.join_rows(
            join,
            semantics.rows(left),
            semantics.rows(right),
            left.fields().len(),
            right.fields().len(),
        ),
{
    if let Ok(Some(plan)) = push_down_join(join, left, right, id) {
        let filter = join.filter->0;
        let pushed_left = push_left(filter, left, right, id);
        let pushed_right = push_right(filter, left, right, id);
        let new_left = pushed_left.plan;
        let new_right = pushed_right.plan;
        let new_join = plan->join;
        let left_rows = semantics.rows(left);
        let right_rows = semantics.rows(right);
        let new_left_rows = semantics.rows(new_left);
        let new_right_rows = semantics.rows(new_right);
        let left_width = left.fields().len();
        let right_width = right.fields().len();
        let new_left_width = new_left.fields().len();
        let new_right_width = new_right.fields().len();
        lemma_push_side(JoinSide::Left, left, right.fields(), filter, id);
        lemma_push_side(
            JoinSide::Right,
            right,
            new_left.fields(),
            pushed_left.filter,
            id_after(id, pushed_left.count),
        );
        lemma_push_side_rows(semantics, JoinSide::Left, left, right.fields(), filter, id);
        lemma_push_side_rows(
            semantics,
            JoinSide::Right,
            right,
            new_left.fields(),
            pushed_left.filter,
            id_after(id, pushed_left.count),
        );
        lemma_row_widths(semantics, left);
        lemma_row_widths(semantics, right);
        let matches = semantics.matches(join.filter, left_rows, right_rows);
        let new_matches = semantics.matches(new_join.filter, new_left_rows, new_right_rows);
        assert forall|i: int, j: int| #[trigger] new_matches(i, j) == matches(i, j) by {
            if 0 <= i < left_rows.len() && 0 <= j < right_rows.len() {
                law_join_filter_value(semantics, join, left, right, id, i, j, seq![i, j]);
            }
        }
        assert(new_matches =~= matches);
        let pairs = (semantics.pairs)(
            join.join_type,
            left_rows.len(),
            right_rows.len(),
            matches,
        );
        assert forall|pair: (Option<int>, Option<int>)| #[trigger]
            semantics.join_row(
                new_join,
                new_left_rows,
                new_right_rows,
                new_left_width,
                new_right_width,
                pair,
            ) == semantics.join_row(
                join,
                left_rows,
                right_rows,
                left_width,
                right_width,
                pair,
            ) by {
            let left_row = semantics.row_or_nulls(left_rows, pair.0, left_width);
            let right_row = semantics.row_or_nulls(right_rows, pair.1, right_width);
            let new_left_row = semantics.row_or_nulls(new_left_rows, pair.0, new_left_width);
            let new_right_row = semantics.row_or_nulls(new_right_rows, pair.1, new_right_width);
            assert(new_left_row.take(left_width as int) =~= left_row);
            assert(new_right_row.take(right_width as int) =~= right_row);
            lemma_kept_columns(
                join.join_type,
                join.projection,
                left_row,
                right_row,
                new_left_row,
                new_right_row,
            );
        }
        assert(semantics.rows(plan) =~= semantics.join_rows(
            join,
            left_rows,
            right_rows,
            left_width,
            right_width,
        ));
    }
}

/// Pushing down the filters of all joins of a plan keeps the columns of the plan and its rows, in
/// the same order, and fails only on joins with too many columns.
#[verifier::rlimit(40)]
pub proof fn law_plan_stays<V>(semantics: Semantics<V>, plan: PlanView, id: usize)
    requires
        plan.well_formed(),
    ensures
        match push_down_joins(plan, id).0 {
            Ok(new) => new.fields() == plan.fields() && semantics.rows(new) == semantics.rows(plan),
            Err(error) => error is TooManyColumns,
        },
    decreases plan, 0nat,
{
    match plan {
        PlanView::NestedLoopJoin { operator, join, left, right } => {
            let (new_left, left_id) = push_down_joins(*left, id);
            let (new_right, right_id) = push_down_joins(*right, left_id);
            law_plan_stays(semantics, *left, id);
            law_plan_stays(semantics, *right, left_id);
            if new_left is Ok && new_right is Ok {
                lemma_push_down_joins(*left, id);
                lemma_push_down_joins(*right, left_id);
                law_join_columns_stay(join, new_left->Ok_0, new_right->Ok_0, right_id);
                law_join_rows_stay(semantics, join, new_left->Ok_0, new_right->Ok_0, right_id);
            }
        },
        PlanView::Projection { operator, exprs, input } => {
            law_plan_stays(semantics, *input, id);
        },
        PlanView::Aggregate { operator, aggregate, input } => {
            law_plan_stays(semantics, *input, id);
        },
        PlanView::Cooperative { operator, input } => {
            law_plan_stays(semantics, *input, id);
        },
        PlanView::Repartition { operator, partitioning, input } => {
            law_plan_stays(semantics, *input, id);
        },
        PlanView::Other { operator, schema, children } => {
            lemma_plans_stay(semantics, children, id);
        },
    }
}

proof fn lemma_plans_stay<V>(semantics: Semantics<V>, plans: Seq<PlanView>, id: usize)
    requires
        forall|i: int| 0 <= i < plans.len() ==> (#[trigger] plans[i]).well_formed(),
    ensures
        match push_down_joins_all(plans, id).0 {
            Ok(new) => semantics.rows_all(new) == semantics.rows_all(plans),
            Err(error) => error is TooManyColumns,
        },
    decreases plans, plans.len(),
{
    if plans.len() > 0 {
        let before = plans.drop_last();
        assert forall|i: int| 0 <= i < before.len() implies (
        #[trigger] before[i]).well_formed() by {
            assert(plans[i].well_formed());
        }
        assert(plans[plans.len() - 1].well_formed());
        lemma_plans_stay(semantics, before, id);
        let (new_before, last_id) = push_down_joins_all(before, id);
        law_plan_stays(semantics, plans.last(), last_id);
        if let Ok(new) = push_down_joins_all(plans, id).0 {
            lemma_push_down_joins_all(before, id);
            let rows = semantics.rows_all(plans);
            let new_rows = semantics.rows_all(new);
            assert forall|i: int| 0 <= i < plans.len() implies new_rows[i] == rows[i] by {
                if i < before.len() {
                    assert(new[i] == new_before->Ok_0[i]);
                    assert(semantics.rows_all(new_before->Ok_0)[i] == semantics.rows_all(
                        before,
                    )[i]);
                }
            }
        }
    }
    if let Ok(new) = push_down_joins_all(plans, id).0 {
        lemma_push_down_joins_all(plans, id);
        assert(semantics.rows_all(new) =~= semantics.rows_all(plans));
    }
}

/// Nothing can be pushed down out of a join that comes out of a push-down.
pub proof fn law_join_pushed_once(
    join: NestedLoopJoinView,
    left: PlanView,
    right: PlanView,
    id: usize,
    next_id: usize,
)
    requires
        left.well_formed(),
        right.well_formed(),
        join.fits(left.fields(), right.fields()),
    ensures
        push_down_join(join, left, right, id) matches Ok(Some(plan)) ==> (plan matches
            PlanView::NestedLoopJoin { join: new_join, left: new_left, right: new_right, .. }
            && push_count(new_join, *new_left, *new_right, next_id) == 0),
{
    if let Ok(Some(plan)) = push_down_join(join, left, right, id) {
        let filter = join.filter->0;
        let pushed_left = push_left(filter, left, right, id);
        let pushed_right = push_right(filter, left, right, id);
        let new_left = pushed_left.plan;
        let new_right = pushed_right.plan;
        let middle = pushed_left.filter;
        let middle_id = id_after(id, pushed_left.count);
        let last = pushed_right.filter;
        lemma_push_side(JoinSide::Left, left, right.fields(), filter, id);
        lemma_push_side(JoinSide::Right, right, new_left.fields(), middle, middle_id);
        lemma_side_pushed(JoinSide::Left, left, right.fields(), filter, id, JoinSide::Left);
        lemma_side_pushed(
            JoinSide::Right,
            right,
            new_left.fields(),
            middle,
            middle_id,
            JoinSide::Right,
        );
        lemma_side_pushed(
            JoinSide::Right,
            right,
            new_left.fields(),
            middle,
            middle_id,
            JoinSide::Left,
        );
        let new_filter = plan->join.filter->0;
        let f = renumbered(last.column_indices, last.expression);
        assert forall|column: ColumnView| #[trigger]
            last.expression.reads(column.index) implies 0 <= column.index
            < last.column_indices.len() && 0 <= f(column).index
            < new_filter.column_indices.len() && new_filter.column_indices[f(column).index].side
            == last.column_indices[column.index].side by {
            lemma_referenced(
                last.column_indices,
                last.expression,
                column.index as nat,
                last.column_indices.len(),
            );
        }
        law_moved_columns_push_alike(
            last.expression,
            f,
            last.column_indices,
            new_filter.column_indices,
            JoinSide::Left,
        );
        law_moved_columns_push_alike(
            last.expression,
            f,
            last.column_indices,
            new_filter.column_indices,
            JoinSide::Right,
        );
    }
}

/// Nothing can be pushed down any more into a side after the push-down into it, nor into the other
/// side if nothing could be before.
proof fn lemma_side_pushed(
    side: JoinSide,
    plan: PlanView,
    other: Seq<FieldView>,
    filter: JoinFilterView,
    id: usize,
    target: JoinSide,
)
    requires
        filter_fits(filter, side, plan.fields().len() as int, other.len() as int),
        target == side || pushed(filter.expression, filter.column_indices, target).len() == 0,
    ensures
        ({
            let new = push_side(side, plan, other, filter, id).filter;
            pushed(new.expression, new.column_indices, target).len() == 0
        }),
{
    let new = push_side(side, plan, other, filter, id);
    if new.count > 0 {
        law_nothing_left_to_push(
            filter.expression,
            filter.column_indices,
            new.filter.column_indices,
            side,
            id,
            filter.column_indices.len() as int,
            target,
        );
    }
}

/// Pushing down the filters of all joins of a plan a second time changes nothing.
#[verifier::rlimit(40)]
pub proof fn law_plan_pushed_once(plan: PlanView, id: usize, next_id: usize)
    requires
        plan.well_formed(),
    ensures
        push_down_joins(plan, id).0 matches Ok(new) ==> push_down_joins(new, next_id) == (
            Ok::<PlanView, PlanError>(new),
            next_id,
        ),
    decreases plan, 0nat,
{
    match plan {
        PlanView::NestedLoopJoin { operator, join, left, right } => {
            let (new_left, left_id) = push_down_joins(*left, id);
            let (new_right, right_id) = push_down_joins(*right, left_id);
            law_plan_pushed_once(*left, id, next_id);
            law_plan_pushed_once(*right, left_id, next_id);
            if new_left is Ok && new_right is Ok {
                lemma_push_down_joins(*left, id);
                lemma_push_down_joins(*right, left_id);
                assert(join.fits(new_left->Ok_0.fields(), new_right->Ok_0.fields()));
                lemma_pushed_join_again(
                    operator,
                    join,
                    new_left->Ok_0,
                    new_right->Ok_0,
                    right_id,
                    next_id,
                );
            }
        },
        PlanView::Projection { operator, exprs, input } => {
            law_plan_pushed_once(*input, id, next_id);
        },
        PlanView::Aggregate { operator, aggregate, input } => {
            law_plan_pushed_once(*input, id, next_id);
        },
        PlanView::Cooperative { operator, input } => {
            law_plan_pushed_once(*input, id, next_id);
        },
        PlanView::Repartition { operator, partitioning, input } => {
            law_plan_pushed_once(*input, id, next_id);
        },
        PlanView::Other { operator, schema, children } => {
            lemma_plans_pushed_once(children, id, next_id);
        },
    }
}

/// A join over inputs that are pushed down already, after its own push-down.
proof fn lemma_pushed_join_again(
    operator: Option<u64>,
    join: NestedLoopJoinView,
    left: PlanView,
    right: PlanView,
    id: usize,
    next_id: usize,
)
    requires
        left.well_formed(),
        right.well_formed(),
        join.fits(left.fields(), right.fields()),
        push_down_joins(left, next_id) == (Ok::<PlanView, PlanError>(left), next_id),
        push_down_joins(right, next_id) == (Ok::<PlanView, PlanError>(right), next_id),
    ensures
        match push_down_join(join, left, right, id) {
            Ok(Some(plan)) => push_down_joins(plan, next_id) == (
                Ok::<PlanView, PlanError>(plan),
                next_id,
            ),
            Ok(None) => {
                let plan = PlanView::NestedLoopJoin {
                    operator,
                    join,
                    left: Box::new(left),
                    right: Box::new(right),
                };
                push_down_joins(plan, next_id) == (Ok::<PlanView, PlanError>(plan), next_id)
            },
            Err(_) => true,
        },
{
    law_join_pushed_once(join, left, right, id, next_id);
    match push_down_join(join, left, right, id) {
        Ok(Some(plan)) => {
            let filter = join.filter->0;
            let pushed_left = push_left(filter, left, right, id);
            let pushed_right = push_right(filter, left, right, id);
            assert(push_down_joins(pushed_left.plan, next_id) == (
                Ok::<PlanView, PlanError>(pushed_left.plan),
                next_id,
            ));
            assert(push_down_joins(pushed_right.plan, next_id) == (
                Ok::<PlanView, PlanError>(pushed_right.plan),
                next_id,
            ));
            assert(push_down_join(
                plan->join,
                pushed_left.plan,
                pushed_right.plan,
                next_id,
            ) == Ok::<Option<PlanView>, PlanError>(None));
        },
        Ok(None) => {
            assert(push_count(join, left, right, next_id) == 0);
        },
        Err(_) => {},
    }
}

proof fn lemma_plans_pushed_once(plans: Seq<PlanView>, id: usize, next_id: usize)
    requires
        forall|i: int| 0 <= i < plans.len() ==> (#[trigger] plans[i]).well_formed(),
    ensures
        push_down_joins_all(plans, id).0 matches Ok(new) ==> push_down_joins_all(new, next_id) == (
            Ok::<Seq<PlanView>, PlanError>(new),
            next_id,
        ),
    decreases plans, plans.len(),
{
    if plans.len() > 0 {
        let rest = plans.drop_last();
        assert forall|i: int| 0 <= i < rest.len() implies (#[trigger] rest[i]).well_formed() by {
            assert(plans[i].well_formed());
        }
        assert(plans[plans.len() - 1].well_formed());
        lemma_plans_pushed_once(rest, id, next_id);
        let (new_rest, last_id) = push_down_joins_all(rest, id);
        law_plan_pushed_once(plans.last(), last_id, next_id);
        if let Ok(new) = push_down_joins_all(plans, id).0 {
            assert(new.drop_last() =~= new_rest->Ok_0);
            assert(new =~= new.drop_last().push(new.last()));
        }
    }
}

} // verus!
