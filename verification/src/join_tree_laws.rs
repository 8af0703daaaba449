use crate::aliases::{alias_name, id_after, lemma_id_after_add};
use crate::expr::{ColumnView, Expr, ExprView};
use crate::join::{ColumnIndex, JoinFilterView, JoinSide, NestedLoopJoinView};
use crate::join_filter::{
    filter_fits, lemma_minimized_fits, lemma_referenced, minimized, referenced, renumbered,
    side_projection,
};
use crate::join_laws::{
    law_minimized_is_minimal, law_nothing_left_to_push, law_replaced_dependencies, makes_room,
};
use crate::join_push_down::{
    lemma_push_down_joins, lemma_push_side, push_count, push_down_join, push_down_joins,
    push_down_joins_all, push_left, push_right, push_side, supported,
};
use crate::nodes::lemma_everywhere;
use crate::parts::{
    computable_on, has_computable, law_pushed_if_computable, lemma_arg_part, lemma_column_read,
    lemma_read_column,
};
use crate::plan::PlanView;
use crate::plan_laws::{law_join_columns_stay, law_join_pushed_once};
use crate::projection::ProjectionExprView;
use crate::rewriter::{
    depends_on, lemma_arg_reads, lemma_independent, lemma_mapped_same, lemma_nothing_replaced,
    lemma_replaced_all_len, lemma_replaced_reads, pushable, pushed, pushed_all, pushed_projections,
    replaced, replaced_all, side_column, JoinFilterRewriter, Transformed, JOIN_ALIAS_PREFIX,
};
use crate::schema::FieldView;
use std::sync::Arc;
use vstd::prelude::*;

verus! {

/// A column that stands in an expression after the replacement stood in it before, or took the
/// place of a pushed subexpression, and then has its alias for a name.
proof fn lemma_replaced_columns(
    expr: ExprView,
    column_indices: Seq<ColumnIndex>,
    side: JoinSide,
    id: usize,
    first: int,
    column: ColumnView,
)
    requires
        replaced(expr, column_indices, side, id, first).has_column(column),
    ensures
        expr.has_column(column) || {
            &&& first <= column.index < first + pushed(expr, column_indices, side).len()
            &&& column.name == alias_name(
                JOIN_ALIAS_PREFIX@,
                id_after(id, (column.index - first) as nat),
            )
        },
    decreases expr, 0nat,
{
    if pushable(expr, column_indices, side) {
        assert(id_after(id, 0) == id);
    } else if let ExprView::Call { function, args } = expr {
        let new_args = replaced_all(args, column_indices, side, id, first);
        let part = ExprView::Column(column);
        let i = choose|i: int| 0 <= i < new_args.len() && (#[trigger] new_args[i]).has_part(part);
        lemma_replaced_all_columns(args, column_indices, side, id, first, i, column);
        if args[i].has_column(column) {
            lemma_arg_part(expr, i, part);
        }
    }
}

proof fn lemma_replaced_all_columns(
    exprs: Seq<ExprView>,
    column_indices: Seq<ColumnIndex>,
    side: JoinSide,
    id: usize,
    first: int,
    i: int,
    column: ColumnView,
)
    requires
        0 <= i < replaced_all(exprs, column_indices, side, id, first).len(),
        replaced_all(exprs, column_indices, side, id, first)[i].has_column(column),
    ensures
        replaced_all(exprs, column_indices, side, id, first).len() == exprs.len(),
        exprs[i].has_column(column) || {
            &&& first <= column.index < first + pushed_all(exprs, column_indices, side).len()
            &&& column.name == alias_name(
                JOIN_ALIAS_PREFIX@,
                id_after(id, (column.index - first) as nat),
            )
        },
    decreases exprs, exprs.len(),
{
    lemma_replaced_all_len(exprs, column_indices, side, id, first);
    lemma_replaced_all_len(exprs.drop_last(), column_indices, side, id, first);
    let before = pushed_all(exprs.drop_last(), column_indices, side).len();
    if i < exprs.len() - 1 {
        lemma_replaced_all_columns(
            exprs.drop_last(),
            column_indices,
            side,
            id,
            first,
            i,
            column,
        );
    } else {
        lemma_replaced_columns(
            exprs.last(),
            column_indices,
            side,
            id_after(id, before),
            first + before,
            column,
        );
        if !exprs[i].has_column(column) {
            lemma_id_after_add(id, before, (column.index - first - before) as nat);
        }
    }
}

/// Each column that took the place of a pushed subexpression is referred to, and so are the columns
/// of the other side that were referred to before.
proof fn lemma_replaced_refers(
    expr: ExprView,
    column_indices: Seq<ColumnIndex>,
    side: JoinSide,
    id: usize,
    first: int,
)
    ensures
        forall|j: int|
            0 <= j < pushed(expr, column_indices, side).len() ==> #[trigger] replaced(
                expr,
                column_indices,
                side,
                id,
                first,
            ).reads(first + j),
        forall|k: int| #[trigger]
            expr.reads(k) && 0 <= k < column_indices.len() && column_indices[k].side != side
                ==> replaced(expr, column_indices, side, id, first).reads(k),
    decreases expr, 0nat,
{
    let new = replaced(expr, column_indices, side, id, first);
    if pushable(expr, column_indices, side) {
        assert forall|k: int| #[trigger]
            expr.reads(k) && 0 <= k < column_indices.len() && column_indices[k].side
                != side implies new.reads(k) by {
            assert(depends_on(expr, column_indices, side.opposite()));
        }
    } else if let ExprView::Call { function, args } = expr {
        let new_args = replaced_all(args, column_indices, side, id, first);
        lemma_replaced_all_refers(args, column_indices, side, id, first);
        lemma_replaced_all_len(args, column_indices, side, id, first);
        assert forall|j: int| 0 <= j < pushed(
            expr,
            column_indices,
            side,
        ).len() implies #[trigger] new.reads(first + j) by {
            let i = choose|i: int|
                0 <= i < new_args.len() && (#[trigger] new_args[i]).reads(first + j);
            lemma_arg_reads(new, i, first + j);
        }
        assert forall|k: int| #[trigger]
            expr.reads(k) && 0 <= k < column_indices.len() && column_indices[k].side
                != side implies new.reads(k) by {
            let i = choose|i: int| 0 <= i < args.len() && (#[trigger] args[i]).reads(k);
            assert(new_args[i].reads(k));
            lemma_arg_reads(new, i, k);
        }
    }
}

proof fn lemma_replaced_all_refers(
    exprs: Seq<ExprView>,
    column_indices: Seq<ColumnIndex>,
    side: JoinSide,
    id: usize,
    first: int,
)
    ensures
        ({
            let new = replaced_all(exprs, column_indices, side, id, first);
            &&& new.len() == exprs.len()
            &&& forall|j: int|
                #![trigger first + j]
                0 <= j < pushed_all(exprs, column_indices, side).len() ==> exists|i: int|
                    0 <= i < new.len() && (#[trigger] new[i]).reads(first + j)
            &&& forall|i: int, k: int|
                0 <= i < exprs.len() && #[trigger] exprs[i].reads(k) && 0 <= k
                    < column_indices.len() && column_indices[k].side != side ==> new[i].reads(k)
        }),
    decreases exprs, exprs.len(),
{
    lemma_replaced_all_len(exprs, column_indices, side, id, first);
    if exprs.len() > 0 {
        let rest = exprs.drop_last();
        let before = pushed_all(rest, column_indices, side).len();
        let new = replaced_all(exprs, column_indices, side, id, first);
        let new_rest = replaced_all(rest, column_indices, side, id, first);
        lemma_replaced_all_len(rest, column_indices, side, id, first);
        lemma_replaced_all_refers(rest, column_indices, side, id, first);
        lemma_replaced_refers(
            exprs.last(),
            column_indices,
            side,
            id_after(id, before),
            first + before,
        );
        assert forall|j: int|
            #![trigger first + j]
            0 <= j < pushed_all(exprs, column_indices, side).len() implies exists|i: int|
            0 <= i < new.len() && (#[trigger] new[i]).reads(first + j) by {
            if j < before {
                let i = choose|i: int|
                    0 <= i < new_rest.len() && (#[trigger] new_rest[i]).reads(first + j);
                assert(new[i].reads(first + j));
            } else {
                assert(new[exprs.len() - 1].reads((first + before) + (j - before)));
                assert(new[exprs.len() - 1].reads(first + j));
            }
        }
        assert forall|i: int, k: int|
            0 <= i < exprs.len() && #[trigger] exprs[i].reads(k) && 0 <= k < column_indices.len()
                && column_indices[k].side != side implies new[i].reads(k) by {
            if i < rest.len() {
                assert(rest[i].reads(k));
                assert(new[i] == new_rest[i]);
            } else {
                assert(exprs.last().reads(k));
            }
        }
    }
}

/// What is pushed down into one side does not change what is pushed down into the other.
pub proof fn law_sides_do_not_interfere(
    expr: ExprView,
    column_indices: Seq<ColumnIndex>,
    extended: Seq<ColumnIndex>,
    side: JoinSide,
    id: usize,
    first: int,
)
    requires
        makes_room(
            expr,
            column_indices,
            extended,
            side,
            first,
            pushed(expr, column_indices, side).len(),
        ),
    ensures
        pushed(replaced(expr, column_indices, side, id, first), extended, side.opposite())
            == pushed(expr, column_indices, side.opposite()),
    decreases expr, 0nat,
{
    let new = replaced(expr, column_indices, side, id, first);
    let other = side.opposite();
    law_replaced_dependencies(expr, column_indices, extended, side, id, first);
    assert(depends_on(new, extended, other) == depends_on(expr, column_indices, other));
    assert(depends_on(new, extended, side) == depends_on(expr, column_indices, side));
    if pushable(expr, column_indices, side) {
        lemma_independent(expr, column_indices, other, id, first);
        lemma_independent(new, extended, other, id, first);
    } else if let ExprView::Call { function, args } = expr {
        lemma_replaced_all_len(args, column_indices, side, id, first);
        assert(other.opposite() == side);
        if pushable(expr, column_indices, other) {
            lemma_independent(expr, column_indices, side, id, first);
            assert(pushable(new, extended, other));
        } else {
            assert(!pushable(new, extended, other));
            assert forall|i: int, k: int|
                0 <= i < args.len() && #[trigger] args[i].reads(k) implies 0 <= k
                < column_indices.len() && k < extended.len() && extended[k]
                == column_indices[k] by {
                lemma_arg_reads(expr, i, k);
            }
            lemma_sides_do_not_interfere_in_any(args, column_indices, extended, side, id, first);
        }
    }
}

proof fn lemma_sides_do_not_interfere_in_any(
    exprs: Seq<ExprView>,
    column_indices: Seq<ColumnIndex>,
    extended: Seq<ColumnIndex>,
    side: JoinSide,
    id: usize,
    first: int,
)
    requires
        forall|i: int, k: int|
            0 <= i < exprs.len() && #[trigger] exprs[i].reads(k) ==> 0 <= k < column_indices.len()
                && k < extended.len() && extended[k] == column_indices[k],
        forall|j: int|
            first <= j < first + pushed_all(exprs, column_indices, side).len() ==> 0 <= j
                < extended.len() && (#[trigger] extended[j]).side == side,
    ensures
        pushed_all(
            replaced_all(exprs, column_indices, side, id, first),
            extended,
            side.opposite(),
        ) == pushed_all(exprs, column_indices, side.opposite()),
    decreases exprs, exprs.len(),
{
    if exprs.len() > 0 {
        let rest = exprs.drop_last();
        let last = exprs.last();
        let before = pushed_all(rest, column_indices, side).len();
        assert forall|i: int, k: int|
            0 <= i < rest.len() && #[trigger] rest[i].reads(k) implies 0 <= k
            < column_indices.len() && k < extended.len() && extended[k] == column_indices[k] by {
            assert(exprs[i].reads(k));
        }
        assert forall|k: int| #[trigger] last.reads(k) implies 0 <= k < column_indices.len() && k
            < extended.len() && extended[k] == column_indices[k] by {
            assert(exprs[exprs.len() - 1].reads(k));
        }
        lemma_sides_do_not_interfere_in_any(rest, column_indices, extended, side, id, first);
        law_sides_do_not_interfere(
            last,
            column_indices,
            extended,
            side,
            id_after(id, before),
            first + before,
        );
        let new = replaced_all(exprs, column_indices, side, id, first);
        assert(new.drop_last() =~= replaced_all(rest, column_indices, side, id, first));
    }
}

/// Whether an output column passes the column at position `i` of an input with the fields `own`
/// through.
pub open spec fn passes_column(
    column: ProjectionExprView,
    own: Seq<FieldView>,
    i: int,
) -> bool {
    &&& column.alias == own[i].name
    &&& column.expr == ExprView::Column(ColumnView { name: own[i].name, index: i })
}

/// The columns of an input in place of those of the intermediate row.
pub open spec fn on_input(
    column_indices: Seq<ColumnIndex>,
    own: Seq<FieldView>,
) -> spec_fn(ColumnView) -> ColumnView {
    |column: ColumnView|
        {
            let index = column_indices[column.index].index as int;
            ColumnView { name: own[index].name, index }
        }
}

/// Whether an expression over an input with the fields `own` is a part of the filter that can be
/// computed on that side of the join alone.
pub open spec fn computes_part(
    expr: ExprView,
    filter: JoinFilterView,
    side: JoinSide,
    own: Seq<FieldView>,
) -> bool {
    exists|part: ExprView| #[trigger]
        filter.expression.has_part(part) && computable_on(part, filter.column_indices, side) && expr
            == part.mapped(on_input(filter.column_indices, own))
}

/// Whether a side of a join got what the filter can compute on it: if there is something, a
/// projection that passes all columns of the side through and computes parts of the filter behind
/// them, each of which the new filter looks at; and if there is nothing, the side stays.
pub open spec fn side_extended(
    side: JoinSide,
    filter: JoinFilterView,
    plan: PlanView,
    new_filter: JoinFilterView,
    new_plan: PlanView,
) -> bool {
    if has_computable(filter.expression, filter.column_indices, side) {
        let own = plan.fields();
        let columns = new_plan->exprs;
        &&& new_plan is Projection
        &&& new_plan->Projection_operator is None
        &&& *new_plan->Projection_input == plan
        &&& own.len() < columns.len() <= usize::MAX
        &&& forall|i: int|
            0 <= i < own.len() ==> passes_column(#[trigger] columns[i], own, i)
        &&& forall|i: int|
            own.len() <= i < columns.len() ==> {
                &&& computes_part((#[trigger] columns[i]).expr, filter, side, own)
                &&& new_filter.column_indices.contains(ColumnIndex { index: i as usize, side })
            }
    } else {
        new_plan == plan
    }
}

/// Whether the intermediate row of a filter is made of columns of the inputs, is described by its
/// schema, and holds no column that the filter does not look at.
pub open spec fn describes_row(
    filter: JoinFilterView,
    left: Seq<FieldView>,
    right: Seq<FieldView>,
) -> bool {
    &&& filter.schema.len() == filter.column_indices.len()
    &&& forall|k: int|
        0 <= k < filter.column_indices.len() ==> {
            let origin: ColumnIndex = #[trigger] filter.column_indices[k];
            let fields = if origin.side == JoinSide::Left {
                left
            } else {
                right
            };
            &&& origin.index < fields.len()
            &&& filter.schema[k] == fields[origin.index as int]
            &&& exists|column: ColumnView| #[trigger]
                filter.expression.has_column(column) && column.index == k
        }
}

/// Whether a column of the new filter is called as before, if it comes from a column that was there
/// before, and else as the column that was added for it.
pub open spec fn keeps_name(
    column: ColumnView,
    filter: JoinFilterView,
    left: Seq<FieldView>,
    right: Seq<FieldView>,
    new_filter: JoinFilterView,
    new_left: Seq<FieldView>,
    new_right: Seq<FieldView>,
) -> bool {
    let origin = new_filter.column_indices[column.index];
    let fields = if origin.side == JoinSide::Left {
        left
    } else {
        right
    };
    let new_fields = if origin.side == JoinSide::Left {
        new_left
    } else {
        new_right
    };
    if origin.index < fields.len() {
        exists|old_column: ColumnView| #[trigger]
            filter.expression.has_column(old_column) && old_column.name == column.name
                && filter.column_indices[old_column.index] == origin
    } else {
        column.name == new_fields[origin.index as int].name
    }
}

/// Whether a join is what a push-down has to make of another join with the inputs `left` and
/// `right`.
pub open spec fn pushed_down(
    join: NestedLoopJoinView,
    left: PlanView,
    right: PlanView,
    new_join: NestedLoopJoinView,
    new_left: PlanView,
    new_right: PlanView,
) -> bool {
    let filter = join.filter->0;
    let new_filter = new_join.filter->0;
    &&& new_join.join_type == join.join_type
    &&& new_join.filter is Some
    &&& new_join.projection is Some
    &&& side_extended(JoinSide::Left, filter, left, new_filter, new_left)
    &&& side_extended(JoinSide::Right, filter, right, new_filter, new_right)
    &&& describes_row(new_filter, new_left.fields(), new_right.fields())
    &&& forall|column: ColumnView| #[trigger]
        new_filter.expression.has_column(column) ==> 0 <= column.index
            < new_filter.column_indices.len() && keeps_name(
            column,
            filter,
            left.fields(),
            right.fields(),
            new_filter,
            new_left.fields(),
            new_right.fields(),
        )
    &&& !has_computable(new_filter.expression, new_filter.column_indices, JoinSide::Left)
    &&& !has_computable(new_filter.expression, new_filter.column_indices, JoinSide::Right)
}

/// Whether the filter of a join has a part that is to be computed on a side of the join: the filter
/// of any join but a mark join.
pub open spec fn has_work_for(join: NestedLoopJoinView, side: JoinSide) -> bool {
    &&& join.filter is Some
    &&& !(join.join_type is LeftMark) && !(join.join_type is RightMark)
    &&& has_computable(join.filter->0.expression, join.filter->0.column_indices, side)
}

/// The plan of a side, as far as it depends on the side alone. `base` is the filter before anything
/// was pushed down into the other side.
proof fn lemma_side_plan(
    side: JoinSide,
    plan: PlanView,
    other: Seq<FieldView>,
    filter: JoinFilterView,
    id: usize,
    base: JoinFilterView,
)
    requires
        plan.well_formed(),
        filter_fits(filter, side, plan.fields().len() as int, other.len() as int),
        push_side(side, plan, other, filter, id).plan.fields().len() <= usize::MAX,
        base.expression.within(base.column_indices.len() as int),
        base.column_indices.len() <= filter.column_indices.len(),
        forall|k: int|
            0 <= k < base.column_indices.len() ==> #[trigger] filter.column_indices[k]
                == base.column_indices[k],
        pushed(filter.expression, filter.column_indices, side) == pushed(
            base.expression,
            base.column_indices,
            side,
        ),
    ensures
        ({
            let new = push_side(side, plan, other, filter, id);
            let own = plan.fields();
            let columns = new.plan->exprs;
            &&& new.count > 0 <==> has_computable(base.expression, base.column_indices, side)
            &&& new.count == 0 ==> new.plan == plan && new.filter == filter
            &&& new.count > 0 ==> {
                &&& new.plan is Projection
                &&& new.plan->Projection_operator is None
                &&& *new.plan->Projection_input == plan
                &&& own.len() < columns.len() <= usize::MAX
                &&& forall|i: int|
                    0 <= i < own.len() ==> passes_column(#[trigger] columns[i], own, i)
                &&& forall|i: int|
                    own.len() <= i < columns.len() ==> computes_part(
                        (#[trigger] columns[i]).expr,
                        base,
                        side,
                        own,
                    )
            }
        }),
{
    let new = push_side(side, plan, other, filter, id);
    let own = plan.fields();
    law_pushed_if_computable(base.expression, base.column_indices, side);
    lemma_push_side(side, plan, other, filter, id);
    if new.count > 0 {
        let columns = new.plan->exprs;
        let exprs = pushed(base.expression, base.column_indices, side);
        assert(columns == side_projection(side, own, filter, id));
        assert(new.plan.fields().len() == columns.len());
        assert forall|i: int| own.len() <= i < columns.len() implies computes_part(
            (#[trigger] columns[i]).expr,
            base,
            side,
            own,
        ) by {
            let j = i - own.len();
            let part = exprs[j];
            let f = side_column(filter.column_indices, own);
            let g = on_input(base.column_indices, own);
            assert(columns[i].expr == part.mapped(f));
            assert(base.expression.has_part(part));
            assert forall|column: ColumnView| #[trigger] part.reads(column.index) implies f(column)
                == g(column) by {
                let found = lemma_read_column(part, column.index);
                assert(part.has_column(found));
                assert(filter.column_indices[column.index] == base.column_indices[column.index]);
            }
            lemma_mapped_same(part, f, g);
        }
    }
}

/// A column of the filter after the push-down into one side was in the filter before, with the same
/// origin, or comes from a column that was added to the side, and has its name.
proof fn lemma_side_names(
    side: JoinSide,
    plan: PlanView,
    other: Seq<FieldView>,
    filter: JoinFilterView,
    id: usize,
    column: ColumnView,
)
    requires
        plan.well_formed(),
        filter_fits(filter, side, plan.fields().len() as int, other.len() as int),
        push_side(side, plan, other, filter, id).plan.fields().len() <= usize::MAX,
        push_side(side, plan, other, filter, id).filter.expression.has_column(column),
    ensures
        ({
            let new = push_side(side, plan, other, filter, id);
            let origin = new.filter.column_indices[column.index];
            ||| filter.expression.has_column(column) && origin
                == filter.column_indices[column.index]
            ||| {
                &&& origin.side == side
                &&& plan.fields().len() <= origin.index < new.plan.fields().len()
                &&& column.name == new.plan.fields()[origin.index as int].name
            }
        }),
{
    let new = push_side(side, plan, other, filter, id);
    let own = plan.fields();
    lemma_push_side(side, plan, other, filter, id);
    if new.count > 0 {
        let first = filter.column_indices.len() as int;
        lemma_replaced_columns(
            filter.expression,
            filter.column_indices,
            side,
            id,
            first,
            column,
        );
        if filter.expression.has_column(column) {
            lemma_column_read(filter.expression, column);
        } else {
            let j = column.index - first;
            let columns = new.plan->exprs;
            assert(new.filter.column_indices[column.index].index == own.len() + j);
            assert(columns[own.len() + j].alias == column.name);
            assert(new.plan.fields()[own.len() + j].name == columns[own.len() + j].alias);
        }
    }
}

/// A join is pushed down if and only if its filter has a part for one of the sides, and what comes
/// out is what has to come out.
pub proof fn law_join_pushed_down(
    join: NestedLoopJoinView,
    left: PlanView,
    right: PlanView,
    id: usize,
)
    requires
        left.well_formed(),
        right.well_formed(),
        join.fits(left.fields(), right.fields()),
    ensures
        match push_down_join(join, left, right, id) {
            Ok(Some(plan)) => {
                &&& has_work_for(join, JoinSide::Left) || has_work_for(join, JoinSide::Right)
                &&& plan matches PlanView::NestedLoopJoin {
                    operator,
                    join: new_join,
                    left: new_left,
                    right: new_right,
                } && operator is None && pushed_down(
                    join,
                    left,
                    right,
                    new_join,
                    *new_left,
                    *new_right,
                )
            },
            Ok(None) => !has_work_for(join, JoinSide::Left) && !has_work_for(
                join,
                JoinSide::Right,
            ),
            Err(_) => has_work_for(join, JoinSide::Left) || has_work_for(join, JoinSide::Right),
        },
{
    if supported(join) {
        let filter = join.filter->0;
        let new_left = push_left(filter, left, right, id);
        let new_right = push_right(filter, left, right, id);
        lemma_push_counts(join, left, right, id);
        if let Ok(Some(plan)) = push_down_join(join, left, right, id) {
            lemma_pushed_down(join, left, right, id);
        }
    }
}

/// How many expressions are pushed down into each side is decided by the original filter.
proof fn lemma_push_counts(join: NestedLoopJoinView, left: PlanView, right: PlanView, id: usize)
    requires
        join.fits(left.fields(), right.fields()),
        supported(join),
    ensures
        ({
            let filter = join.filter->0;
            let new_left = push_left(filter, left, right, id);
            let new_right = push_right(filter, left, right, id);
            &&& pushed(new_left.filter.expression, new_left.filter.column_indices, JoinSide::Right)
                == pushed(filter.expression, filter.column_indices, JoinSide::Right)
            &&& new_left.count > 0 <==> has_work_for(join, JoinSide::Left)
            &&& new_right.count > 0 <==> has_work_for(join, JoinSide::Right)
            &&& new_left.count == pushed(
                filter.expression,
                filter.column_indices,
                JoinSide::Left,
            ).len()
            &&& new_right.count == pushed(
                filter.expression,
                filter.column_indices,
                JoinSide::Right,
            ).len()
        }),
{
    let filter = join.filter->0;
    let new_left = push_left(filter, left, right, id);
    law_pushed_if_computable(filter.expression, filter.column_indices, JoinSide::Left);
    law_pushed_if_computable(filter.expression, filter.column_indices, JoinSide::Right);
    if new_left.count > 0 {
        law_sides_do_not_interfere(
            filter.expression,
            filter.column_indices,
            new_left.filter.column_indices,
            JoinSide::Left,
            id,
            filter.column_indices.len() as int,
        );
    }
}

proof fn lemma_pushed_down(join: NestedLoopJoinView, left: PlanView, right: PlanView, id: usize)
    requires
        left.well_formed(),
        right.well_formed(),
        join.fits(left.fields(), right.fields()),
        push_down_join(join, left, right, id) matches Ok(new) && new is Some,
    ensures
        ({
            let plan = push_down_join(join, left, right, id)->Ok_0->0;
            pushed_down(join, left, right, plan->join, *plan->left, *plan->right)
        }),
{
    let plan = push_down_join(join, left, right, id)->Ok_0->0;
    let filter = join.filter->0;
    let new_left = push_left(filter, left, right, id);
    let new_right = push_right(filter, left, right, id);
    let middle = new_left.filter;
    let middle_id = id_after(id, new_left.count);
    let last = new_right.filter;
    let new_filter = plan->join.filter->0;
    let left_fields = new_left.plan.fields();
    let right_fields = new_right.plan.fields();
    let f = renumbered(last.column_indices, last.expression);
    let n = last.column_indices.len();
    lemma_push_counts(join, left, right, id);
    lemma_push_side(JoinSide::Left, left, right.fields(), filter, id);
    lemma_push_side(JoinSide::Right, right, left_fields, middle, middle_id);
    lemma_side_plan(JoinSide::Left, left, right.fields(), filter, id, filter);
    lemma_side_plan(JoinSide::Right, right, left_fields, middle, middle_id, filter);
    lemma_minimized_fits(last.expression, last.column_indices, left_fields, right_fields);

    // What was added to the sides.
    lemma_new_columns_used(join, left, right, id);
    assert(side_extended(JoinSide::Left, filter, left, new_filter, new_left.plan)) by {
        if new_left.count > 0 {
            let columns = new_left.plan->exprs;
            assert(left_fields.len() == columns.len());
            assert forall|i: int| left.fields().len() <= i < columns.len() implies ({
                let column = #[trigger] columns[i];
                new_filter.column_indices.contains(
                    ColumnIndex { index: i as usize, side: JoinSide::Left },
                )
            }) by {
                assert(new_filter.column_indices.contains(left_column(i)));
            }
        }
    }
    assert(side_extended(JoinSide::Right, filter, right, new_filter, new_right.plan)) by {
        if new_right.count > 0 {
            let columns = new_right.plan->exprs;
            assert(right_fields.len() == columns.len());
            assert forall|i: int| right.fields().len() <= i < columns.len() implies ({
                let column = #[trigger] columns[i];
                new_filter.column_indices.contains(
                    ColumnIndex { index: i as usize, side: JoinSide::Right },
                )
            }) by {
                assert(new_filter.column_indices.contains(right_column(i)));
            }
        }
    }

    // The intermediate row.
    assert forall|k: int| 0 <= k < new_filter.column_indices.len() implies ({
        let origin: ColumnIndex = #[trigger] new_filter.column_indices[k];
        let fields = if origin.side == JoinSide::Left {
            left_fields
        } else {
            right_fields
        };
        &&& origin.index < fields.len()
        &&& new_filter.schema[k] == fields[origin.index as int]
        &&& exists|column: ColumnView| #[trigger]
            new_filter.expression.has_column(column) && column.index == k
    }) by {
        assert(new_filter.column_indices[k].exists_in(
            left_fields.len() as int,
            right_fields.len() as int,
        ));
        law_minimized_is_minimal(
            last.expression,
            last.column_indices,
            left_fields,
            right_fields,
            k,
        );
        let column = lemma_read_column(new_filter.expression, k);
        assert(new_filter.expression.has_column(column));
    }

    // The names of columns.
    assert forall|column: ColumnView| #[trigger] new_filter.expression.has_column(column) implies 0
        <= column.index < new_filter.column_indices.len() && keeps_name(
        column,
        filter,
        left.fields(),
        right.fields(),
        new_filter,
        left_fields,
        right_fields,
    ) by {
        let before = lemma_mapped_column(last.expression, f, column);
        lemma_column_read(last.expression, before);
        lemma_referenced(last.column_indices, last.expression, before.index as nat, n);
        lemma_side_names(JoinSide::Right, right, left_fields, middle, middle_id, before);
        if middle.expression.has_column(before) {
            lemma_side_names(JoinSide::Left, left, right.fields(), filter, id, before);
            if filter.expression.has_column(before) {
                lemma_column_read(filter.expression, before);
                assert(filter.column_indices[before.index].exists_in(
                    left.fields().len() as int,
                    right.fields().len() as int,
                ));
            }
        }
    }

    // Nothing is left.
    law_join_pushed_once(join, left, right, id, id);
    law_pushed_if_computable(
        new_filter.expression,
        new_filter.column_indices,
        JoinSide::Left,
    );
    law_pushed_if_computable(
        new_filter.expression,
        new_filter.column_indices,
        JoinSide::Right,
    );
    assert(push_left(new_filter, new_left.plan, new_right.plan, id).count == 0);
    assert(push_right(new_filter, new_left.plan, new_right.plan, id).count == 0);
}

/// Every column that was added to a side is referred to after the push-down into both sides.
proof fn lemma_new_columns_used(
    join: NestedLoopJoinView,
    left: PlanView,
    right: PlanView,
    id: usize,
)
    requires
        left.well_formed(),
        right.well_formed(),
        join.fits(left.fields(), right.fields()),
        push_down_join(join, left, right, id) matches Ok(new) && new is Some,
    ensures
        ({
            let filter = join.filter->0;
            let new_left = push_left(filter, left, right, id);
            let new_right = push_right(filter, left, right, id);
            let new_filter = push_down_join(join, left, right, id)->Ok_0->0->join.filter->0;
            &&& forall|i: int|
                left.fields().len() <= i < new_left.plan.fields().len()
                    ==> new_filter.column_indices.contains(
                    #[trigger] left_column(i),
                )
            &&& forall|i: int|
                right.fields().len() <= i < new_right.plan.fields().len()
                    ==> new_filter.column_indices.contains(
                    #[trigger] right_column(i),
                )
        }),
{
    let filter = join.filter->0;
    let new_left = push_left(filter, left, right, id);
    let new_right = push_right(filter, left, right, id);
    let new_filter = push_down_join(join, left, right, id)->Ok_0->0->join.filter->0;
    let middle = new_left.filter;
    let middle_id = id_after(id, new_left.count);
    let last = new_right.filter;
    lemma_push_side(JoinSide::Left, left, right.fields(), filter, id);
    lemma_push_side(
        JoinSide::Right,
        right,
        new_left.plan.fields(),
        middle,
        middle_id,
    );
    lemma_replaced_refers(
        filter.expression,
        filter.column_indices,
        JoinSide::Left,
        id,
        filter.column_indices.len() as int,
    );
    lemma_replaced_refers(
        middle.expression,
        middle.column_indices,
        JoinSide::Right,
        middle_id,
        middle.column_indices.len() as int,
    );
    assert forall|i: int|
        left.fields().len() <= i
            < new_left.plan.fields().len() implies new_filter.column_indices.contains(
        #[trigger] left_column(i),
    ) by {
        let j = i - left.fields().len();
        let k = filter.column_indices.len() + j;
        assert(middle.expression.reads(filter.column_indices.len() as int + j));
        assert(middle.column_indices[k] == left_column(i));
        assert(last.expression.reads(k));
        assert(last.column_indices[k] == left_column(i));
        lemma_kept_by_minimize(
            last,
            new_left.plan.fields(),
            new_right.plan.fields(),
            k,
        );
    }
    assert forall|i: int|
        right.fields().len() <= i
            < new_right.plan.fields().len() implies new_filter.column_indices.contains(
        #[trigger] right_column(i),
    ) by {
        let j = i - right.fields().len();
        let k = middle.column_indices.len() + j;
        assert(last.expression.reads(middle.column_indices.len() as int + j));
        assert(last.column_indices[k] == right_column(i));
        lemma_kept_by_minimize(
            last,
            new_left.plan.fields(),
            new_right.plan.fields(),
            k,
        );
    }
}

/// The column at a position of the left input.
pub open spec fn left_column(i: int) -> ColumnIndex {
    ColumnIndex { index: i as usize, side: JoinSide::Left }
}

/// The column at a position of the right input.
pub open spec fn right_column(i: int) -> ColumnIndex {
    ColumnIndex { index: i as usize, side: JoinSide::Right }
}

/// A column that the filter refers to stays in the intermediate row.
proof fn lemma_kept_by_minimize(
    filter: JoinFilterView,
    left: Seq<FieldView>,
    right: Seq<FieldView>,
    k: int,
)
    requires
        0 <= k < filter.column_indices.len(),
        filter.expression.reads(k),
    ensures
        minimized(filter.expression, filter.column_indices, left, right).column_indices.contains(
            filter.column_indices[k],
        ),
{
    let n = filter.column_indices.len();
    lemma_referenced(filter.column_indices, filter.expression, k as nat, n);
    let position = referenced(filter.column_indices, filter.expression, k as nat).len() as int;
    let kept = minimized(filter.expression, filter.column_indices, left, right).column_indices;
    assert(kept[position] == filter.column_indices[k]);
}

/// A column that stands in an expression after columns were replaced is the replacement of one that
/// stood in it before.
proof fn lemma_mapped_column(
    expr: ExprView,
    f: spec_fn(ColumnView) -> ColumnView,
    column: ColumnView,
) -> (before: ColumnView)
    requires
        expr.mapped(f).has_column(column),
    ensures
        expr.has_column(before),
        f(before) == column,
    decreases expr,
{
    match expr {
        ExprView::Column(before) => before,
        ExprView::Literal(_) => arbitrary(),
        ExprView::Call { function, args } => {
            let part = ExprView::Column(column);
            let new_args = expr.mapped(f)->args;
            let i = choose|i: int|
                0 <= i < new_args.len() && (#[trigger] new_args[i]).has_part(part);
            assert(new_args[i] == args[i].mapped(f));
            let before = lemma_mapped_column(args[i], f, column);
            lemma_arg_part(expr, i, ExprView::Column(before));
            before
        },
    }
}

/// What a side of a join is computed from: the input of the projection that was put on it, if one
/// was put on it.
pub open spec fn below(side_plan: PlanView, extended: bool) -> PlanView {
    if extended {
        *side_plan->Projection_input
    } else {
        side_plan
    }
}

/// Whether a plan is what the push-down of the filters of all joins has to make of another: each
/// operator stays as it is, over what its inputs became, but for the joins that have work for a
/// side.
pub open spec fn joins_pushed_down(plan: PlanView, new: PlanView) -> bool
    decreases plan,
{
    match plan {
        PlanView::NestedLoopJoin { operator, join, left, right } => {
            let to_left = has_work_for(join, JoinSide::Left);
            let to_right = has_work_for(join, JoinSide::Right);
            let new_left = below(*new->left, to_left);
            let new_right = below(*new->right, to_right);
            &&& new is NestedLoopJoin
            &&& joins_pushed_down(*left, new_left)
            &&& joins_pushed_down(*right, new_right)
            &&& if to_left || to_right {
                new->NestedLoopJoin_operator is None && pushed_down(
                    join,
                    new_left,
                    new_right,
                    new->join,
                    *new->left,
                    *new->right,
                )
            } else {
                new->NestedLoopJoin_operator == operator && new->join == join
            }
        },
        PlanView::Projection { operator, exprs, input } => {
            &&& new is Projection
            &&& new->Projection_operator == operator && new->exprs == exprs
            &&& joins_pushed_down(*input, *new->Projection_input)
        },
        PlanView::Aggregate { operator, aggregate, input } => {
            &&& new is Aggregate
            &&& new->Aggregate_operator == operator && new->aggregate == aggregate
            &&& joins_pushed_down(*input, *new->Aggregate_input)
        },
        PlanView::Cooperative { operator, input } => {
            &&& new is Cooperative
            &&& new->Cooperative_operator == operator
            &&& joins_pushed_down(*input, *new->Cooperative_input)
        },
        PlanView::Repartition { operator, partitioning, input } => {
            &&& new is Repartition
            &&& new->Repartition_operator == operator && new->partitioning == partitioning
            &&& joins_pushed_down(*input, *new->Repartition_input)
        },
        PlanView::Other { operator, schema, children } => {
            &&& new is Other
            &&& new->Other_operator == operator && new->schema == schema
            &&& new->children.len() == children.len()
            &&& forall|i: int|
                0 <= i < children.len() ==> joins_pushed_down(
                    #[trigger] children[i],
                    new->children[i],
                )
        },
    }
}

/// Whether the filter of a node has no part left that could be computed on one side of it alone.
pub open spec fn nothing_left(node: PlanView) -> bool {
    node is NestedLoopJoin ==> !has_work_for(node->join, JoinSide::Left) && !has_work_for(
        node->join,
        JoinSide::Right,
    )
}

/// Whether no join of a plan, at any depth and below whatever operators, has a filter with a part
/// that could be computed on one side of it alone.
pub open spec fn fully_pushed_down(plan: PlanView) -> bool {
    plan.everywhere(|node: PlanView| nothing_left(node))
}

/// Every join of a plan is pushed down, wherever it stands, and everything else stays as it is.
#[verifier::rlimit(40)]
pub proof fn law_every_join_pushed_down(plan: PlanView, id: usize)
    requires
        plan.well_formed(),
    ensures
        push_down_joins(plan, id).0 matches Ok(new) ==> joins_pushed_down(plan, new)
            && fully_pushed_down(new),
    decreases plan, 1nat,
{
    if let Ok(new) = push_down_joins(plan, id).0 {
        let holds = |node: PlanView| nothing_left(node);
        lemma_everywhere(new, holds);
        match plan {
            PlanView::NestedLoopJoin { operator, join, left, right } => {
                lemma_every_join_pushed_down_at_join(plan, id);
            },
            PlanView::Projection { operator, exprs, input } => {
                law_every_join_pushed_down(*input, id);
                assert(new.inputs()[0] == push_down_joins(*input, id).0->Ok_0);
            },
            PlanView::Aggregate { operator, aggregate, input } => {
                law_every_join_pushed_down(*input, id);
                assert(new.inputs()[0] == push_down_joins(*input, id).0->Ok_0);
            },
            PlanView::Cooperative { operator, input } => {
                law_every_join_pushed_down(*input, id);
                assert(new.inputs()[0] == push_down_joins(*input, id).0->Ok_0);
            },
            PlanView::Repartition { operator, partitioning, input } => {
                law_every_join_pushed_down(*input, id);
                assert(new.inputs()[0] == push_down_joins(*input, id).0->Ok_0);
            },
            PlanView::Other { operator, schema, children } => {
                lemma_every_join_of_all_pushed_down(children, id);
                assert(new.inputs() == new->children);
            },
        }
    }
}

proof fn lemma_every_join_pushed_down_at_join(plan: PlanView, id: usize)
    requires
        plan.well_formed(),
        plan is NestedLoopJoin,
        push_down_joins(plan, id).0 is Ok,
    ensures
        joins_pushed_down(plan, push_down_joins(plan, id).0->Ok_0),
        fully_pushed_down(push_down_joins(plan, id).0->Ok_0),
    decreases plan, 0nat,
{
    if let PlanView::NestedLoopJoin { operator, join, left, right } = plan {
        let new = push_down_joins(plan, id).0->Ok_0;
        let (new_left, left_id) = push_down_joins(*left, id);
        let (new_right, right_id) = push_down_joins(*right, left_id);
        law_every_join_pushed_down(*left, id);
        law_every_join_pushed_down(*right, left_id);
        lemma_push_down_joins(*left, id);
        lemma_push_down_joins(*right, left_id);
        lemma_pushed_join_tree(operator, join, new_left->Ok_0, new_right->Ok_0, right_id);
    }
}

/// A join over inputs that are fully pushed down, after its own push-down.
proof fn lemma_pushed_join_tree(
    operator: Option<u64>,
    join: NestedLoopJoinView,
    left: PlanView,
    right: PlanView,
    id: usize,
)
    requires
        left.well_formed(),
        right.well_formed(),
        join.fits(left.fields(), right.fields()),
        fully_pushed_down(left),
        fully_pushed_down(right),
    ensures
        ({
            let to_left = has_work_for(join, JoinSide::Left);
            let to_right = has_work_for(join, JoinSide::Right);
            match push_down_join(join, left, right, id) {
                Ok(Some(plan)) => {
                    &&& to_left || to_right
                    &&& fully_pushed_down(plan)
                    &&& plan is NestedLoopJoin
                    &&& plan->NestedLoopJoin_operator is None
                    &&& below(*plan->left, to_left) == left
                    &&& below(*plan->right, to_right) == right
                    &&& pushed_down(join, left, right, plan->join, *plan->left, *plan->right)
                },
                Ok(None) => {
                    &&& !to_left && !to_right
                    &&& fully_pushed_down(
                        PlanView::NestedLoopJoin {
                            operator,
                            join,
                            left: Box::new(left),
                            right: Box::new(right),
                        },
                    )
                },
                Err(_) => true,
            }
        }),
{
    let holds = |node: PlanView| nothing_left(node);
    law_join_pushed_down(join, left, right, id);
    match push_down_join(join, left, right, id) {
        Ok(Some(plan)) => {
            let new_left = *plan->left;
            let new_right = *plan->right;
            lemma_everywhere(plan, holds);
            lemma_everywhere(new_left, holds);
            lemma_everywhere(new_right, holds);
            if has_work_for(join, JoinSide::Left) {
                assert(new_left.inputs()[0] == left);
            }
            if has_work_for(join, JoinSide::Right) {
                assert(new_right.inputs()[0] == right);
            }
            assert(new_left.everywhere(holds));
            assert(new_right.everywhere(holds));
            assert(plan.inputs()[0] == new_left);
            assert(plan.inputs()[1] == new_right);
        },
        Ok(None) => {
            let plan = PlanView::NestedLoopJoin {
                operator,
                join,
                left: Box::new(left),
                right: Box::new(right),
            };
            lemma_everywhere(plan, holds);
            assert(plan.inputs()[0] == left);
            assert(plan.inputs()[1] == right);
        },
        Err(_) => {},
    }
}

proof fn lemma_every_join_of_all_pushed_down(plans: Seq<PlanView>, id: usize)
    requires
        forall|i: int| 0 <= i < plans.len() ==> (#[trigger] plans[i]).well_formed(),
    ensures
        push_down_joins_all(plans, id).0 matches Ok(new) ==> {
            &&& new.len() == plans.len()
            &&& forall|i: int|
                0 <= i < plans.len() ==> joins_pushed_down(#[trigger] plans[i], new[i])
            &&& forall|i: int| 0 <= i < new.len() ==> fully_pushed_down(#[trigger] new[i])
        },
    decreases plans, plans.len(),
{
    if plans.len() > 0 {
        let rest = plans.drop_last();
        assert forall|i: int| 0 <= i < rest.len() implies (#[trigger] rest[i]).well_formed() by {
            assert(plans[i].well_formed());
        }
        assert(plans[plans.len() - 1].well_formed());
        lemma_every_join_of_all_pushed_down(rest, id);
        let (new_rest, last_id) = push_down_joins_all(rest, id);
        law_every_join_pushed_down(plans.last(), last_id);
        if let Ok(new) = push_down_joins_all(plans, id).0 {
            assert forall|i: int| 0 <= i < plans.len() implies joins_pushed_down(
                #[trigger] plans[i],
                new[i],
            ) by {
                if i < rest.len() {
                    assert(rest[i] == plans[i]);
                    assert(new[i] == new_rest->Ok_0[i]);
                }
            }
            assert forall|i: int| 0 <= i < new.len() implies fully_pushed_down(
                #[trigger] new[i],
            ) by {
                if i < rest.len() {
                    assert(new[i] == new_rest->Ok_0[i]);
                }
            }
        }
    }
}

/// How many nodes an expression has.
pub open spec fn node_count(expr: ExprView) -> nat
    decreases expr, 0nat,
{
    match expr {
        ExprView::Call { args, .. } => 1 + node_count_of_all(args),
        _ => 1,
    }
}

/// How many nodes several expressions have.
pub open spec fn node_count_of_all(exprs: Seq<ExprView>) -> nat
    decreases exprs, exprs.len(),
{
    if exprs.len() == 0 {
        0
    } else {
        node_count_of_all(exprs.drop_last()) + node_count(exprs.last())
    }
}

proof fn lemma_pushed_bound(expr: ExprView, column_indices: Seq<ColumnIndex>)
    ensures
        pushed(expr, column_indices, JoinSide::Left).len() + pushed(
            expr,
            column_indices,
            JoinSide::Right,
        ).len() <= node_count(expr),
    decreases expr, 0nat,
{
    if let ExprView::Call { function, args } = expr {
        if pushable(expr, column_indices, JoinSide::Left) {
            lemma_independent(expr, column_indices, JoinSide::Right, 0, 0);
        } else if pushable(expr, column_indices, JoinSide::Right) {
            lemma_independent(expr, column_indices, JoinSide::Left, 0, 0);
        } else {
            lemma_pushed_all_bound(args, column_indices);
        }
    }
}

proof fn lemma_pushed_all_bound(exprs: Seq<ExprView>, column_indices: Seq<ColumnIndex>)
    ensures
        pushed_all(exprs, column_indices, JoinSide::Left).len() + pushed_all(
            exprs,
            column_indices,
            JoinSide::Right,
        ).len() <= node_count_of_all(exprs),
    decreases exprs, exprs.len(),
{
    if exprs.len() > 0 {
        lemma_pushed_all_bound(exprs.drop_last(), column_indices);
        lemma_pushed_bound(exprs.last(), column_indices);
    }
}

/// Whether the columns of the inputs of a join and the nodes of its filter can be counted together.
pub open spec fn countable(node: PlanView) -> bool {
    node is NestedLoopJoin && node->join.filter is Some ==> node->left.fields().len()
        + node->right.fields().len() + node_count(node->join.filter->0.expression) <= usize::MAX
}

/// The push-down succeeds on every plan whose joins have no more columns and nodes in their filters
/// than a `usize` can count.
#[verifier::rlimit(40)]
pub proof fn law_push_down_succeeds(plan: PlanView, id: usize)
    requires
        plan.well_formed(),
        plan.everywhere(|node: PlanView| countable(node)),
    ensures
        push_down_joins(plan, id).0 is Ok,
    decreases plan, 0nat,
{
    let holds = |node: PlanView| countable(node);
    lemma_everywhere(plan, holds);
    match plan {
        PlanView::NestedLoopJoin { operator, join, left, right } => {
            assert(plan.inputs()[0] == *left);
            assert(plan.inputs()[1] == *right);
            assert(plan.inputs()[0].everywhere(holds));
            assert(plan.inputs()[1].everywhere(holds));
            let (new_left, left_id) = push_down_joins(*left, id);
            let (new_right, right_id) = push_down_joins(*right, left_id);
            law_push_down_succeeds(*left, id);
            law_push_down_succeeds(*right, left_id);
            lemma_push_down_joins(*left, id);
            lemma_push_down_joins(*right, left_id);
            lemma_join_succeeds(join, new_left->Ok_0, new_right->Ok_0, right_id);
        },
        PlanView::Projection { operator, exprs, input } => {
            assert(plan.inputs()[0] == *input);
            assert(plan.inputs()[0].everywhere(holds));
            law_push_down_succeeds(*input, id);
        },
        PlanView::Aggregate { operator, aggregate, input } => {
            assert(plan.inputs()[0] == *input);
            assert(plan.inputs()[0].everywhere(holds));
            law_push_down_succeeds(*input, id);
        },
        PlanView::Cooperative { operator, input } => {
            assert(plan.inputs()[0] == *input);
            assert(plan.inputs()[0].everywhere(holds));
            law_push_down_succeeds(*input, id);
        },
        PlanView::Repartition { operator, partitioning, input } => {
            assert(plan.inputs()[0] == *input);
            assert(plan.inputs()[0].everywhere(holds));
            law_push_down_succeeds(*input, id);
        },
        PlanView::Other { operator, schema, children } => {
            assert(plan.inputs() == children);
            lemma_push_down_of_all_succeeds(children, id);
        },
    }
}

proof fn lemma_join_succeeds(
    join: NestedLoopJoinView,
    left: PlanView,
    right: PlanView,
    id: usize,
)
    requires
        left.well_formed(),
        right.well_formed(),
        join.fits(left.fields(), right.fields()),
        join.filter is Some ==> left.fields().len() + right.fields().len() + node_count(
            join.filter->0.expression,
        ) <= usize::MAX,
    ensures
        push_down_join(join, left, right, id) is Ok,
{
    law_join_columns_stay(join, left, right, id);
    if supported(join) {
        let filter = join.filter->0;
        lemma_push_counts(join, left, right, id);
        lemma_pushed_bound(filter.expression, filter.column_indices);
    }
}

proof fn lemma_push_down_of_all_succeeds(plans: Seq<PlanView>, id: usize)
    requires
        forall|i: int| 0 <= i < plans.len() ==> (#[trigger] plans[i]).well_formed(),
        forall|i: int|
            0 <= i < plans.len() ==> (#[trigger] plans[i]).everywhere(
                |node: PlanView| countable(node),
            ),
    ensures
        push_down_joins_all(plans, id).0 is Ok,
    decreases plans, plans.len(),
{
    if plans.len() > 0 {
        let rest = plans.drop_last();
        assert forall|i: int| 0 <= i < rest.len() implies (#[trigger] rest[i]).well_formed()
            && rest[i].everywhere(|node: PlanView| countable(node)) by {
            assert(plans[i].well_formed());
        }
        assert(plans[plans.len() - 1].well_formed());
        lemma_push_down_of_all_succeeds(rest, id);
        law_push_down_succeeds(plans.last(), push_down_joins_all(rest, id).1);
    }
}

/// The columns that stand in an expression, from left to right, each as often as it stands there.
pub open spec fn columns_of(expr: ExprView) -> Seq<ColumnView>
    decreases expr, 0nat,
{
    match expr {
        ExprView::Column(column) => seq![column],
        ExprView::Literal(_) => seq![],
        ExprView::Call { args, .. } => columns_of_all(args),
    }
}

/// The columns that stand in several expressions, from left to right.
pub open spec fn columns_of_all(exprs: Seq<ExprView>) -> Seq<ColumnView>
    decreases exprs, exprs.len(),
{
    if exprs.len() == 0 {
        seq![]
    } else {
        columns_of_all(exprs.drop_last()) + columns_of(exprs.last())
    }
}

/// Whether those of the columns that have positions from `first` on have, from left to right,
/// ascending positions, all below `end`.
pub open spec fn ascending_from(columns: Seq<ColumnView>, first: int, end: int) -> bool {
    &&& forall|p: int| 0 <= p < columns.len() ==> (#[trigger] columns[p]).index < end
    &&& forall|p: int, q: int|
        0 <= p < q < columns.len() && first <= (#[trigger] columns[p]).index && first <= (
        #[trigger] columns[q]).index ==> columns[p].index < columns[q].index
}

proof fn lemma_columns_of(expr: ExprView, p: int)
    requires
        0 <= p < columns_of(expr).len(),
    ensures
        expr.has_column(columns_of(expr)[p]),
    decreases expr, 0nat,
{
    if let ExprView::Call { function, args } = expr {
        let i = lemma_columns_of_all(args, p);
        lemma_arg_part(expr, i, ExprView::Column(columns_of(expr)[p]));
    }
}

proof fn lemma_columns_of_all(exprs: Seq<ExprView>, p: int) -> (i: int)
    requires
        0 <= p < columns_of_all(exprs).len(),
    ensures
        0 <= i < exprs.len(),
        exprs[i].has_column(columns_of_all(exprs)[p]),
    decreases exprs, exprs.len(),
{
    let before = columns_of_all(exprs.drop_last());
    if p < before.len() {
        lemma_columns_of_all(exprs.drop_last(), p)
    } else {
        lemma_columns_of(exprs.last(), p - before.len());
        exprs.len() - 1
    }
}

/// Every pushed subexpression gets a column of its own, and the columns that take the places of
/// pushed subexpressions come in the order of their positions.
pub proof fn law_replaced_in_order(
    expr: ExprView,
    column_indices: Seq<ColumnIndex>,
    side: JoinSide,
    id: usize,
    first: int,
)
    requires
        column_indices.len() <= first,
        expr.within(column_indices.len() as int),
    ensures
        ascending_from(
            columns_of(replaced(expr, column_indices, side, id, first)),
            first,
            first + pushed(expr, column_indices, side).len(),
        ),
    decreases expr, 0nat,
{
    if !pushable(expr, column_indices, side) {
        match expr {
            ExprView::Column(column) => {
                assert(expr.reads(column.index));
            },
            ExprView::Literal(_) => {},
            ExprView::Call { function, args } => {
                assert forall|i: int, k: int|
                    0 <= i < args.len() && #[trigger] args[i].reads(k) implies 0 <= k
                    < column_indices.len() by {
                    lemma_arg_reads(expr, i, k);
                }
                lemma_replaced_all_in_order(args, column_indices, side, id, first);
            },
        }
    }
}

proof fn lemma_replaced_all_in_order(
    exprs: Seq<ExprView>,
    column_indices: Seq<ColumnIndex>,
    side: JoinSide,
    id: usize,
    first: int,
)
    requires
        column_indices.len() <= first,
        forall|i: int, k: int|
            0 <= i < exprs.len() && #[trigger] exprs[i].reads(k) ==> 0 <= k < column_indices.len(),
    ensures
        ascending_from(
            columns_of_all(replaced_all(exprs, column_indices, side, id, first)),
            first,
            first + pushed_all(exprs, column_indices, side).len(),
        ),
    decreases exprs, exprs.len(),
{
    let new = replaced_all(exprs, column_indices, side, id, first);
    if exprs.len() > 0 {
        let rest = exprs.drop_last();
        let last = exprs.last();
        let before = pushed_all(rest, column_indices, side).len();
        assert forall|i: int, k: int| 0 <= i < rest.len() && #[trigger] rest[i].reads(k) implies 0
            <= k < column_indices.len() by {
            assert(exprs[i].reads(k));
        }
        assert forall|k: int| #[trigger] last.reads(k) implies 0 <= k < column_indices.len() by {
            assert(exprs[exprs.len() - 1].reads(k));
        }
        lemma_replaced_all_in_order(rest, column_indices, side, id, first);
        let last_id = id_after(id, before);
        law_replaced_in_order(last, column_indices, side, last_id, first + before);
        let new_rest = replaced_all(rest, column_indices, side, id, first);
        let new_last = replaced(last, column_indices, side, last_id, first + before);
        assert(new.drop_last() =~= new_rest);
        let left = columns_of_all(new_rest);
        let right = columns_of(new_last);
        let all = columns_of_all(new);
        assert(all == left + right);
        assert forall|q: int| 0 <= q < right.len() implies (#[trigger] right[q]).index
            < column_indices.len() || first + before <= right[q].index by {
            lemma_columns_of(new_last, q);
            lemma_replaced_columns(
                last,
                column_indices,
                side,
                last_id,
                first + before,
                right[q],
            );
            if last.has_column(right[q]) {
                lemma_column_read(last, right[q]);
            }
        }
        assert forall|p: int| 0 <= p < all.len() implies (#[trigger] all[p]).index < first
            + pushed_all(exprs, column_indices, side).len() by {
            if p < left.len() {
                assert(left[p] == all[p]);
            } else {
                assert(right[p - left.len()] == all[p]);
            }
        }
        assert forall|p: int, q: int|
            0 <= p < q < all.len() && first <= (#[trigger] all[p]).index && first <= (
            #[trigger] all[q]).index implies all[p].index < all[q].index by {
            if q < left.len() {
                assert(left[p] == all[p] && left[q] == all[q]);
            } else if p < left.len() {
                assert(left[p] == all[p] && right[q - left.len()] == all[q]);
            } else {
                assert(right[p - left.len()] == all[p] && right[q - left.len()] == all[q]);
            }
        }
    }
}

/// After a rewriter has gone through an expression no part of it can be computed on the side of the
/// rewriter alone, and the rewriter has changed something if and only if there was such a part. The
/// columns that took the places of parts stand in the expression in the order of their positions.
pub proof fn law_rewriter_leaves_nothing(
    before: JoinFilterRewriter<'_>,
    expr: ExprView,
    id: usize,
    after: JoinFilterRewriter<'_>,
    next_id: usize,
    result: Transformed<Arc<Expr>>,
)
    requires
        expr.within(before.intermediate_column_indices@.len() as int),
        before.rewrites(expr, id, after, next_id, result),
    ensures
        !has_computable(result.data@, after.intermediate_column_indices@, before.join_side),
        result.transformed <==> has_computable(
            expr,
            before.intermediate_column_indices@,
            before.join_side,
        ),
        !result.transformed ==> result.data@ == expr,
        ascending_from(
            columns_of(result.data@),
            before.intermediate_column_indices@.len() as int,
            after.intermediate_column_indices@.len() as int,
        ),
        has_computable(
            result.data@,
            after.intermediate_column_indices@,
            before.join_side.opposite(),
        ) <==> has_computable(
            expr,
            before.intermediate_column_indices@,
            before.join_side.opposite(),
        ),
{
    let side = before.join_side;
    let column_indices = before.intermediate_column_indices@;
    let extended = after.intermediate_column_indices@;
    let first = column_indices.len() as int;
    let new = result.data@;
    law_pushed_if_computable(expr, column_indices, side);
    law_pushed_if_computable(expr, column_indices, side.opposite());
    law_nothing_left_to_push(expr, column_indices, extended, side, id, first, side);
    law_sides_do_not_interfere(expr, column_indices, extended, side, id, first);
    law_replaced_in_order(expr, column_indices, side, id, first);
    assert forall|k: int| #[trigger] new.reads(k) implies 0 <= k < extended.len() by {
        lemma_replaced_reads(expr, column_indices, side, id, first, k);
    }
    law_pushed_if_computable(new, extended, side);
    law_pushed_if_computable(new, extended, side.opposite());
    if !result.transformed {
        lemma_nothing_replaced(expr, column_indices, side, id, first);
    }
}

/// Whether the joins and projections of a plan were made by its owner.
pub open spec fn made_by_owner(node: PlanView) -> bool {
    match node {
        PlanView::NestedLoopJoin { operator, .. } => operator is Some,
        PlanView::Projection { operator, .. } => operator is Some,
        _ => true,
    }
}

/// The names of the columns that a projection that was put on a side of a join adds to it.
pub open spec fn added_names(side_plan: PlanView) -> Seq<Seq<char>> {
    match side_plan {
        PlanView::Projection { operator: None, exprs, input } => Seq::new(
            (exprs.len() - input.fields().len()) as nat,
            |i: int| exprs[input.fields().len() + i].alias,
        ),
        _ => seq![],
    }
}

/// The names of the columns that a push-down has added to the sides of the joins of a plan: for
/// each join, first those below its left side, then those below its right side, and then its own.
pub open spec fn all_added_names(plan: PlanView) -> Seq<Seq<char>>
    decreases plan, 0nat,
{
    match plan {
        PlanView::NestedLoopJoin { left, right, .. } => {
            let below_left = match *left {
                PlanView::Projection { operator: None, exprs, input } => all_added_names(*input),
                _ => all_added_names(*left),
            };
            let below_right = match *right {
                PlanView::Projection { operator: None, exprs, input } => all_added_names(*input),
                _ => all_added_names(*right),
            };
            below_left + below_right + added_names(*left) + added_names(*right)
        },
        PlanView::Projection { input, .. } => all_added_names(*input),
        PlanView::Aggregate { input, .. } => all_added_names(*input),
        PlanView::Cooperative { input, .. } => all_added_names(*input),
        PlanView::Repartition { input, .. } => all_added_names(*input),
        PlanView::Other { children, .. } => all_added_names_of_all(children),
    }
}

/// The names of the columns that were added in several plans, from left to right.
pub open spec fn all_added_names_of_all(plans: Seq<PlanView>) -> Seq<Seq<char>>
    decreases plans, plans.len(),
{
    if plans.len() == 0 {
        seq![]
    } else {
        all_added_names_of_all(plans.drop_last()) + all_added_names(plans.last())
    }
}

/// Whether the names are the aliases of pushed expressions with consecutive numbers from `id` on.
pub open spec fn numbered_from(names: Seq<Seq<char>>, id: usize) -> bool {
    forall|i: int|
        0 <= i < names.len() ==> #[trigger] names[i] == alias_name(
            JOIN_ALIAS_PREFIX@,
            id_after(id, i as nat),
        )
}

proof fn lemma_numbered_from_add(left: Seq<Seq<char>>, right: Seq<Seq<char>>, id: usize)
    requires
        numbered_from(left, id),
        numbered_from(right, id_after(id, left.len())),
    ensures
        numbered_from(left + right, id),
        id_after(id_after(id, left.len()), right.len()) == id_after(id, (left + right).len()),
{
    lemma_id_after_add(id, left.len(), right.len());
    let all = left + right;
    assert forall|i: int| 0 <= i < all.len() implies #[trigger] all[i] == alias_name(
        JOIN_ALIAS_PREFIX@,
        id_after(id, i as nat),
    ) by {
        if i < left.len() {
            assert(left[i] == all[i]);
        } else {
            assert(right[i - left.len()] == all[i]);
            lemma_id_after_add(id, left.len(), (i - left.len()) as nat);
        }
    }
}

/// The columns that the push-down adds to a plan are numbered consecutively, join by join from the
/// bottom up and from left to right, and the next number is the one after the last.
#[verifier::rlimit(40)]
pub proof fn law_added_columns_numbered(plan: PlanView, id: usize)
    requires
        plan.well_formed(),
        plan.everywhere(|node: PlanView| made_by_owner(node)),
    ensures
        push_down_joins(plan, id).0 matches Ok(new) ==> {
            let names = all_added_names(new);
            &&& numbered_from(names, id)
            &&& push_down_joins(plan, id).1 == id_after(id, names.len())
            &&& !(new matches PlanView::Projection { operator, .. } && operator is None)
        },
    decreases plan, 1nat,
{
    let holds = |node: PlanView| made_by_owner(node);
    lemma_everywhere(plan, holds);
    if push_down_joins(plan, id).0 is Ok {
        match plan {
            PlanView::NestedLoopJoin { operator, join, left, right } => {
                assert(plan.inputs()[0] == *left);
                assert(plan.inputs()[1] == *right);
                assert(plan.inputs()[0].everywhere(holds));
                assert(plan.inputs()[1].everywhere(holds));
                lemma_added_columns_numbered_at_join(plan, id);
            },
            PlanView::Projection { operator, exprs, input } => {
                assert(plan.inputs()[0] == *input);
                assert(plan.inputs()[0].everywhere(holds));
                law_added_columns_numbered(*input, id);
            },
            PlanView::Aggregate { operator, aggregate, input } => {
                assert(plan.inputs()[0] == *input);
                assert(plan.inputs()[0].everywhere(holds));
                law_added_columns_numbered(*input, id);
            },
            PlanView::Cooperative { operator, input } => {
                assert(plan.inputs()[0] == *input);
                assert(plan.inputs()[0].everywhere(holds));
                law_added_columns_numbered(*input, id);
            },
            PlanView::Repartition { operator, partitioning, input } => {
                assert(plan.inputs()[0] == *input);
                assert(plan.inputs()[0].everywhere(holds));
                law_added_columns_numbered(*input, id);
            },
            PlanView::Other { operator, schema, children } => {
                assert(plan.inputs() == children);
                lemma_added_columns_of_all_numbered(children, id);
            },
        }
    }
}

proof fn lemma_added_columns_numbered_at_join(plan: PlanView, id: usize)
    requires
        plan.well_formed(),
        plan is NestedLoopJoin,
        plan->left.everywhere(|node: PlanView| made_by_owner(node)),
        plan->right.everywhere(|node: PlanView| made_by_owner(node)),
        push_down_joins(plan, id).0 is Ok,
    ensures
        ({
            let new = push_down_joins(plan, id).0->Ok_0;
            let names = all_added_names(new);
            &&& numbered_from(names, id)
            &&& push_down_joins(plan, id).1 == id_after(id, names.len())
            &&& !(new is Projection)
        }),
    decreases plan, 0nat,
{
    if let PlanView::NestedLoopJoin { operator, join, left, right } = plan {
        let new = push_down_joins(plan, id).0->Ok_0;
        let (left_result, left_id) = push_down_joins(*left, id);
        let (right_result, right_id) = push_down_joins(*right, left_id);
        let new_left = left_result->Ok_0;
        let new_right = right_result->Ok_0;
        law_added_columns_numbered(*left, id);
        law_added_columns_numbered(*right, left_id);
        lemma_push_down_joins(*left, id);
        lemma_push_down_joins(*right, left_id);
        let from_left = all_added_names(new_left);
        let from_right = all_added_names(new_right);
        lemma_numbered_from_add(from_left, from_right, id);
        let count = push_count(join, new_left, new_right, right_id);
        assert(id_after(right_id, 0) == right_id);
        if count > 0 {
            let filter = join.filter->0;
            let pushed_left = push_left(filter, new_left, new_right, right_id);
            let pushed_right = push_right(filter, new_left, new_right, right_id);
            let middle_id = id_after(right_id, pushed_left.count);
            lemma_push_side(JoinSide::Left, new_left, new_right.fields(), filter, right_id);
            lemma_push_side(
                JoinSide::Right,
                new_right,
                pushed_left.plan.fields(),
                pushed_left.filter,
                middle_id,
            );
            lemma_added_names(
                JoinSide::Left,
                new_left,
                new_right.fields(),
                filter,
                right_id,
            );
            lemma_added_names(
                JoinSide::Right,
                new_right,
                pushed_left.plan.fields(),
                pushed_left.filter,
                middle_id,
            );
            let own_left = added_names(pushed_left.plan);
            let own_right = added_names(pushed_right.plan);
            lemma_numbered_from_add(from_left + from_right, own_left, id);
            lemma_numbered_from_add(from_left + from_right + own_left, own_right, id);
            lemma_id_after_add(right_id, own_left.len(), own_right.len());
            assert(*new->left == pushed_left.plan && *new->right == pushed_right.plan);
            assert(all_added_names(new) == from_left + from_right + own_left + own_right);
        } else {
            assert(all_added_names(new) =~= from_left + from_right);
        }
    }
}

/// The names of the columns that are added to one side.
proof fn lemma_added_names(
    side: JoinSide,
    plan: PlanView,
    other: Seq<FieldView>,
    filter: JoinFilterView,
    id: usize,
)
    requires
        !(plan matches PlanView::Projection { operator, .. } && operator is None),
    ensures
        ({
            let new = push_side(side, plan, other, filter, id);
            let names = added_names(new.plan);
            &&& numbered_from(names, id)
            &&& names.len() == new.count
        }),
{
    let new = push_side(side, plan, other, filter, id);
    if new.count > 0 {
        let columns = side_projection(side, plan.fields(), filter, id);
        let exprs = pushed(filter.expression, filter.column_indices, side);
        let computed = pushed_projections(exprs, filter.column_indices, plan.fields(), id);
        assert forall|i: int| 0 <= i < exprs.len() implies #[trigger] added_names(new.plan)[i]
            == computed[i].alias by {
            assert(columns[plan.fields().len() + i] == computed[i]);
        }
    }
}

proof fn lemma_added_columns_of_all_numbered(plans: Seq<PlanView>, id: usize)
    requires
        forall|i: int| 0 <= i < plans.len() ==> (#[trigger] plans[i]).well_formed(),
        forall|i: int|
            0 <= i < plans.len() ==> (#[trigger] plans[i]).everywhere(
                |node: PlanView| made_by_owner(node),
            ),
    ensures
        push_down_joins_all(plans, id).0 matches Ok(new) ==> {
            let names = all_added_names_of_all(new);
            &&& numbered_from(names, id)
            &&& push_down_joins_all(plans, id).1 == id_after(id, names.len())
        },
    decreases plans, plans.len(),
{
    if plans.len() > 0 {
        let rest = plans.drop_last();
        assert forall|i: int| 0 <= i < rest.len() implies (#[trigger] rest[i]).well_formed()
            && rest[i].everywhere(|node: PlanView| made_by_owner(node)) by {
            assert(plans[i].well_formed());
        }
        assert(plans[plans.len() - 1].well_formed());
        lemma_added_columns_of_all_numbered(rest, id);
        let (new_rest, last_id) = push_down_joins_all(rest, id);
        law_added_columns_numbered(plans.last(), last_id);
        if let Ok(new) = push_down_joins_all(plans, id).0 {
            assert(new.drop_last() =~= new_rest->Ok_0);
            lemma_numbered_from_add(
                all_added_names_of_all(new_rest->Ok_0),
                all_added_names(new.last()),
                id,
            );
        }
    }
}

} // verus!
