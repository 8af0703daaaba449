use crate::aliases::{alias_name, id_after, lemma_aliases_distinct, lemma_id_after_add};
use crate::expr::{ColumnView, Expr, ExprView};
use crate::join::{ColumnIndex, JoinFilterView, JoinSide};
use crate::join_filter::{
    filter_fits, lemma_referenced, lemma_referenced_origin, minimized, renumbered, side_filter,
    side_projection,
};
use crate::projection::projection_views;
use crate::rewriter::{
    depends_on, law_pushed, lemma_arg_depends, lemma_arg_reads, lemma_no_arg_depends,
    lemma_nothing_replaced, lemma_replaced_all_len, lemma_replaced_reads, pushable, pushed,
    pushed_all, pushed_indices, pushed_projections, readable, replaced, replaced_all, side_column,
    JoinFilterRewriter, Transformed, JOIN_ALIAS_PREFIX,
};
use crate::schema::FieldView;
use crate::semantics::{lemma_eval_anywhere, lemma_eval_mapped, Semantics};
use std::sync::Arc;
use vstd::prelude::*;

verus! {

/// An expression in which the largest pushable subexpressions were replaced by columns has the
/// value of the original on a row that holds the values of the subexpressions in these columns.
pub proof fn law_replaced_value<V>(
    semantics: Semantics<V>,
    expr: ExprView,
    column_indices: Seq<ColumnIndex>,
    side: JoinSide,
    id: usize,
    first: int,
    row: Seq<V>,
    new_row: Seq<V>,
    at: Seq<int>,
)
    requires
        forall|k: int| #[trigger] expr.reads(k) ==> new_row[k] == row[k],
        forall|j: int|
            0 <= j < pushed(expr, column_indices, side).len() ==> #[trigger] new_row[first + j]
                == semantics.eval(pushed(expr, column_indices, side)[j], row, at),
    ensures
        semantics.eval(replaced(expr, column_indices, side, id, first), new_row, at)
            == semantics.eval(expr, row, at),
    decreases expr, 0nat,
{
    if pushable(expr, column_indices, side) {
        assert(pushed(expr, column_indices, side) =~= seq![expr]);
        assert(new_row[first + 0] == semantics.eval(expr, row, at));
    } else {
        match expr {
            ExprView::Column(column) => {
                assert(expr.reads(column.index));
            },
            ExprView::Literal(_) => {},
            ExprView::Call { function, args } => {
                assert forall|i: int, k: int|
                    0 <= i < args.len() && #[trigger] args[i].reads(k) implies new_row[k]
                    == row[k] by {
                    lemma_arg_reads(expr, i, k);
                }
                lemma_replaced_all_values(
                    semantics,
                    args,
                    column_indices,
                    side,
                    id,
                    first,
                    row,
                    new_row,
                    at,
                );
            },
        }
    }
}

proof fn lemma_replaced_all_values<V>(
    semantics: Semantics<V>,
    exprs: Seq<ExprView>,
    column_indices: Seq<ColumnIndex>,
    side: JoinSide,
    id: usize,
    first: int,
    row: Seq<V>,
    new_row: Seq<V>,
    at: Seq<int>,
)
    requires
        forall|i: int, k: int|
            0 <= i < exprs.len() && #[trigger] exprs[i].reads(k) ==> new_row[k] == row[k],
        forall|j: int|
            0 <= j < pushed_all(exprs, column_indices, side).len() ==> #[trigger] new_row[first + j]
                == semantics.eval(pushed_all(exprs, column_indices, side)[j], row, at),
    ensures
        semantics.eval_all(
            replaced_all(exprs, column_indices, side, id, first),
            new_row,
            at,
        ) == semantics.eval_all(exprs, row, at),
    decreases exprs, exprs.len(),
{
    let new_exprs = replaced_all(exprs, column_indices, side, id, first);
    lemma_replaced_all_len(exprs, column_indices, side, id, first);
    if exprs.len() > 0 {
        let before = pushed_all(exprs.drop_last(), column_indices, side);
        let last = pushed(exprs.last(), column_indices, side);
        assert forall|i: int, k: int|
            0 <= i < exprs.drop_last().len() && #[trigger] exprs.drop_last()[i].reads(
                k,
            ) implies new_row[k] == row[k] by {
            assert(exprs[i].reads(k));
        }
        assert forall|k: int| #[trigger] exprs.last().reads(k) implies new_row[k] == row[k] by {
            assert(exprs[exprs.len() - 1].reads(k));
        }
        assert forall|j: int| 0 <= j < before.len() implies #[trigger] new_row[first + j]
            == semantics.eval(before[j], row, at) by {
            assert(pushed_all(exprs, column_indices, side)[j] == before[j]);
        }
        assert forall|j: int| 0 <= j < last.len() implies #[trigger] new_row[(first
            + before.len()) + j] == semantics.eval(last[j], row, at) by {
            assert(pushed_all(exprs, column_indices, side)[before.len() + j] == last[j]);
            assert(new_row[first + (before.len() + j)] == semantics.eval(last[j], row, at));
        }
        lemma_replaced_all_values(
            semantics,
            exprs.drop_last(),
            column_indices,
            side,
            id,
            first,
            row,
            new_row,
            at,
        );
        law_replaced_value(
            semantics,
            exprs.last(),
            column_indices,
            side,
            id_after(id, before.len()),
            first + before.len(),
            row,
            new_row,
            at,
        );
        let old_values = semantics.eval_all(exprs, row, at);
        let new_values = semantics.eval_all(new_exprs, new_row, at);
        let new_before = replaced_all(exprs.drop_last(), column_indices, side, id, first);
        assert forall|i: int| 0 <= i < exprs.len() implies new_values[i] == old_values[i] by {
            if i < exprs.len() - 1 {
                lemma_replaced_all_len(exprs.drop_last(), column_indices, side, id, first);
                assert(new_exprs[i] == new_before[i]);
                assert(semantics.eval_all(new_before, new_row, at)[i] == semantics.eval_all(
                    exprs.drop_last(),
                    row,
                    at,
                )[i]);
            }
        }
    }
    assert(semantics.eval_all(new_exprs, new_row, at) =~= semantics.eval_all(exprs, row, at));
}

impl<V> Semantics<V> {
    /// The value of the filter of a join for a row of one side and a row of the other.
    pub open spec fn side_value(
        self,
        filter: JoinFilterView,
        side: JoinSide,
        own: Seq<V>,
        other: Seq<V>,
        at: Seq<int>,
    ) -> V {
        match side {
            JoinSide::Left => self.filter_value(filter, own, other, at),
            JoinSide::Right => self.filter_value(filter, other, own, at),
        }
    }
}

/// The new projection of a side passes the columns of the side through.
pub proof fn law_side_columns_stay<V>(
    semantics: Semantics<V>,
    side: JoinSide,
    own: Seq<FieldView>,
    filter: JoinFilterView,
    id: usize,
    row: Seq<V>,
    at: Seq<int>,
)
    requires
        row.len() == own.len(),
    ensures
        semantics.project_row(side_projection(side, own, filter, id), row, at).len() == own.len()
            + pushed(filter.expression, filter.column_indices, side).len(),
        semantics.project_row(side_projection(side, own, filter, id), row, at).take(
            own.len() as int,
        ) == row,
{
    assert(semantics.project_row(side_projection(side, own, filter, id), row, at).take(
        own.len() as int,
    ) =~= row);
}

/// Pushing parts of the filter down into one side does not change the value of the filter for any
/// pair of rows, wherever the pushed parts are evaluated.
pub proof fn law_side_filter_value<V>(
    semantics: Semantics<V>,
    side: JoinSide,
    own: Seq<FieldView>,
    other: Seq<FieldView>,
    filter: JoinFilterView,
    id: usize,
    own_row: Seq<V>,
    other_row: Seq<V>,
    at: Seq<int>,
    elsewhere: Seq<int>,
)
    requires
        filter_fits(filter, side, own.len() as int, other.len() as int),
        own.len() + pushed(filter.expression, filter.column_indices, side).len() <= usize::MAX,
        own_row.len() == own.len(),
    ensures
        semantics.side_value(
            side_filter(side, own, other, filter, id),
            side,
            semantics.project_row(side_projection(side, own, filter, id), own_row, elsewhere),
            other_row,
            at,
        ) == semantics.side_value(filter, side, own_row, other_row, at),
{
    let column_indices = filter.column_indices;
    let exprs = pushed(filter.expression, column_indices, side);
    let projection = side_projection(side, own, filter, id);
    let new_filter = side_filter(side, own, other, filter, id);
    let new_own_row = semantics.project_row(projection, own_row, elsewhere);
    let row = match side {
        JoinSide::Left => semantics.intermediate_row(column_indices, own_row, other_row),
        JoinSide::Right => semantics.intermediate_row(column_indices, other_row, own_row),
    };
    let new_row = match side {
        JoinSide::Left => semantics.intermediate_row(
            new_filter.column_indices,
            new_own_row,
            other_row,
        ),
        JoinSide::Right => semantics.intermediate_row(
            new_filter.column_indices,
            other_row,
            new_own_row,
        ),
    };
    let first = column_indices.len() as int;
    assert forall|k: int| #[trigger] filter.expression.reads(k) implies new_row[k] == row[k] by {
        let origin = column_indices[k];
        assert(new_filter.column_indices[k] == origin);
        assert(match side {
            JoinSide::Left => origin.exists_in(own.len() as int, other.len() as int),
            JoinSide::Right => origin.exists_in(other.len() as int, own.len() as int),
        });
        if origin.side == side {
            assert(new_own_row[origin.index as int] == own_row[origin.index as int]);
        }
    }
    assert forall|j: int| 0 <= j < exprs.len() implies #[trigger] new_row[first + j]
        == semantics.eval(exprs[j], row, at) by {
        law_pushed(filter.expression, column_indices, side, j);
        let f = side_column(column_indices, own);
        assert(new_filter.column_indices[first + j].index == own.len() + j);
        assert(new_row[first + j] == new_own_row[own.len() + j]);
        assert(new_own_row[own.len() + j] == semantics.eval(
            exprs[j].mapped(f),
            own_row,
            elsewhere,
        ));
        assert forall|column: ColumnView| #[trigger] exprs[j].reads(column.index) implies own_row[f(
            column,
        ).index] == row[column.index] by {
            assert(filter.expression.reads(column.index));
            assert(column_indices[column.index].side != side.opposite());
        }
        lemma_eval_mapped(semantics, exprs[j], f, row, own_row, elsewhere);
        lemma_eval_anywhere(semantics, exprs[j], row, elsewhere, at);
    }
    law_replaced_value(
        semantics,
        filter.expression,
        column_indices,
        side,
        id,
        first,
        row,
        new_row,
        at,
    );
}

/// Leaving the columns out of the intermediate row that a filter does not refer to does not change
/// the value of the filter for any pair of rows.
pub proof fn law_minimized_value<V>(
    semantics: Semantics<V>,
    expr: ExprView,
    column_indices: Seq<ColumnIndex>,
    left: Seq<FieldView>,
    right: Seq<FieldView>,
    left_row: Seq<V>,
    right_row: Seq<V>,
    at: Seq<int>,
)
    requires
        expr.within(column_indices.len() as int),
    ensures
        semantics.filter_value(
            minimized(expr, column_indices, left, right),
            left_row,
            right_row,
            at,
        ) == semantics.eval(
            expr,
            semantics.intermediate_row(column_indices, left_row, right_row),
            at,
        ),
{
    let filter = minimized(expr, column_indices, left, right);
    let row = semantics.intermediate_row(column_indices, left_row, right_row);
    let new_row = semantics.intermediate_row(filter.column_indices, left_row, right_row);
    let f = renumbered(column_indices, expr);
    assert forall|column: ColumnView| #[trigger] expr.reads(column.index) implies new_row[f(
        column,
    ).index] == row[column.index] by {
        lemma_referenced(
            column_indices,
            expr,
            column.index as nat,
            column_indices.len(),
        );
    }
    lemma_eval_mapped(semantics, expr, f, row, new_row, at);
}

/// A minimized filter looks at every column of its intermediate row.
pub proof fn law_minimized_is_minimal(
    expr: ExprView,
    column_indices: Seq<ColumnIndex>,
    left: Seq<FieldView>,
    right: Seq<FieldView>,
    i: int,
)
    requires
        expr.within(column_indices.len() as int),
        0 <= i < minimized(expr, column_indices, left, right).column_indices.len(),
    ensures
        minimized(expr, column_indices, left, right).expression.reads(i),
{
    let m = lemma_referenced_origin(column_indices, expr, column_indices.len(), i);
    lemma_mapped_reads_back(expr, renumbered(column_indices, expr), m, i);
}

/// Where an expression referred to a column, it refers to its replacement afterwards.
proof fn lemma_mapped_reads_back(
    expr: ExprView,
    f: spec_fn(ColumnView) -> ColumnView,
    index: int,
    new_index: int,
)
    requires
        expr.reads(index),
        forall|column: ColumnView|
            column.index == index ==> (#[trigger] f(column)).index == new_index,
    ensures
        expr.mapped(f).reads(new_index),
    decreases expr,
{
    match expr {
        ExprView::Column(column) => {
            assert(f(column).index == new_index);
        },
        ExprView::Literal(_) => {},
        ExprView::Call { function, args } => {
            let i = choose|i: int| 0 <= i < args.len() && (#[trigger] args[i]).reads(index);
            lemma_mapped_reads_back(args[i], f, index, new_index);
            assert(expr.mapped(f)->args[i] == args[i].mapped(f));
            lemma_arg_reads(expr.mapped(f), i, new_index);
        },
    }
}

/// Whether `extended` describes an intermediate row that agrees with `column_indices` where the
/// expression refers to it, and has columns of the side for `count` pushed expressions from
/// position `first` on.
pub open spec fn makes_room(
    expr: ExprView,
    column_indices: Seq<ColumnIndex>,
    extended: Seq<ColumnIndex>,
    side: JoinSide,
    first: int,
    count: nat,
) -> bool {
    &&& forall|k: int| #[trigger]
        expr.reads(k) ==> 0 <= k < column_indices.len() && k < extended.len() && extended[k]
            == column_indices[k]
    &&& forall|j: int|
        first <= j < first + count ==> 0 <= j < extended.len() && (#[trigger] extended[j]).side
            == side
}

/// Replacing the pushed subexpressions by columns neither adds nor removes a dependency on a side,
/// and neither adds nor removes a volatile part.
pub proof fn law_replaced_dependencies(
    expr: ExprView,
    column_indices: Seq<ColumnIndex>,
    extended: Seq<ColumnIndex>,
    side: JoinSide,
    id: usize,
    first: int,
)
    requires
        makes_room(
            expr,
            column_indices,
            extended,
            side,
            first,
            pushed(expr, column_indices, side).len(),
        ),
    ensures
        ({
            let new = replaced(expr, column_indices, side, id, first);
            &&& forall|s: JoinSide| #[trigger]
                depends_on(new, extended, s) == depends_on(expr, column_indices, s)
            &&& new.volatile() == expr.volatile()
        }),
    decreases expr, 0nat,
{
    let new = replaced(expr, column_indices, side, id, first);
    if pushable(expr, column_indices, side) {
        assert(pushed(expr, column_indices, side).len() == 1);
        assert(new.reads(first));
        assert(extended[first].side == side);
        assert forall|s: JoinSide| #[trigger] depends_on(new, extended, s) == depends_on(
            expr,
            column_indices,
            s,
        ) by {
            assert(s == side || s == side.opposite());
        }
    } else {
        match expr {
            ExprView::Column(column) => {
                assert(expr.reads(column.index));
            },
            ExprView::Literal(_) => {},
            ExprView::Call { function, args } => {
                let new_args = replaced_all(args, column_indices, side, id, first);
                assert forall|i: int, k: int|
                    0 <= i < args.len() && #[trigger] args[i].reads(k) implies 0 <= k
                    < column_indices.len() && k < extended.len() && extended[k]
                    == column_indices[k] by {
                    lemma_arg_reads(expr, i, k);
                }
                lemma_replaced_all_dependencies(
                    args,
                    column_indices,
                    extended,
                    side,
                    id,
                    first,
                );
                assert forall|s: JoinSide| #[trigger] depends_on(new, extended, s) == depends_on(
                    expr,
                    column_indices,
                    s,
                ) by {
                    if depends_on(new, extended, s) && !depends_on(expr, column_indices, s) {
                        assert forall|i: int| 0 <= i < args.len() implies !depends_on(
                            #[trigger] new->args[i],
                            extended,
                            s,
                        ) by {
                            if depends_on(args[i], column_indices, s) {
                                lemma_arg_depends(expr, i, column_indices, s);
                            }
                        }
                        lemma_no_arg_depends(new, extended, s);
                    }
                    if !depends_on(new, extended, s) && depends_on(expr, column_indices, s) {
                        assert forall|i: int| 0 <= i < args.len() implies !depends_on(
                            #[trigger] expr->args[i],
                            column_indices,
                            s,
                        ) by {
                            if depends_on(new_args[i], extended, s) {
                                lemma_arg_depends(new, i, extended, s);
                            }
                        }
                        lemma_no_arg_depends(expr, column_indices, s);
                    }
                }
                if expr.volatile() && !function.volatile {
                    let i = choose|i: int| 0 <= i < args.len() && (#[trigger] args[i]).volatile();
                    assert(new->args[i].volatile());
                }
                if new.volatile() && !function.volatile {
                    let i = choose|i: int|
                        0 <= i < new_args.len() && (#[trigger] new_args[i]).volatile();
                    assert(expr->args[i].volatile());
                }
            },
        }
    }
}

proof fn lemma_replaced_all_dependencies(
    exprs: Seq<ExprView>,
    column_indices: Seq<ColumnIndex>,
    extended: Seq<ColumnIndex>,
    side: JoinSide,
    id: usize,
    first: int,
)
    requires
        forall|i: int, k: int|
            0 <= i < exprs.len() && #[trigger] exprs[i].reads(k) ==> 0 <= k < column_indices.len()
                && k < extended.len() && extended[k] == column_indices[k],
        forall|j: int|
            first <= j < first + pushed_all(exprs, column_indices, side).len() ==> 0 <= j
                < extended.len() && (#[trigger] extended[j]).side == side,
    ensures
        ({
            let new = replaced_all(exprs, column_indices, side, id, first);
            &&& new.len() == exprs.len()
            &&& forall|i: int, s: JoinSide|
                0 <= i < exprs.len() ==> #[trigger] depends_on(new[i], extended, s) == depends_on(
                    exprs[i],
                    column_indices,
                    s,
                )
            &&& forall|i: int|
                0 <= i < exprs.len() ==> (#[trigger] new[i]).volatile() == exprs[i].volatile()
        }),
    decreases exprs, exprs.len(),
{
    lemma_replaced_all_len(exprs, column_indices, side, id, first);
    if exprs.len() > 0 {
        let rest = exprs.drop_last();
        let last = exprs.last();
        let before = pushed_all(rest, column_indices, side).len();
        assert forall|i: int, k: int|
            0 <= i < rest.len() && #[trigger] rest[i].reads(k) implies 0 <= k
            < column_indices.len() && k < extended.len() && extended[k] == column_indices[k] by {
            assert(exprs[i].reads(k));
        }
        assert forall|k: int| #[trigger] last.reads(k) implies 0 <= k < column_indices.len() && k
            < extended.len() && extended[k] == column_indices[k] by {
            assert(exprs[exprs.len() - 1].reads(k));
        }
        lemma_replaced_all_dependencies(rest, column_indices, extended, side, id, first);
        law_replaced_dependencies(
            last,
            column_indices,
            extended,
            side,
            id_after(id, before),
            first + before,
        );
        let new = replaced_all(exprs, column_indices, side, id, first);
        let new_rest = replaced_all(rest, column_indices, side, id, first);
        assert forall|i: int| 0 <= i < rest.len() implies #[trigger] new[i] == new_rest[i]
            && exprs[i] == rest[i] by {}
    }
}

/// After the push-down into a side nothing is left in the filter that could be pushed down into
/// that side. Nor is there for the other side, if there was nothing before.
pub proof fn law_nothing_left_to_push(
    expr: ExprView,
    column_indices: Seq<ColumnIndex>,
    extended: Seq<ColumnIndex>,
    side: JoinSide,
    id: usize,
    first: int,
    target: JoinSide,
)
    requires
        makes_room(
            expr,
            column_indices,
            extended,
            side,
            first,
            pushed(expr, column_indices, side).len(),
        ),
        target == side || pushed(expr, column_indices, target).len() == 0,
    ensures
        pushed(replaced(expr, column_indices, side, id, first), extended, target).len() == 0,
    decreases expr, 0nat,
{
    let new = replaced(expr, column_indices, side, id, first);
    law_replaced_dependencies(expr, column_indices, extended, side, id, first);
    if !pushable(expr, column_indices, side) {
        assert(!pushable(expr, column_indices, target));
        if let ExprView::Call { function, args } = expr {
            lemma_replaced_all_len(args, column_indices, side, id, first);
            assert(depends_on(new, extended, target) == depends_on(expr, column_indices, target));
            assert(depends_on(new, extended, target.opposite()) == depends_on(
                expr,
                column_indices,
                target.opposite(),
            ));
            assert(!pushable(new, extended, target));
            assert forall|i: int, k: int|
                0 <= i < args.len() && #[trigger] args[i].reads(k) implies 0 <= k
                < column_indices.len() && k < extended.len() && extended[k]
                == column_indices[k] by {
                lemma_arg_reads(expr, i, k);
            }
            lemma_nothing_left_in_any(
                args,
                column_indices,
                extended,
                side,
                id,
                first,
                target,
            );
        }
    }
}

proof fn lemma_nothing_left_in_any(
    exprs: Seq<ExprView>,
    column_indices: Seq<ColumnIndex>,
    extended: Seq<ColumnIndex>,
    side: JoinSide,
    id: usize,
    first: int,
    target: JoinSide,
)
    requires
        forall|i: int, k: int|
            0 <= i < exprs.len() && #[trigger] exprs[i].reads(k) ==> 0 <= k < column_indices.len()
                && k < extended.len() && extended[k] == column_indices[k],
        forall|j: int|
            first <= j < first + pushed_all(exprs, column_indices, side).len() ==> 0 <= j
                < extended.len() && (#[trigger] extended[j]).side == side,
        target == side || pushed_all(exprs, column_indices, target).len() == 0,
    ensures
        pushed_all(
            replaced_all(exprs, column_indices, side, id, first),
            extended,
            target,
        ).len() == 0,
    decreases exprs, exprs.len(),
{
    if exprs.len() > 0 {
        let rest = exprs.drop_last();
        let last = exprs.last();
        let before = pushed_all(rest, column_indices, side).len();
        assert forall|i: int, k: int|
            0 <= i < rest.len() && #[trigger] rest[i].reads(k) implies 0 <= k
            < column_indices.len() && k < extended.len() && extended[k] == column_indices[k] by {
            assert(exprs[i].reads(k));
        }
        assert forall|k: int| #[trigger] last.reads(k) implies 0 <= k < column_indices.len() && k
            < extended.len() && extended[k] == column_indices[k] by {
            assert(exprs[exprs.len() - 1].reads(k));
        }
        lemma_nothing_left_in_any(rest, column_indices, extended, side, id, first, target);
        law_nothing_left_to_push(
            last,
            column_indices,
            extended,
            side,
            id_after(id, before),
            first + before,
            target,
        );
        let new = replaced_all(exprs, column_indices, side, id, first);
        assert(new.drop_last() =~= replaced_all(rest, column_indices, side, id, first));
    }
}

/// Moving columns to other positions, on the same sides, does not change what can be pushed down.
pub proof fn law_moved_columns_push_alike(
    expr: ExprView,
    f: spec_fn(ColumnView) -> ColumnView,
    column_indices: Seq<ColumnIndex>,
    new_column_indices: Seq<ColumnIndex>,
    side: JoinSide,
)
    requires
        forall|column: ColumnView| #[trigger]
            expr.reads(column.index) ==> 0 <= column.index < column_indices.len() && 0 <= f(
                column,
            ).index < new_column_indices.len() && new_column_indices[f(column).index].side
                == column_indices[column.index].side,
    ensures
        forall|s: JoinSide| #[trigger]
            depends_on(expr.mapped(f), new_column_indices, s) == depends_on(
                expr,
                column_indices,
                s,
            ),
        expr.mapped(f).volatile() == expr.volatile(),
        pushed(expr.mapped(f), new_column_indices, side).len() == pushed(
            expr,
            column_indices,
            side,
        ).len(),
    decreases expr,
{
    let new = expr.mapped(f);
    match expr {
        ExprView::Column(column) => {
            assert(expr.reads(column.index));
            assert(new.reads(f(column).index));
        },
        ExprView::Literal(_) => {},
        ExprView::Call { function, args } => {
            let new_args = new->args;
            assert forall|i: int| 0 <= i < args.len() implies {
                &&& forall|s: JoinSide|
                    depends_on(#[trigger] new_args[i], new_column_indices, s) == depends_on(
                        args[i],
                        column_indices,
                        s,
                    )
                &&& new_args[i].volatile() == args[i].volatile()
                &&& pushed(new_args[i], new_column_indices, side).len() == pushed(
                    args[i],
                    column_indices,
                    side,
                ).len()
            } by {
                assert forall|column: ColumnView| #[trigger]
                    args[i].reads(column.index) implies 0 <= column.index < column_indices.len()
                    && 0 <= f(column).index < new_column_indices.len() && new_column_indices[f(
                    column,
                ).index].side == column_indices[column.index].side by {
                    lemma_arg_reads(expr, i, column.index);
                }
                law_moved_columns_push_alike(
                    args[i],
                    f,
                    column_indices,
                    new_column_indices,
                    side,
                );
            }
            assert forall|s: JoinSide| #[trigger]
                depends_on(new, new_column_indices, s) == depends_on(expr, column_indices, s) by {
                if depends_on(new, new_column_indices, s) && !depends_on(
                    expr,
                    column_indices,
                    s,
                ) {
                    assert forall|i: int| 0 <= i < args.len() implies !depends_on(
                        #[trigger] new->args[i],
                        new_column_indices,
                        s,
                    ) by {
                        if depends_on(args[i], column_indices, s) {
                            lemma_arg_depends(expr, i, column_indices, s);
                        }
                    }
                    lemma_no_arg_depends(new, new_column_indices, s);
                }
                if !depends_on(new, new_column_indices, s) && depends_on(
                    expr,
                    column_indices,
                    s,
                ) {
                    assert forall|i: int| 0 <= i < args.len() implies !depends_on(
                        #[trigger] expr->args[i],
                        column_indices,
                        s,
                    ) by {
                        if depends_on(new_args[i], new_column_indices, s) {
                            lemma_arg_depends(new, i, new_column_indices, s);
                        }
                    }
                    lemma_no_arg_depends(expr, column_indices, s);
                }
            }
            if expr.volatile() && !function.volatile {
                let i = choose|i: int| 0 <= i < args.len() && (#[trigger] args[i]).volatile();
                assert(new->args[i].volatile());
            }
            if new.volatile() && !function.volatile {
                let i = choose|i: int|
                    0 <= i < new_args.len() && (#[trigger] new_args[i]).volatile();
                assert(expr->args[i].volatile());
            }
            lemma_pushed_all_len(args, new_args, column_indices, new_column_indices, side);
            assert(depends_on(new, new_column_indices, side) == depends_on(
                expr,
                column_indices,
                side,
            ));
            assert(depends_on(new, new_column_indices, side.opposite()) == depends_on(
                expr,
                column_indices,
                side.opposite(),
            ));
        },
    }
}

proof fn lemma_pushed_all_len(
    exprs: Seq<ExprView>,
    new_exprs: Seq<ExprView>,
    column_indices: Seq<ColumnIndex>,
    new_column_indices: Seq<ColumnIndex>,
    side: JoinSide,
)
    requires
        exprs.len() == new_exprs.len(),
        forall|i: int|
            0 <= i < exprs.len() ==> pushed(
                #[trigger] new_exprs[i],
                new_column_indices,
                side,
            ).len() == pushed(exprs[i], column_indices, side).len(),
    ensures
        pushed_all(new_exprs, new_column_indices, side).len() == pushed_all(
            exprs,
            column_indices,
            side,
        ).len(),
    decreases exprs.len(),
{
    if exprs.len() > 0 {
        assert forall|i: int| 0 <= i < exprs.drop_last().len() implies pushed(
            #[trigger] new_exprs.drop_last()[i],
            new_column_indices,
            side,
        ).len() == pushed(exprs.drop_last()[i], column_indices, side).len() by {
            assert(new_exprs.drop_last()[i] == new_exprs[i]);
        }
        assert(pushed(new_exprs[exprs.len() - 1], new_column_indices, side).len() == pushed(
            exprs[exprs.len() - 1],
            column_indices,
            side,
        ).len());
        lemma_pushed_all_len(
            exprs.drop_last(),
            new_exprs.drop_last(),
            column_indices,
            new_column_indices,
            side,
        );
    }
}

/// The aliases of all expressions that are pushed down out of one filter, first into the left side
/// and then into the right side, differ from each other.
pub proof fn law_join_aliases_distinct(
    left_exprs: Seq<ExprView>,
    right_exprs: Seq<ExprView>,
    left_indices: Seq<ColumnIndex>,
    right_indices: Seq<ColumnIndex>,
    left: Seq<FieldView>,
    right: Seq<FieldView>,
    id: usize,
)
    requires
        left_exprs.len() + right_exprs.len() <= usize::MAX,
    ensures
        ({
            let all = pushed_projections(left_exprs, left_indices, left, id) + pushed_projections(
                right_exprs,
                right_indices,
                right,
                id_after(id, left_exprs.len()),
            );
            forall|i: int, j: int|
                0 <= i < j < all.len() ==> (#[trigger] all[i]).alias != (#[trigger] all[j]).alias
        }),
{
    let all = pushed_projections(left_exprs, left_indices, left, id) + pushed_projections(
        right_exprs,
        right_indices,
        right,
        id_after(id, left_exprs.len()),
    );
    assert forall|i: int| 0 <= i < all.len() implies (#[trigger] all[i]).alias == alias_name(
        JOIN_ALIAS_PREFIX@,
        id_after(id, i as nat),
    ) by {
        if i >= left_exprs.len() {
            lemma_id_after_add(id, left_exprs.len(), (i - left_exprs.len()) as nat);
        }
    }
    assert forall|i: int, j: int| 0 <= i < j < all.len() implies (#[trigger] all[i]).alias != (
    #[trigger] all[j]).alias by {
        lemma_aliases_distinct(JOIN_ALIAS_PREFIX@, id, i as nat, j as nat);
    }
}

/// Rewriting what came out of a rewriter once more on the same rewriter is possible, and changes
/// nothing: neither the expression nor the columns of the side nor the intermediate row.
pub proof fn law_rewritten_once(
    before: JoinFilterRewriter<'_>,
    expr: ExprView,
    id: usize,
    after: JoinFilterRewriter<'_>,
    next_id: usize,
    result: Transformed<Arc<Expr>>,
    last: JoinFilterRewriter<'_>,
    last_id: usize,
    again: Transformed<Arc<Expr>>,
)
    requires
        readable(
            expr,
            before.intermediate_column_indices@,
            before.join_side,
            before.join_side_schema@.len() as int,
        ),
        before.rewrites(expr, id, after, next_id, result),
    ensures
        readable(
            result.data@,
            after.intermediate_column_indices@,
            after.join_side,
            after.join_side_schema@.len() as int,
        ),
        after.rewrites(result.data@, next_id, last, last_id, again) ==> {
            &&& !again.transformed
            &&& again.data@ == result.data@
            &&& last.join_side == after.join_side
            &&& last.join_side_schema == after.join_side_schema
            &&& projection_views(last.join_side_projections@) == projection_views(
                after.join_side_projections@,
            )
            &&& last.intermediate_column_indices@ == after.intermediate_column_indices@
            &&& last_id == next_id
        },
{
    let side = before.join_side;
    let column_indices = before.intermediate_column_indices@;
    let extended = after.intermediate_column_indices@;
    let first = column_indices.len() as int;
    let new = result.data@;
    law_nothing_left_to_push(expr, column_indices, extended, side, id, first, side);
    lemma_nothing_replaced(new, extended, side, next_id, extended.len() as int);
    assert forall|k: int| #[trigger] new.reads(k) implies 0 <= k < extended.len() by {
        lemma_replaced_reads(expr, column_indices, side, id, first, k);
    }
    let exprs = pushed(new, extended, side);
    let columns = projection_views(after.join_side_projections@);
    assert(columns + pushed_projections(exprs, extended, after.join_side_schema@, next_id)
        =~= columns);
    assert(extended + pushed_indices(exprs.len(), columns.len() as int, side) =~= extended);
}

} // verus!
