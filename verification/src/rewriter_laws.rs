use crate::aliases::{alias_name, id_after, lemma_id_after_add};
use crate::expr::{ColumnView, Expr, ExprView};
use crate::join::{ColumnIndex, JoinSide};
use crate::join_tree_laws::on_input;
use crate::parts::{computable_on, law_pushable};
use crate::projection::projection_views;
use crate::rewriter::{
    lemma_arg_reads, lemma_mapped_same, pushable, pushed, pushed_all, pushed_projections, replaced,
    replaced_all, side_column, JoinFilterRewriter, Transformed, JOIN_ALIAS_PREFIX,
};
use std::sync::Arc;
use vstd::prelude::*;

verus! {

/// Whether a path leads inside of a part of an expression that can be computed on one side of the
/// join alone.
pub open spec fn inside_computable(
    expr: ExprView,
    path: Seq<int>,
    column_indices: Seq<ColumnIndex>,
    side: JoinSide,
) -> bool
    decreases path.len(),
{
    path.len() > 0 && (computable_on(expr, column_indices, side) || inside_computable(
        expr->args[path[0]],
        path.drop_first(),
        column_indices,
        side,
    ))
}

/// Whether a rewriter has put a column in the place of a part of an expression: the column is new
/// in the intermediate row, and comes from a column that was added to the side, which has the same
/// name and computes the part.
pub open spec fn column_for(
    node: ExprView,
    new: ExprView,
    before: JoinFilterRewriter<'_>,
    after: JoinFilterRewriter<'_>,
) -> bool {
    let column_indices = before.intermediate_column_indices@;
    let new_indices = after.intermediate_column_indices@;
    let columns = projection_views(after.join_side_projections@);
    &&& new is Column
    &&& column_indices.len() <= new->Column_0.index < new_indices.len()
    &&& ({
        let origin = new_indices[new->Column_0.index];
        &&& origin.side == before.join_side
        &&& before.join_side_projections@.len() <= origin.index < columns.len()
        &&& columns[origin.index as int].alias == new->Column_0.name
        &&& columns[origin.index as int].expr == node.mapped(
            on_input(column_indices, before.join_side_schema@),
        )
    })
}

proof fn lemma_replaced_one(
    exprs: Seq<ExprView>,
    column_indices: Seq<ColumnIndex>,
    side: JoinSide,
    id: usize,
    first: int,
    i: int,
) -> (before: nat)
    requires
        0 <= i < exprs.len(),
    ensures
        replaced_all(exprs, column_indices, side, id, first).len() == exprs.len(),
        replaced_all(exprs, column_indices, side, id, first)[i] == replaced(
            exprs[i],
            column_indices,
            side,
            id_after(id, before),
            first + before,
        ),
        before + pushed(exprs[i], column_indices, side).len() <= pushed_all(
            exprs,
            column_indices,
            side,
        ).len(),
        forall|j: int|
            0 <= j < pushed(exprs[i], column_indices, side).len() ==> #[trigger] pushed(
                exprs[i],
                column_indices,
                side,
            )[j] == pushed_all(exprs, column_indices, side)[before + j],
    decreases exprs.len(),
{
    let rest = exprs.drop_last();
    lemma_replaced_len(rest, column_indices, side, id, first);
    if i < rest.len() {
        lemma_replaced_one(rest, column_indices, side, id, first, i)
    } else {
        pushed_all(rest, column_indices, side).len()
    }
}

proof fn lemma_replaced_len(
    exprs: Seq<ExprView>,
    column_indices: Seq<ColumnIndex>,
    side: JoinSide,
    id: usize,
    first: int,
)
    ensures
        replaced_all(exprs, column_indices, side, id, first).len() == exprs.len(),
    decreases exprs.len(),
{
    if exprs.len() > 0 {
        lemma_replaced_len(exprs.drop_last(), column_indices, side, id, first);
    }
}

/// Whether a node is kept, but for what it has for arguments.
pub open spec fn kept_node(node: ExprView, new: ExprView) -> bool {
    match node {
        ExprView::Call { function, args } => {
            &&& new is Call
            &&& new->function == function
            &&& new->args.len() == args.len()
        },
        _ => new == node,
    }
}

proof fn lemma_replaced_at(
    expr: ExprView,
    column_indices: Seq<ColumnIndex>,
    side: JoinSide,
    id: usize,
    first: int,
    path: Seq<int>,
) -> (j: int)
    requires
        expr.within(column_indices.len() as int),
        expr.at(path) is Some,
        !inside_computable(expr, path, column_indices, side),
    ensures
        ({
            let node = expr.at(path)->0;
            let new = replaced(expr, column_indices, side, id, first).at(path);
            let exprs = pushed(expr, column_indices, side);
            &&& new is Some
            &&& if computable_on(node, column_indices, side) {
                &&& 0 <= j < exprs.len()
                &&& exprs[j] == node
                &&& new->0 == ExprView::Column(
                    ColumnView {
                        name: alias_name(JOIN_ALIAS_PREFIX@, id_after(id, j as nat)),
                        index: first + j,
                    },
                )
            } else {
                kept_node(node, new->0)
            }
        }),
    decreases expr,
{
    law_pushable(expr, column_indices, side);
    if pushable(expr, column_indices, side) {
        assert(id_after(id, 0) == id);
        0
    } else if path.len() == 0 {
        if let ExprView::Call { function, args } = expr {
            lemma_replaced_len(args, column_indices, side, id, first);
        }
        0
    } else {
        let args = expr->args;
        let i = path[0];
        assert forall|k: int| #[trigger] args[i].reads(k) implies 0 <= k
            < column_indices.len() by {
            lemma_arg_reads(expr, i, k);
        }
        let before = lemma_replaced_one(args, column_indices, side, id, first, i);
        let j = lemma_replaced_at(
            args[i],
            column_indices,
            side,
            id_after(id, before),
            first + before,
            path.drop_first(),
        );
        if j >= 0 {
            lemma_id_after_add(id, before, j as nat);
        }
        before + j
    }
}

/// A rewriter puts a column in the place of every largest part of an expression that can be
/// computed on its side alone, wherever it stands, and adds a column to the side that computes the
/// part. Everything else in the expression stays.
pub proof fn law_rewriter_at(
    before: JoinFilterRewriter<'_>,
    expr: ExprView,
    id: usize,
    after: JoinFilterRewriter<'_>,
    next_id: usize,
    result: Transformed<Arc<Expr>>,
    path: Seq<int>,
)
    requires
        expr.within(before.intermediate_column_indices@.len() as int),
        before.rewrites(expr, id, after, next_id, result),
        projection_views(after.join_side_projections@).len() <= usize::MAX,
        expr.at(path) is Some,
        !inside_computable(
            expr,
            path,
            before.intermediate_column_indices@,
            before.join_side,
        ),
    ensures
        result.data@.at(path) is Some,
        ({
            let node = expr.at(path)->0;
            let new = result.data@.at(path)->0;
            if computable_on(node, before.intermediate_column_indices@, before.join_side) {
                column_for(node, new, before, after)
            } else {
                kept_node(node, new)
            }
        }),
{
    let column_indices = before.intermediate_column_indices@;
    let side = before.join_side;
    let own = before.join_side_schema@;
    let first = column_indices.len() as int;
    let j = lemma_replaced_at(expr, column_indices, side, id, first, path);
    let node = expr.at(path)->0;
    if computable_on(node, column_indices, side) {
        let exprs = pushed(expr, column_indices, side);
        let old_columns = projection_views(before.join_side_projections@);
        let columns = projection_views(after.join_side_projections@);
        let added = pushed_projections(exprs, column_indices, own, id);
        assert(columns[old_columns.len() + j] == added[j]);
        let f = side_column(column_indices, own);
        let g = on_input(column_indices, own);
        assert forall|column: ColumnView| #[trigger] node.reads(column.index) implies f(column)
            == g(column) by {}
        lemma_mapped_same(node, f, g);
    }
}

} // verus!
