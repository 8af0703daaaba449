use crate::aliases::{id_after, Aliases};
use crate::expr::{group_trees, trees, Column, ColumnView, Expr, ExprView};
use crate::join::{ColumnIndex, JoinFilter, JoinFilterView, JoinSide};
use crate::plan::{exprs_fit, Plan, PlanView};
use crate::projection::{project_schema, projected, projection_views, ProjectionExprView};
use crate::rewriter::{
    law_pushed, lemma_arg_reads, lemma_mapped_reads, lemma_mapped_same, lemma_replaced_reads,
    pass_through, pushed, pushed_indices, pushed_projections, replaced, side_column,
    JoinFilterRewriter, Transformed,
};
use crate::schema::{Field, FieldView, Schema};
use std::sync::Arc;
use vstd::prelude::*;

verus! {

/// The fields of the intermediate row.
pub open spec fn intermediate_fields(
    column_indices: Seq<ColumnIndex>,
    left: Seq<FieldView>,
    right: Seq<FieldView>,
) -> Seq<FieldView> {
    column_indices.map_values(
        |column: ColumnIndex|
            match column.side {
                JoinSide::Left => left[column.index as int],
                JoinSide::Right => right[column.index as int],
            },
    )
}

/// The fields of the intermediate row.
fn intermediate_schema(
    column_indices: &Vec<ColumnIndex>,
    left: &Schema,
    right: &Schema,
) -> (schema: Schema)
    requires
        forall|i: int|
            0 <= i < column_indices.len() ==> (#[trigger] column_indices@[i]).exists_in(
                left@.len() as int,
                right@.len() as int,
            ),
    ensures
        schema@ == intermediate_fields(column_indices@, left@, right@),
{
    let mut fields: Vec<Field> = Vec::new();
    for i in 0..column_indices.len()
        invariant
            forall|i: int|
                0 <= i < column_indices.len() ==> (#[trigger] column_indices@[i]).exists_in(
                    left@.len() as int,
                    right@.len() as int,
                ),
            fields.len() == i,
            forall|j: int|
                0 <= j < i ==> (#[trigger] fields@[j])@ == intermediate_fields(
                    column_indices@,
                    left@,
                    right@,
                )[j],
    {
        let column = column_indices[i];
        assert(column.exists_in(left@.len() as int, right@.len() as int));
        match column.side {
            JoinSide::Left => fields.push(left.fields[column.index].clone()),
            JoinSide::Right => fields.push(right.fields[column.index].clone()),
        }
    }
    let schema = Schema { fields };
    assert(schema@ =~= intermediate_fields(column_indices@, left@, right@));
    schema
}

/// The origins of those of the first `n` columns of the intermediate row that the expression
/// refers to.
pub open spec fn referenced(
    column_indices: Seq<ColumnIndex>,
    expr: ExprView,
    n: nat,
) -> Seq<ColumnIndex>
    decreases n,
{
    if n == 0 {
        seq![]
    } else {
        let before = referenced(column_indices, expr, (n - 1) as nat);
        if expr.reads(n - 1) {
            before.push(column_indices[n - 1])
        } else {
            before
        }
    }
}

/// Where a column is once the columns that the expression does not refer to are gone.
pub open spec fn renumbered(
    column_indices: Seq<ColumnIndex>,
    expr: ExprView,
) -> spec_fn(ColumnView) -> ColumnView {
    |column: ColumnView|
        ColumnView {
            name: column.name,
            index: referenced(column_indices, expr, column.index as nat).len() as int,
        }
}

/// The filter over an intermediate row of the columns that it refers to, and no others.
pub open spec fn minimized(
    expr: ExprView,
    column_indices: Seq<ColumnIndex>,
    left: Seq<FieldView>,
    right: Seq<FieldView>,
) -> JoinFilterView {
    let new_column_indices = referenced(column_indices, expr, column_indices.len());
    JoinFilterView {
        expression: expr.mapped(renumbered(column_indices, expr)),
        column_indices: new_column_indices,
        schema: intermediate_fields(new_column_indices, left, right),
    }
}

/// Marks the columns that the expression refers to.
fn mark_columns(expr: &Expr, used: &mut Vec<bool>)
    requires
        expr@.within(old(used).len() as int),
    ensures
        final(used).len() == old(used).len(),
        forall|i: int|
            0 <= i < old(used).len() ==> (#[trigger] final(used)@[i]) == (old(used)@[i]
                || expr@.reads(i)),
    decreases expr,
{
    broadcast use group_trees;

    match expr {
        Expr::Column(column) => {
            assert(expr@.reads(column.index as int));
            used[column.index] = true;
            assert(expr@ == ExprView::Column(column@));
        },
        Expr::Literal(_) => {},
        Expr::Call { function, args } => {
            assert(expr@ == ExprView::Call { function: *function, args: trees(args@) });
            for j in 0..args.len()
                invariant
                    expr@.within(old(used).len() as int),
                    expr@ == (ExprView::Call { function: *function, args: trees(args@) }),
                    trees(args@).len() == args.len(),
                    decreases_to!(expr => args),
                    used.len() == old(used).len(),
                    forall|i: int|
                        0 <= i < used.len() ==> (#[trigger] used@[i]) == (old(used)@[i] || exists|
                            k: int,
                        |
                            0 <= k < j && (#[trigger] trees(args@)[k]).reads(i)),
            {
                let ghost before = used@;
                assert forall|i: int| #[trigger] args@[j as int]@.reads(i) implies 0 <= i
                    < used.len() by {
                    assert(trees(args@)[j as int] == args@[j as int]@);
                    lemma_arg_reads(expr@, j as int, i);
                }
                mark_columns(&args[j], used);
                assert forall|i: int| 0 <= i < used.len() implies (#[trigger] used@[i]) == (old(
                    used,
                )@[i] || exists|k: int|
                    0 <= k < j + 1 && (#[trigger] trees(args@)[k]).reads(i)) by {
                    assert(before[i] == (old(used)@[i] || exists|k: int|
                        0 <= k < j && (#[trigger] trees(args@)[k]).reads(i)));
                    if args@[j as int]@.reads(i) {
                        assert(trees(args@)[j as int].reads(i));
                    }
                }
            }
            assert forall|i: int| 0 <= i < used.len() implies (#[trigger] used@[i]) == (old(
                used,
            )@[i] || expr@.reads(i)) by {
                if expr@.reads(i) {
                    let k = choose|k: int|
                        0 <= k < trees(args@).len() && (#[trigger] trees(args@)[k]).reads(i);
                    assert(trees(args@)[k].reads(i));
                }
                if exists|k: int| 0 <= k < args.len() && (#[trigger] trees(args@)[k]).reads(i) {
                    let k = choose|k: int|
                        0 <= k < args.len() && (#[trigger] trees(args@)[k]).reads(i);
                    lemma_arg_reads(expr@, k, i);
                }
            }
        },
    }
}

/// Moves a column to its new position.
spec fn moved(positions: Seq<usize>) -> spec_fn(ColumnView) -> ColumnView {
    |column: ColumnView|
        ColumnView { name: column.name, index: positions[column.index] as int }
}

/// Moves each column of the expression to its new position.
fn renumber_columns(expr: &Arc<Expr>, positions: &Vec<usize>) -> (result: Arc<Expr>)
    requires
        expr@.within(positions.len() as int),
    ensures
        result@ == expr@.mapped(moved(positions@)),
    decreases expr,
{
    broadcast use group_trees;

    let ghost f = moved(positions@);
    match &**expr {
        Expr::Column(column) => {
            assert(expr@.reads(column.index as int));
            Arc::new(Expr::Column(Column::new(&column.name, positions[column.index])))
        },
        Expr::Literal(_) => Arc::clone(expr),
        Expr::Call { function, args } => {
            assert(expr@ == ExprView::Call { function: *function, args: trees(args@) });
            let mut new_args: Vec<Arc<Expr>> = Vec::new();
            for i in 0..args.len()
                invariant
                    expr@.within(positions.len() as int),
                    expr@ == (ExprView::Call { function: *function, args: trees(args@) }),
                    trees(args@).len() == args.len(),
                    decreases_to!(expr => args),
                    f == moved(positions@),
                    new_args.len() == i,
                    forall|j: int|
                        0 <= j < i ==> (#[trigger] new_args@[j])@ == trees(args@)[j].mapped(f),
            {
                assert forall|k: int| #[trigger] args@[i as int]@.reads(k) implies 0 <= k
                    < positions.len() by {
                    assert(trees(args@)[i as int] == args@[i as int]@);
                    lemma_arg_reads(expr@, i as int, k);
                }
                new_args.push(renumber_columns(&args[i], positions));
            }
            let result = Arc::new(Expr::Call { function: *function, args: new_args });
            assert(result@ == ExprView::Call { function: *function, args: trees(new_args@) });
            assert(trees(new_args@) =~= expr@.mapped(f)->args);
            result
        },
    }
}

/// Creates a new [`JoinFilter`] and tries to minimize the intermediate row.
///
/// This eliminates columns that were only part of a computation that has been pushed down. As this
/// computation is now done on one side of the join, its input columns are not needed anymore.
pub fn minimize_join_filter(
    expr: &Arc<Expr>,
    old_column_indices: &Vec<ColumnIndex>,
    lhs_schema: &Schema,
    rhs_schema: &Schema,
) -> (filter: JoinFilter)
    requires
        expr@.within(old_column_indices.len() as int),
        forall|i: int| #[trigger]
            expr@.reads(i) ==> old_column_indices@[i].exists_in(
                lhs_schema@.len() as int,
                rhs_schema@.len() as int,
            ),
    ensures
        filter@ == minimized(expr@, old_column_indices@, lhs_schema@, rhs_schema@),
{
    let mut used: Vec<bool> = Vec::new();
    for i in 0..old_column_indices.len()
        invariant
            used.len() == i,
            forall|j: int| 0 <= j < i ==> !used@[j],
    {
        used.push(false);
    }
    mark_columns(expr, &mut used);

    let mut column_indices: Vec<ColumnIndex> = Vec::new();
    let mut positions: Vec<usize> = Vec::new();
    for i in 0..old_column_indices.len()
        invariant
            used.len() == old_column_indices.len(),
            forall|j: int| 0 <= j < used.len() ==> (#[trigger] used@[j]) == expr@.reads(j),
            forall|i: int| #[trigger]
                expr@.reads(i) ==> old_column_indices@[i].exists_in(
                    lhs_schema@.len() as int,
                    rhs_schema@.len() as int,
                ),
            column_indices@ == referenced(old_column_indices@, expr@, i as nat),
            forall|j: int|
                0 <= j < column_indices.len() ==> (#[trigger] column_indices@[j]).exists_in(
                    lhs_schema@.len() as int,
                    rhs_schema@.len() as int,
                ),
            positions.len() == i,
            forall|j: int|
                0 <= j < i ==> #[trigger] positions@[j] == referenced(
                    old_column_indices@,
                    expr@,
                    j as nat,
                ).len(),
    {
        positions.push(column_indices.len());
        if used[i] {
            assert(expr@.reads(i as int));
            column_indices.push(old_column_indices[i]);
        }
    }
    let schema = intermediate_schema(&column_indices, lhs_schema, rhs_schema);
    let expression = renumber_columns(expr, &positions);
    proof {
        lemma_mapped_same(expr@, moved(positions@), renumbered(old_column_indices@, expr@));
    }
    JoinFilter { expression, column_indices, schema }
}

/// What a side of the join computes after the parts of the filter that depend on it alone have
/// been pushed down: all its columns `own`, and after them the pushed expressions.
pub open spec fn side_projection(
    side: JoinSide,
    own: Seq<FieldView>,
    filter: JoinFilterView,
    id: usize,
) -> Seq<ProjectionExprView> {
    pass_through(own) + pushed_projections(
        pushed(filter.expression, filter.column_indices, side),
        filter.column_indices,
        own,
        id,
    )
}

/// The filter after the parts that depend on one side alone have been pushed down. `own` are the
/// fields of that side before, and `other` the fields of the other side.
pub open spec fn side_filter(
    side: JoinSide,
    own: Seq<FieldView>,
    other: Seq<FieldView>,
    filter: JoinFilterView,
    id: usize,
) -> JoinFilterView {
    let exprs = pushed(filter.expression, filter.column_indices, side);
    let column_indices = filter.column_indices + pushed_indices(
        exprs.len(),
        own.len() as int,
        side,
    );
    let new_own = projected(side_projection(side, own, filter, id), own);
    JoinFilterView {
        expression: replaced(
            filter.expression,
            filter.column_indices,
            side,
            id,
            filter.column_indices.len() as int,
        ),
        column_indices,
        schema: match side {
            JoinSide::Left => intermediate_fields(column_indices, new_own, other),
            JoinSide::Right => intermediate_fields(column_indices, other, new_own),
        },
    }
}

/// Whether the filter stays within a side with `own` columns and its opposite with `other`.
pub open spec fn filter_fits(
    filter: JoinFilterView,
    side: JoinSide,
    own: int,
    other: int,
) -> bool {
    match side {
        JoinSide::Left => filter.fits(own, other),
        JoinSide::Right => filter.fits(other, own),
    }
}

/// Tries to push down parts of the filter into the `join_side`, which `plan` computes.
pub fn try_push_down_projection(
    other_schema: &Schema,
    plan: &Arc<Plan>,
    join_side: JoinSide,
    join_filter: JoinFilter,
    aliases: &mut Aliases,
) -> (result: Transformed<(Arc<Plan>, JoinFilter)>)
    requires
        plan@.well_formed(),
        filter_fits(
            join_filter@,
            join_side,
            plan@.fields().len() as int,
            other_schema@.len() as int,
        ),
    ensures
        ({
            let own = plan@.fields();
            let id = old(aliases).counter();
            let count = pushed(
                join_filter@.expression,
                join_filter@.column_indices,
                join_side,
            ).len();
            &&& result.transformed == (count > 0)
            &&& final(aliases).counter() == id_after(id, count)
            &&& result.transformed ==> {
                &&& result.data.0@ == PlanView::Projection {
                    operator: None,
                    exprs: side_projection(join_side, own, join_filter@, id),
                    input: Box::new(plan@),
                }
                &&& result.data.1@ == side_filter(
                    join_side,
                    own,
                    other_schema@,
                    join_filter@,
                    id,
                )
            }
            &&& !result.transformed ==> result.data.0 == *plan && result.data.1@ == join_filter@
        }),
        result.data.0@.fields().len() <= usize::MAX,
{
    let schema = plan.schema();
    assert(schema@.len() == schema.fields.len());
    let ghost own = schema@;
    let ghost id = aliases.counter();
    let JoinFilter { expression, column_indices, schema: filter_schema } = join_filter;
    let ghost old_indices = column_indices@;
    let ghost exprs = pushed(expression@, old_indices, join_side);
    let mut rewriter = JoinFilterRewriter::new(join_side, &schema, column_indices);
    assert forall|j: int, i: int|
        0 <= j < exprs.len() && #[trigger] exprs[j].reads(i) implies old_indices[i].index
        < own.len() by {
        law_pushed(expression@, old_indices, join_side, j);
        assert(expression@.reads(i));
        assert(old_indices[i].side != join_side.opposite());
        assert(match join_side {
            JoinSide::Left => old_indices[i].exists_in(
                own.len() as int,
                other_schema@.len() as int,
            ),
            JoinSide::Right => old_indices[i].exists_in(
                other_schema@.len() as int,
                own.len() as int,
            ),
        });
    }
    let new_expr = rewriter.rewrite(&expression, aliases);
    if !new_expr.transformed {
        assert(rewriter.intermediate_column_indices@ =~= old_indices);
        let filter = JoinFilter {
            expression,
            column_indices: rewriter.intermediate_column_indices,
            schema: filter_schema,
        };
        return Transformed { data: (Arc::clone(plan), filter), transformed: false };
    }
    proof {
        assert(projection_views(rewriter.join_side_projections@).len()
            == rewriter.join_side_projections.len());
        lemma_side_push_down(join_side, own, other_schema@, join_filter@, id);
    }
    let exprs = rewriter.join_side_projections;
    assert forall|i: int| 0 <= i < exprs.len() implies (#[trigger] exprs@[i])@.expr.within(
        own.len() as int,
    ) by {
        assert(projection_views(exprs@)[i] == exprs@[i]@);
    }
    let new_schema = project_schema(&exprs, &schema);
    let column_indices = rewriter.intermediate_column_indices;
    let filter_schema = match join_side {
        JoinSide::Left => intermediate_schema(&column_indices, &new_schema, other_schema),
        JoinSide::Right => intermediate_schema(&column_indices, other_schema, &new_schema),
    };
    let new_plan = Plan::Projection {
        operator: None,
        exprs: Arc::new(exprs),
        input: Arc::clone(plan),
    };
    let filter = JoinFilter { expression: new_expr.data, column_indices, schema: filter_schema };
    Transformed { data: (Arc::new(new_plan), filter), transformed: true }
}

/// The projection of the side stays within the side, keeps its fields and adds one for each pushed
/// expression, and the new filter stays within the new side.
pub proof fn lemma_side_push_down(
    side: JoinSide,
    own: Seq<FieldView>,
    other: Seq<FieldView>,
    filter: JoinFilterView,
    id: usize,
)
    requires
        filter_fits(filter, side, own.len() as int, other.len() as int),
        own.len() + pushed(filter.expression, filter.column_indices, side).len() <= usize::MAX,
    ensures
        ({
            let exprs = pushed(filter.expression, filter.column_indices, side);
            let projection = side_projection(side, own, filter, id);
            let new_own = projected(projection, own);
            &&& exprs_fit(projection, own.len() as int)
            &&& new_own.len() == own.len() + exprs.len()
            &&& new_own.take(own.len() as int) == own
            &&& filter_fits(
                side_filter(side, own, other, filter, id),
                side,
                new_own.len() as int,
                other.len() as int,
            )
        }),
{
    let column_indices = filter.column_indices;
    let exprs = pushed(filter.expression, column_indices, side);
    let projection = side_projection(side, own, filter, id);
    let new_own = projected(projection, own);
    let new_filter = side_filter(side, own, other, filter, id);
    assert forall|i: int| 0 <= i < projection.len() implies (#[trigger] projection[i]).expr.within(
        own.len() as int,
    ) by {
        if i >= own.len() {
            let j = i - own.len();
            law_pushed(filter.expression, column_indices, side, j);
            assert forall|k: int| #[trigger] projection[i].expr.reads(k) implies 0 <= k
                < own.len() by {
                let column = lemma_mapped_reads(exprs[j], side_column(column_indices, own), k);
                assert(filter.expression.reads(column.index));
                let origin = column_indices[column.index];
                assert(origin.side != side.opposite());
                assert(match side {
                    JoinSide::Left => origin.exists_in(own.len() as int, other.len() as int),
                    JoinSide::Right => origin.exists_in(other.len() as int, own.len() as int),
                });
            }
        }
    }
    assert(new_own.take(own.len() as int) =~= own);
    assert forall|k: int| #[trigger] new_filter.expression.reads(k) implies 0 <= k
        < new_filter.column_indices.len() by {
        lemma_replaced_reads(
            filter.expression,
            column_indices,
            side,
            id,
            column_indices.len() as int,
            k,
        );
    }
}

/// The columns that are kept grow in number with the columns that are looked at, and those that
/// the expression refers to are among them.
pub proof fn lemma_referenced(column_indices: Seq<ColumnIndex>, expr: ExprView, m: nat, n: nat)
    requires
        m <= n,
    ensures
        referenced(column_indices, expr, m).len() <= referenced(column_indices, expr, n).len(),
        m < n && expr.reads(m as int) ==> {
            let position = referenced(column_indices, expr, m).len() as int;
            &&& position < referenced(column_indices, expr, n).len()
            &&& referenced(column_indices, expr, n)[position] == column_indices[m as int]
        },
    decreases n,
{
    if m < n {
        lemma_referenced(column_indices, expr, m, (n - 1) as nat);
    }
}

/// Every column that is kept comes out of the columns that the expression refers to.
pub proof fn lemma_referenced_origin(
    column_indices: Seq<ColumnIndex>,
    expr: ExprView,
    n: nat,
    i: int,
) -> (m: int)
    requires
        0 <= i < referenced(column_indices, expr, n).len(),
    ensures
        0 <= m < n,
        expr.reads(m),
        referenced(column_indices, expr, m as nat).len() == i,
        referenced(column_indices, expr, n)[i] == column_indices[m],
    decreases n,
{
    let before = referenced(column_indices, expr, (n - 1) as nat);
    if i < before.len() {
        lemma_referenced_origin(column_indices, expr, (n - 1) as nat, i)
    } else {
        n - 1
    }
}

/// A minimized filter stays within its inputs.
pub proof fn lemma_minimized_fits(
    expr: ExprView,
    column_indices: Seq<ColumnIndex>,
    left: Seq<FieldView>,
    right: Seq<FieldView>,
)
    requires
        expr.within(column_indices.len() as int),
        forall|i: int| #[trigger]
            expr.reads(i) ==> column_indices[i].exists_in(left.len() as int, right.len() as int),
    ensures
        minimized(expr, column_indices, left, right).fits(left.len() as int, right.len() as int),
{
    let filter = minimized(expr, column_indices, left, right);
    let n = column_indices.len();
    assert forall|k: int| #[trigger] filter.expression.reads(k) implies 0 <= k
        < filter.column_indices.len() by {
        let column = lemma_mapped_reads(expr, renumbered(column_indices, expr), k);
        lemma_referenced(column_indices, expr, column.index as nat, n);
    }
    assert forall|i: int| 0 <= i < filter.column_indices.len() implies (
    #[trigger] filter.column_indices[i]).exists_in(left.len() as int, right.len() as int) by {
        let m = lemma_referenced_origin(column_indices, expr, n, i);
        assert(expr.reads(m));
    }
}

} // verus!
