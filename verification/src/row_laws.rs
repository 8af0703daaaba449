use crate::expr::{ColumnView, ExprView};
use crate::join::{join_fields, ColumnIndex, JoinFilterView, JoinSide, JoinType, NestedLoopJoinView};
use crate::join_filter::{
    filter_fits, lemma_side_push_down, minimized, referenced, renumbered, side_filter,
    side_projection,
};
use crate::nodes::join_width;
use crate::parts::{lemma_column_read, lemma_read_column};
use crate::plan::PlanView;
use crate::projection::{projected, ProjectionExprView};
use crate::rewriter::{lemma_arg_reads, pushed};
use crate::schema::{DataType, FieldView};
use vstd::prelude::*;

verus! {

/// The field of a column of an intermediate row.
pub open spec fn origin_field(
    origin: ColumnIndex,
    left: Seq<FieldView>,
    right: Seq<FieldView>,
) -> FieldView {
    if origin.side == JoinSide::Left {
        left[origin.index as int]
    } else {
        right[origin.index as int]
    }
}

/// The positions below `n` that the expression refers to, in order.
spec fn read_positions(expr: ExprView, n: nat) -> Seq<int>
    decreases n,
{
    if n == 0 {
        seq![]
    } else {
        let before = read_positions(expr, (n - 1) as nat);
        if expr.reads(n - 1) {
            before.push(n - 1)
        } else {
            before
        }
    }
}

proof fn lemma_read_positions(expr: ExprView, column_indices: Seq<ColumnIndex>, n: nat)
    ensures
        referenced(column_indices, expr, n) == read_positions(expr, n).map_values(
            |k: int| column_indices[k],
        ),
        forall|i: int|
            0 <= i < read_positions(expr, n).len() ==> {
                let k = #[trigger] read_positions(expr, n)[i];
                0 <= k < n && expr.reads(k)
            },
        forall|i: int, j: int|
            0 <= i < j < read_positions(expr, n).len() ==> #[trigger] read_positions(expr, n)[i]
                < #[trigger] read_positions(expr, n)[j],
        forall|k: int|
            0 <= k < n && #[trigger] expr.reads(k) ==> {
                let position = referenced(column_indices, expr, k as nat).len() as int;
                &&& 0 <= position < read_positions(expr, n).len()
                &&& read_positions(expr, n)[position] == k
            },
    decreases n,
{
    let positions = read_positions(expr, n);
    let f = |k: int| column_indices[k];
    if n > 0 {
        lemma_read_positions(expr, column_indices, (n - 1) as nat);
        assert(referenced(column_indices, expr, n) =~= positions.map_values(f));
        assert forall|k: int| 0 <= k < n && #[trigger] expr.reads(k) implies {
            let position = referenced(column_indices, expr, k as nat).len() as int;
            &&& 0 <= position < positions.len()
            &&& positions[position] == k
        } by {
            if k == n - 1 {
                assert(referenced(column_indices, expr, k as nat).len() == read_positions(
                    expr,
                    k as nat,
                ).len());
            }
        }
    } else {
        assert(referenced(column_indices, expr, n) =~= positions.map_values(f));
    }
}

/// Moving the columns of an expression forth and back gives the expression again.
proof fn lemma_mapped_back(
    expr: ExprView,
    f: spec_fn(ColumnView) -> ColumnView,
    g: spec_fn(ColumnView) -> ColumnView,
)
    requires
        forall|column: ColumnView| #[trigger] expr.reads(column.index) ==> g(f(column)) == column,
    ensures
        expr.mapped(f).mapped(g) == expr,
    decreases expr,
{
    match expr {
        ExprView::Column(column) => {
            assert(expr.reads(column.index));
        },
        ExprView::Literal(_) => {},
        ExprView::Call { function, args } => {
            let there = expr.mapped(f);
            let back = there.mapped(g);
            assert forall|i: int| 0 <= i < args.len() implies #[trigger] back->args[i]
                == args[i] by {
                assert forall|column: ColumnView| #[trigger] args[i].reads(column.index) implies g(
                    f(column),
                ) == column by {
                    lemma_arg_reads(expr, i, column.index);
                    assert(expr.reads(column.index));
                }
                lemma_mapped_back(args[i], f, g);
                assert(there->args[i] == args[i].mapped(f));
            }
            assert(back->args =~= args);
        },
    }
}

/// A column at its position before columns were left out.
pub open spec fn put_back(kept: Seq<int>) -> spec_fn(ColumnView) -> ColumnView {
    |column: ColumnView| ColumnView { name: column.name, index: kept[column.index] }
}

/// Minimizing a filter keeps exactly those columns of the intermediate row that stand in the
/// expression, in their order and each with its origin and its field, and moves the columns of the
/// expression along: putting them back gives the expression as it was.
pub proof fn law_minimized_in_order(
    expr: ExprView,
    column_indices: Seq<ColumnIndex>,
    left: Seq<FieldView>,
    right: Seq<FieldView>,
) -> (kept: Seq<int>)
    requires
        expr.within(column_indices.len() as int),
    ensures
        ({
            let filter = minimized(expr, column_indices, left, right);
            &&& filter.column_indices.len() == kept.len()
            &&& filter.schema.len() == kept.len()
            &&& forall|i: int|
                0 <= i < kept.len() ==> {
                    let k = #[trigger] kept[i];
                    &&& 0 <= k < column_indices.len()
                    &&& filter.column_indices[i] == column_indices[k]
                    &&& filter.schema[i] == origin_field(column_indices[k], left, right)
                }
            &&& filter.expression.mapped(put_back(kept)) == expr
        }),
        forall|i: int, j: int| 0 <= i < j < kept.len() ==> #[trigger] kept[i] < #[trigger] kept[j],
        forall|k: int| #[trigger]
            kept.contains(k) <==> exists|column: ColumnView| #[trigger]
                expr.has_column(column) && column.index == k,
{
    let n = column_indices.len();
    let kept = read_positions(expr, n);
    let filter = minimized(expr, column_indices, left, right);
    lemma_read_positions(expr, column_indices, n);
    assert forall|k: int| #[trigger] kept.contains(k) <==> exists|column: ColumnView| #[trigger]
        expr.has_column(column) && column.index == k by {
        if kept.contains(k) {
            let column = lemma_read_column(expr, k);
            assert(expr.has_column(column));
        }
        if exists|column: ColumnView| #[trigger] expr.has_column(column) && column.index == k {
            let column = choose|column: ColumnView| #[trigger]
                expr.has_column(column) && column.index == k;
            lemma_column_read(expr, column);
            assert(expr.reads(k));
            assert(kept[referenced(column_indices, expr, k as nat).len() as int] == k);
        }
    }
    assert forall|column: ColumnView| #[trigger] expr.reads(column.index) implies put_back(kept)(
        renumbered(column_indices, expr)(column),
    ) == column by {}
    lemma_mapped_back(expr, renumbered(column_indices, expr), put_back(kept));
    kept
}

/// A projection has one column for each of its expressions, named as it says. A column that is
/// passed through keeps its type and whether it can be null, and what is computed has the type that
/// the computation has.
pub proof fn law_projected(exprs: Seq<ProjectionExprView>, input: Seq<FieldView>)
    ensures
        projected(exprs, input).len() == exprs.len(),
        forall|i: int|
            0 <= i < exprs.len() ==> {
                let field = #[trigger] projected(exprs, input)[i];
                let expr = exprs[i].expr;
                &&& field.name == exprs[i].alias
                &&& expr is Column ==> field.data_type == input[expr->Column_0.index].data_type
                    && field.nullable == input[expr->Column_0.index].nullable
                &&& expr is Literal ==> field.data_type == expr->Literal_0.data_type
                    && field.nullable == expr->Literal_0.nullable
                &&& expr is Call ==> field.data_type == expr->function.data_type && field.nullable
                    == expr->function.nullable
            },
{
}

/// Whether a join returns the columns of a side.
pub open spec fn returns_side(join_type: JoinType, side: JoinSide) -> bool {
    match side {
        JoinSide::Left => !(join_type is RightSemi) && !(join_type is RightAnti) && !(
        join_type is RightMark),
        JoinSide::Right => !(join_type is LeftSemi) && !(join_type is LeftAnti) && !(
        join_type is LeftMark),
    }
}

/// Whether a join returns rows of the other side that have no match, with the columns of this side
/// filled with nulls.
pub open spec fn fills_with_nulls(join_type: JoinType, side: JoinSide) -> bool {
    match side {
        JoinSide::Left => join_type is Right || join_type is Full,
        JoinSide::Right => join_type is Left || join_type is Full,
    }
}

/// Whether a field of a join is that of an input column of a side.
pub open spec fn taken_over(
    field: FieldView,
    input: FieldView,
    join_type: JoinType,
    side: JoinSide,
) -> bool {
    &&& field.name == input.name
    &&& field.data_type == input.data_type
    &&& field.nullable <==> input.nullable || fills_with_nulls(join_type, side)
}

/// A join has the columns of the sides that it returns, those of the left side first, each as it is
/// but for the nulls that the join fills in, and a mark join has one that tells of a match behind
/// them. If it keeps only some of them, it has those, in the order in which it names them.
pub proof fn law_join_output(
    join: NestedLoopJoinView,
    left: Seq<FieldView>,
    right: Seq<FieldView>,
)
    ensures
        ({
            let all = join_fields(join.join_type, left, right);
            let from_right = if returns_side(join.join_type, JoinSide::Left) {
                left.len()
            } else {
                0
            };
            &&& all.len() == join_width(join.join_type, left.len(), right.len())
            &&& returns_side(join.join_type, JoinSide::Left) ==> forall|i: int|
                0 <= i < left.len() ==> taken_over(
                    #[trigger] all[i],
                    left[i],
                    join.join_type,
                    JoinSide::Left,
                )
            &&& returns_side(join.join_type, JoinSide::Right) ==> forall|i: int|
                0 <= i < right.len() ==> taken_over(
                    all[from_right + i],
                    #[trigger] right[i],
                    join.join_type,
                    JoinSide::Right,
                )
            &&& join.join_type is LeftMark || join.join_type is RightMark ==> all.last() == (
            FieldView { name: "mark"@, data_type: DataType::Boolean, nullable: false })
            &&& join.projection is None ==> join.fields(left, right) == all
            &&& join.projection matches Some(projection) ==> {
                &&& join.fields(left, right).len() == projection.len()
                &&& forall|i: int|
                    0 <= i < projection.len() ==> #[trigger] join.fields(left, right)[i]
                        == all[projection[i] as int]
            }
        }),
{
}

/// A join has the columns that it makes of its inputs, a projection those that it computes, an
/// aggregate and any other operator those of its schema, and an operator that passes its input
/// through those of its input.
pub proof fn law_plan_output(plan: PlanView)
    ensures
        plan matches PlanView::NestedLoopJoin { join, left, right, .. } ==> plan.fields()
            == join.fields(left.fields(), right.fields()),
        plan matches PlanView::Projection { exprs, input, .. } ==> plan.fields() == projected(
            exprs,
            input.fields(),
        ),
        plan matches PlanView::Aggregate { aggregate, .. } ==> plan.fields() == aggregate.schema,
        plan is Cooperative || plan is Repartition ==> plan.fields() == plan.inputs()[0].fields(),
        plan matches PlanView::Other { schema, .. } ==> plan.fields() == schema,
{
}

/// Pushing parts of a filter down into a side appends one column to the intermediate row for each
/// column that is added to the side, in their order, and keeps the columns that were there. The
/// schema of the filter describes the row.
pub proof fn law_side_filter_row(
    side: JoinSide,
    own: Seq<FieldView>,
    other: Seq<FieldView>,
    filter: JoinFilterView,
    id: usize,
)
    requires
        filter_fits(filter, side, own.len() as int, other.len() as int),
        own.len() + pushed(filter.expression, filter.column_indices, side).len() <= usize::MAX,
    ensures
        ({
            let columns = side_projection(side, own, filter, id);
            let new_own = projected(columns, own);
            let new = side_filter(side, own, other, filter, id);
            let width = filter.column_indices.len();
            &&& columns.len() >= own.len()
            &&& new.column_indices.len() == width + (columns.len() - own.len())
            &&& new.schema.len() == new.column_indices.len()
            &&& forall|k: int|
                0 <= k < width ==> #[trigger] new.column_indices[k] == filter.column_indices[k]
            &&& forall|k: int|
                width <= k < new.column_indices.len() ==> {
                    &&& (#[trigger] new.column_indices[k]).side == side
                    &&& new.column_indices[k].index == own.len() + (k - width)
                }
            &&& forall|k: int|
                0 <= k < new.schema.len() ==> #[trigger] new.schema[k] == (if side
                    == JoinSide::Left {
                    origin_field(new.column_indices[k], new_own, other)
                } else {
                    origin_field(new.column_indices[k], other, new_own)
                })
        }),
{
    lemma_side_push_down(side, own, other, filter, id);
}

} // verus!
