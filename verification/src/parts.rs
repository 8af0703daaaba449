use crate::expr::{ColumnView, ExprView};
use crate::join::{ColumnIndex, JoinSide};
use crate::rewriter::{
    depends_on, law_pushed, lemma_arg_reads, lemma_pushed_all_contains, pushable, pushed,
    pushed_all,
};
use vstd::prelude::*;

verus! {

impl ExprView {
    /// Whether `part` is the expression itself or stands in it, at any depth.
    pub open spec fn has_part(self, part: ExprView) -> bool
        decreases self,
    {
        self == part || match self {
            ExprView::Call { args, .. } => exists|i: int|
                0 <= i < args.len() && (#[trigger] args[i]).has_part(part),
            _ => false,
        }
    }

    /// Whether the column stands in the expression.
    pub open spec fn has_column(self, column: ColumnView) -> bool {
        self.has_part(ExprView::Column(column))
    }

    /// The part that a path leads to. A path says, from the top down, which argument to go to.
    pub open spec fn at(self, path: Seq<int>) -> Option<ExprView>
        decreases path.len(),
    {
        if path.len() == 0 {
            Some(self)
        } else {
            match self {
                ExprView::Call { args, .. } => if 0 <= path[0] < args.len() {
                    args[path[0]].at(path.drop_first())
                } else {
                    None
                },
                _ => None,
            }
        }
    }

    /// Whether no node of the expression is volatile.
    pub open spec fn steady(self) -> bool {
        forall|part: ExprView| #[trigger]
            self.has_part(part) ==> !(part is Call && part->function.volatile)
    }
}

/// Whether an expression over an intermediate row is a call with arguments that can be computed on
/// one side of the join alone: no node is volatile, and there are columns, all of that side.
pub open spec fn computable_on(
    expr: ExprView,
    column_indices: Seq<ColumnIndex>,
    side: JoinSide,
) -> bool {
    &&& expr is Call && expr->args.len() > 0
    &&& expr.steady()
    &&& exists|column: ColumnView| #[trigger] expr.has_column(column)
    &&& forall|column: ColumnView| #[trigger]
        expr.has_column(column) ==> 0 <= column.index < column_indices.len()
            && column_indices[column.index].side == side
}

/// Whether some part of an expression can be computed on one side of the join alone.
pub open spec fn has_computable(
    expr: ExprView,
    column_indices: Seq<ColumnIndex>,
    side: JoinSide,
) -> bool {
    exists|part: ExprView| #[trigger]
        expr.has_part(part) && computable_on(part, column_indices, side)
}

/// A column that stands in an expression is referred to.
pub proof fn lemma_column_read(expr: ExprView, column: ColumnView)
    requires
        expr.has_column(column),
    ensures
        expr.reads(column.index),
    decreases expr,
{
    if let ExprView::Call { function, args } = expr {
        let part = ExprView::Column(column);
        let i = choose|i: int| 0 <= i < args.len() && (#[trigger] args[i]).has_part(part);
        lemma_column_read(args[i], column);
        lemma_arg_reads(expr, i, column.index);
    }
}

/// Where an expression refers to a position, a column with that position stands in it.
pub proof fn lemma_read_column(expr: ExprView, index: int) -> (column: ColumnView)
    requires
        expr.reads(index),
    ensures
        expr.has_column(column),
        column.index == index,
    decreases expr,
{
    match expr {
        ExprView::Column(column) => column,
        ExprView::Literal(_) => arbitrary(),
        ExprView::Call { function, args } => {
            let i = choose|i: int| 0 <= i < args.len() && (#[trigger] args[i]).reads(index);
            let column = lemma_read_column(args[i], index);
            lemma_arg_part(expr, i, ExprView::Column(column));
            column
        },
    }
}

/// A part of an argument is a part of the call.
pub proof fn lemma_arg_part(expr: ExprView, i: int, part: ExprView)
    requires
        expr is Call,
        0 <= i < expr->args.len(),
        expr->args[i].has_part(part),
    ensures
        expr.has_part(part),
{
}

/// An expression refers to a position if and only if a column with that position stands in it.
pub proof fn law_reads(expr: ExprView, index: int)
    ensures
        expr.reads(index) <==> exists|column: ColumnView| #[trigger]
            expr.has_column(column) && column.index == index,
{
    if expr.reads(index) {
        let column = lemma_read_column(expr, index);
        assert(expr.has_column(column));
    }
    if exists|column: ColumnView| #[trigger] expr.has_column(column) && column.index == index {
        let column = choose|column: ColumnView| #[trigger]
            expr.has_column(column) && column.index == index;
        lemma_column_read(expr, column);
    }
}

/// An expression depends on a side of a join if and only if a column of that side stands in it.
pub proof fn law_depends_on(expr: ExprView, column_indices: Seq<ColumnIndex>, side: JoinSide)
    requires
        expr.within(column_indices.len() as int),
    ensures
        depends_on(expr, column_indices, side) <==> exists|column: ColumnView| #[trigger]
            expr.has_column(column) && column_indices[column.index].side == side,
{
    if depends_on(expr, column_indices, side) {
        let index = choose|index: int| #[trigger]
            expr.reads(index) && 0 <= index < column_indices.len() && column_indices[index].side
                == side;
        let column = lemma_read_column(expr, index);
        assert(expr.has_column(column));
    }
    if exists|column: ColumnView| #[trigger]
        expr.has_column(column) && column_indices[column.index].side == side {
        let column = choose|column: ColumnView| #[trigger]
            expr.has_column(column) && column_indices[column.index].side == side;
        lemma_column_read(expr, column);
        assert(expr.reads(column.index));
    }
}

/// An expression is volatile if and only if some node of it is.
pub proof fn law_volatile(expr: ExprView)
    ensures
        expr.volatile() <==> exists|part: ExprView| #[trigger]
            expr.has_part(part) && part is Call && part->function.volatile,
        expr.volatile() <==> !expr.steady(),
    decreases expr,
{
    if let ExprView::Call { function, args } = expr {
        assert forall|i: int| 0 <= i < args.len() implies ((#[trigger] args[i]).volatile()
            <==> exists|part: ExprView| #[trigger]
            args[i].has_part(part) && part is Call && part->function.volatile) by {
            law_volatile(args[i]);
        }
        if expr.volatile() {
            if function.volatile {
                assert(expr.has_part(expr));
            } else {
                let i = choose|i: int| 0 <= i < args.len() && (#[trigger] args[i]).volatile();
                let part = choose|part: ExprView| #[trigger]
                    args[i].has_part(part) && part is Call && part->function.volatile;
                lemma_arg_part(expr, i, part);
            }
        }
        if exists|part: ExprView| #[trigger]
            expr.has_part(part) && part is Call && part->function.volatile {
            let part = choose|part: ExprView| #[trigger]
                expr.has_part(part) && part is Call && part->function.volatile;
            if part != expr {
                let i = choose|i: int| 0 <= i < args.len() && (#[trigger] args[i]).has_part(part);
                assert(args[i].volatile());
            }
        }
    }
}

/// A part refers to no position that the whole does not refer to.
pub proof fn lemma_part_reads(expr: ExprView, part: ExprView, index: int)
    requires
        expr.has_part(part),
        part.reads(index),
    ensures
        expr.reads(index),
    decreases expr,
{
    if expr != part {
        if let ExprView::Call { function, args } = expr {
            let i = choose|i: int| 0 <= i < args.len() && (#[trigger] args[i]).has_part(part);
            lemma_part_reads(args[i], part, index);
            lemma_arg_reads(expr, i, index);
        }
    }
}

/// What the push-down takes for pushable is what can be computed on one side of the join alone.
pub proof fn law_pushable(expr: ExprView, column_indices: Seq<ColumnIndex>, side: JoinSide)
    requires
        expr.within(column_indices.len() as int),
    ensures
        pushable(expr, column_indices, side) <==> computable_on(expr, column_indices, side),
{
    law_volatile(expr);
    if pushable(expr, column_indices, side) {
        let k = choose|k: int| #[trigger]
            expr.reads(k) && 0 <= k < column_indices.len() && column_indices[k].side == side;
        let column = lemma_read_column(expr, k);
        assert(expr.has_column(column));
        assert forall|column: ColumnView| #[trigger] expr.has_column(column) implies 0
            <= column.index < column_indices.len() && column_indices[column.index].side == side by {
            lemma_column_read(expr, column);
            assert(column_indices[column.index].side != side.opposite());
        }
    }
    if computable_on(expr, column_indices, side) {
        let column = choose|column: ColumnView| #[trigger] expr.has_column(column);
        lemma_column_read(expr, column);
        assert(depends_on(expr, column_indices, side));
        if depends_on(expr, column_indices, side.opposite()) {
            let k = choose|k: int| #[trigger]
                expr.reads(k) && 0 <= k < column_indices.len() && column_indices[k].side
                    == side.opposite();
            let column = lemma_read_column(expr, k);
            assert(expr.has_column(column));
        }
    }
}

/// Where nothing is pushed, no part is pushable.
proof fn lemma_no_part_pushable(
    expr: ExprView,
    column_indices: Seq<ColumnIndex>,
    side: JoinSide,
    part: ExprView,
)
    requires
        pushed(expr, column_indices, side).len() == 0,
        expr.has_part(part),
    ensures
        !pushable(part, column_indices, side),
    decreases expr,
{
    if expr != part {
        if let ExprView::Call { function, args } = expr {
            let i = choose|i: int| 0 <= i < args.len() && (#[trigger] args[i]).has_part(part);
            lemma_pushed_all_contains(args, column_indices, side, i);
            lemma_no_part_pushable(args[i], column_indices, side, part);
        }
    }
}

/// A pushed expression is a part of the whole.
pub proof fn lemma_pushed_part(
    expr: ExprView,
    column_indices: Seq<ColumnIndex>,
    side: JoinSide,
    j: int,
)
    requires
        0 <= j < pushed(expr, column_indices, side).len(),
    ensures
        expr.has_part(pushed(expr, column_indices, side)[j]),
    decreases expr, 0nat,
{
    if !pushable(expr, column_indices, side) {
        if let ExprView::Call { function, args } = expr {
            let i = lemma_pushed_part_of_any(args, column_indices, side, j);
            lemma_arg_part(expr, i, pushed(expr, column_indices, side)[j]);
        }
    }
}

proof fn lemma_pushed_part_of_any(
    exprs: Seq<ExprView>,
    column_indices: Seq<ColumnIndex>,
    side: JoinSide,
    j: int,
) -> (i: int)
    requires
        0 <= j < pushed_all(exprs, column_indices, side).len(),
    ensures
        0 <= i < exprs.len(),
        exprs[i].has_part(pushed_all(exprs, column_indices, side)[j]),
    decreases exprs, exprs.len(),
{
    let before = pushed_all(exprs.drop_last(), column_indices, side);
    if j < before.len() {
        lemma_pushed_part_of_any(exprs.drop_last(), column_indices, side, j)
    } else {
        lemma_pushed_part(exprs.last(), column_indices, side, j - before.len());
        exprs.len() - 1
    }
}

/// Something is pushed out of an expression if and only if some part of it can be computed on the
/// side alone. What is pushed are such parts.
pub proof fn law_pushed_if_computable(
    expr: ExprView,
    column_indices: Seq<ColumnIndex>,
    side: JoinSide,
)
    requires
        expr.within(column_indices.len() as int),
    ensures
        pushed(expr, column_indices, side).len() > 0 <==> has_computable(
            expr,
            column_indices,
            side,
        ),
        forall|j: int|
            0 <= j < pushed(expr, column_indices, side).len() ==> {
                &&& expr.has_part(#[trigger] pushed(expr, column_indices, side)[j])
                &&& computable_on(pushed(expr, column_indices, side)[j], column_indices, side)
            },
{
    let exprs = pushed(expr, column_indices, side);
    assert forall|j: int| 0 <= j < exprs.len() implies {
        &&& expr.has_part(#[trigger] exprs[j])
        &&& computable_on(exprs[j], column_indices, side)
    } by {
        lemma_pushed_part(expr, column_indices, side, j);
        law_pushed(expr, column_indices, side, j);
        assert forall|k: int| #[trigger] exprs[j].reads(k) implies 0 <= k
            < column_indices.len() by {
            assert(expr.reads(k));
        }
        law_pushable(exprs[j], column_indices, side);
    }
    if exprs.len() > 0 {
        assert(expr.has_part(exprs[0]));
    }
    if has_computable(expr, column_indices, side) && exprs.len() == 0 {
        let part = choose|part: ExprView| #[trigger]
            expr.has_part(part) && computable_on(part, column_indices, side);
        assert forall|k: int| #[trigger] part.reads(k) implies 0 <= k < column_indices.len() by {
            lemma_part_reads(expr, part, k);
        }
        law_pushable(part, column_indices, side);
        lemma_no_part_pushable(expr, column_indices, side, part);
    }
}

} // verus!
