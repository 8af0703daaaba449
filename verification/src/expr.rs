use crate::schema::DataType;
use std::sync::Arc;
use vstd::prelude::*;

verus! {

/// A reference to a column of the input by its position. The name is for display.
#[derive(Debug)]
pub struct Column {
    pub name: String,
    pub index: usize,
}

/// The view of a [`Column`].
pub struct ColumnView {
    pub name: Seq<char>,
    pub index: int,
}

impl View for Column {
    type V = ColumnView;

    open spec fn view(&self) -> ColumnView {
        ColumnView { name: self.name@, index: self.index as int }
    }
}

/// A constant. The value is named by a number that the owner of the plan chooses.
#[derive(Clone, Copy, Debug, PartialEq, Eq, Structural)]
pub struct Literal {
    pub value: u64,
    pub data_type: DataType,
    pub nullable: bool,
}

/// What an inner node of an expression computes. The type and the nullability are those of its
/// result on the columns that the operator reads from its inputs. For a part of the filter of a
/// join they follow from the fields of the inputs of the join, also where the schema of the filter
/// says otherwise, so that they stay the same when the part is computed on its side of the join.
#[derive(Clone, Copy, Debug, PartialEq, Eq, Structural)]
pub struct Function {
    pub id: u64,
    pub volatile: bool,
    pub data_type: DataType,
    pub nullable: bool,
}

/// A scalar expression over the columns of one input.
#[derive(Debug)]
pub enum Expr {
    Column(Column),
    Literal(Literal),
    Call { function: Function, args: Vec<Arc<Expr>> },
}

/// The view of an [`Expr`].
pub enum ExprView {
    Column(ColumnView),
    Literal(Literal),
    Call { function: Function, args: Seq<ExprView> },
}

impl Expr {
    /// The expression as a tree of views.
    pub open spec fn tree(self) -> ExprView
        decreases self,
    {
        match self {
            Expr::Column(column) => ExprView::Column(column@),
            Expr::Literal(literal) => ExprView::Literal(literal),
            Expr::Call { function, args } => ExprView::Call { function, args: trees(args@) },
        }
    }
}

/// The views of several expressions.
pub open spec fn trees(exprs: Seq<Arc<Expr>>) -> Seq<ExprView>
    decreases exprs,
{
    Seq::new(
        exprs.len(),
        |i: int| if 0 <= i < exprs.len() { exprs[i].tree() } else { arbitrary() },
    )
}

/// There is one view for each expression.
pub broadcast proof fn lemma_trees_len(exprs: Seq<Arc<Expr>>)
    ensures
        #[trigger] trees(exprs).len() == exprs.len(),
{
}

/// The views are in the order of the expressions.
pub broadcast proof fn lemma_trees_index(exprs: Seq<Arc<Expr>>, i: int)
    requires
        0 <= i < exprs.len(),
    ensures
        #[trigger] trees(exprs)[i] == exprs[i]@,
{
}

pub broadcast group group_trees {
    lemma_trees_len,
    lemma_trees_index,
}

impl View for Expr {
    type V = ExprView;

    open spec fn view(&self) -> ExprView {
        self.tree()
    }
}

impl ExprView {
    /// Whether the expression refers to the column at position `index`.
    pub open spec fn reads(self, index: int) -> bool
        decreases self,
    {
        match self {
            ExprView::Column(column) => column.index == index,
            ExprView::Literal(_) => false,
            ExprView::Call { args, .. } => exists|i: int|
                0 <= i < args.len() && (#[trigger] args[i]).reads(index),
        }
    }

    /// Whether every column that the expression refers to is one of the first `width` columns.
    pub open spec fn within(self, width: int) -> bool {
        forall|index: int| #[trigger] self.reads(index) ==> 0 <= index < width
    }

    /// Whether the expression refers to some column.
    pub open spec fn reads_any(self) -> bool {
        exists|index: int| #[trigger] self.reads(index)
    }

    /// Whether some node of the expression may give different results on equal inputs.
    pub open spec fn volatile(self) -> bool
        decreases self,
    {
        match self {
            ExprView::Call { function, args } => function.volatile || exists|i: int|
                0 <= i < args.len() && (#[trigger] args[i]).volatile(),
            _ => false,
        }
    }

    /// Whether the expression has subexpressions.
    pub open spec fn has_args(self) -> bool {
        self matches ExprView::Call { args, .. } && args.len() > 0
    }

    /// The expression with every column `c` replaced by `f(c)`.
    pub open spec fn mapped(self, f: spec_fn(ColumnView) -> ColumnView) -> ExprView
        decreases self,
    {
        match self {
            ExprView::Column(column) => ExprView::Column(f(column)),
            ExprView::Literal(_) => self,
            ExprView::Call { function, args } => ExprView::Call {
                function,
                args: Seq::new(
                    args.len(),
                    |i: int| if 0 <= i < args.len() { args[i].mapped(f) } else { arbitrary() },
                ),
            },
        }
    }
}

impl Column {
    /// A reference to the column at position `index`.
    pub fn new(name: &str, index: usize) -> (column: Self)
        ensures
            column@ == (ColumnView { name: name@, index: index as int }),
    {
        Column { name: name.to_owned(), index }
    }
}

impl Clone for Column {
    fn clone(&self) -> (column: Self)
        ensures
            column@ == self@,
    {
        Column { name: self.name.clone(), index: self.index }
    }
}

/// Whether two columns have the same name and position.
pub fn same_column(left: &Column, right: &Column) -> (result: bool)
    ensures
        result == (left@ == right@),
{
    left.index == right.index && left.name == right.name
}

/// Whether two expressions are the same tree.
pub fn same_expr(left: &Expr, right: &Expr) -> (result: bool)
    ensures
        result == (left@ == right@),
    decreases left,
{
    broadcast use group_trees;

    match (left, right) {
        (Expr::Column(l), Expr::Column(r)) => same_column(l, r),
        (Expr::Literal(l), Expr::Literal(r)) => *l == *r,
        (
            Expr::Call { function: lf, args: largs },
            Expr::Call { function: rf, args: rargs },
        ) => {
            assert(left@ == ExprView::Call { function: *lf, args: trees(largs@) });
            assert(right@ == ExprView::Call { function: *rf, args: trees(rargs@) });
            if *lf != *rf || largs.len() != rargs.len() {
                assert(*lf != *rf || trees(largs@).len() != trees(rargs@).len());
                return false;
            }
            for i in 0..largs.len()
                invariant
                    left@ == (ExprView::Call { function: *lf, args: trees(largs@) }),
                    right@ == (ExprView::Call { function: *rf, args: trees(rargs@) }),
                    *lf == *rf,
                    largs.len() == rargs.len(),
                    decreases_to!(left => largs),
                    forall|j: int|
                        0 <= j < i ==> (#[trigger] trees(largs@)[j]) == trees(rargs@)[j],
            {
                if !same_expr(&largs[i], &rargs[i]) {
                    assert(trees(largs@)[i as int] != trees(rargs@)[i as int]);
                    return false;
                }
            }
            assert(trees(largs@) =~= trees(rargs@));
            true
        },
        _ => false,
    }
}

/// Whether any node of the expression is volatile.
pub fn is_volatile(expr: &Expr) -> (result: bool)
    ensures
        result == expr@.volatile(),
    decreases expr,
{
    broadcast use group_trees;

    match expr {
        Expr::Call { function, args } => {
            assert(expr@ == ExprView::Call { function: *function, args: trees(args@) });
            if function.volatile {
                return true;
            }
            for i in 0..args.len()
                invariant
                    expr@ == (ExprView::Call { function: *function, args: trees(args@) }),
                    trees(args@).len() == args.len(),
                    decreases_to!(expr => args),
                    forall|j: int| 0 <= j < i ==> !(#[trigger] trees(args@)[j]).volatile(),
            {
                if is_volatile(&args[i]) {
                    assert(expr@->args[i as int].volatile());
                    return true;
                }
            }
            false
        },
        _ => false,
    }
}

/// Whether the expression refers to any column.
pub fn reads_any_column(expr: &Expr) -> (result: bool)
    ensures
        result == expr@.reads_any(),
    decreases expr,
{
    broadcast use group_trees;

    match expr {
        Expr::Column(column) => {
            assert(expr@.reads(column.index as int));
            true
        },
        Expr::Literal(_) => false,
        Expr::Call { function, args } => {
            assert(expr@ == ExprView::Call { function: *function, args: trees(args@) });
            for i in 0..args.len()
                invariant
                    expr@ == (ExprView::Call { function: *function, args: trees(args@) }),
                    trees(args@).len() == args.len(),
                    decreases_to!(expr => args),
                    forall|j: int| 0 <= j < i ==> !(#[trigger] trees(args@)[j]).reads_any(),
            {
                if reads_any_column(&args[i]) {
                    let ghost index = choose|index: int|
                        #[trigger] trees(args@)[i as int].reads(index);
                    assert(expr@->args[i as int].reads(index));
                    assert(expr@.reads(index));
                    return true;
                }
            }
            assert forall|index: int| !(#[trigger] expr@.reads(index)) by {
                if expr@.reads(index) {
                    let j = choose|j: int|
                        0 <= j < trees(args@).len() && (#[trigger] trees(args@)[j]).reads(index);
                    assert(trees(args@)[j].reads_any());
                }
            }
            false
        },
    }
}

/// Whether every column that the expression refers to is one of the first `width` columns.
pub fn stays_within(expr: &Expr, width: usize) -> (result: bool)
    ensures
        result == expr@.within(width as int),
    decreases expr,
{
    broadcast use group_trees;

    match expr {
        Expr::Column(column) => {
            assert(expr@.reads(column.index as int));
            column.index < width
        },
        Expr::Literal(_) => true,
        Expr::Call { function, args } => {
            assert(expr@ == ExprView::Call { function: *function, args: trees(args@) });
            for i in 0..args.len()
                invariant
                    expr@ == (ExprView::Call { function: *function, args: trees(args@) }),
                    trees(args@).len() == args.len(),
                    decreases_to!(expr => args),
                    forall|j: int|
                        0 <= j < i ==> (#[trigger] trees(args@)[j]).within(width as int),
            {
                if !stays_within(&args[i], width) {
                    let ghost index = choose|index: int|
                        #[trigger] trees(args@)[i as int].reads(index) && !(0 <= index < width);
                    assert(expr@->args[i as int].reads(index));
                    assert(expr@.reads(index));
                    return false;
                }
            }
            assert forall|index: int| #[trigger] expr@.reads(index) implies 0 <= index < width by {
                let j = choose|j: int|
                    0 <= j < trees(args@).len() && (#[trigger] trees(args@)[j]).reads(index);
                assert(trees(args@)[j].within(width as int));
            }
            true
        },
    }
}

} // verus!
