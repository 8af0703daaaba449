use crate::aliases::{alias_name, following_id, id_after, lemma_id_after_add, Aliases};
use crate::expr::{group_trees, is_volatile, trees, Column, ColumnView, Expr, ExprView};
use crate::join::{ColumnIndex, JoinSide};
use crate::projection::{projection_views, ProjectionExpr, ProjectionExprView};
use crate::schema::{FieldView, Schema};
use std::sync::Arc;
use vstd::prelude::*;

verus! {

/// The prefix of the aliases of pushed down expressions.
pub const JOIN_ALIAS_PREFIX: &'static str = "join_proj_push_down";

/// Whether the expression refers to a column of the given side.
pub open spec fn depends_on(
    expr: ExprView,
    column_indices: Seq<ColumnIndex>,
    side: JoinSide,
) -> bool {
    exists|i: int|
        #[trigger] expr.reads(i) && 0 <= i < column_indices.len() && column_indices[i].side == side
}

/// Whether the expression is computed from columns of the given side alone, always gives the same
/// result on the same columns, and does compute something.
pub open spec fn pushable(
    expr: ExprView,
    column_indices: Seq<ColumnIndex>,
    side: JoinSide,
) -> bool {
    &&& expr.has_args()
    &&& depends_on(expr, column_indices, side)
    &&& !depends_on(expr, column_indices, side.opposite())
    &&& !expr.volatile()
}

/// The largest pushable subexpressions, from left to right.
pub open spec fn pushed(
    expr: ExprView,
    column_indices: Seq<ColumnIndex>,
    side: JoinSide,
) -> Seq<ExprView>
    decreases expr, 0nat,
{
    if pushable(expr, column_indices, side) {
        seq![expr]
    } else {
        match expr {
            ExprView::Call { args, .. } => pushed_all(args, column_indices, side),
            _ => seq![],
        }
    }
}

/// The largest pushable subexpressions of several expressions, from left to right.
pub open spec fn pushed_all(
    exprs: Seq<ExprView>,
    column_indices: Seq<ColumnIndex>,
    side: JoinSide,
) -> Seq<ExprView>
    decreases exprs, exprs.len(),
{
    if exprs.len() == 0 {
        seq![]
    } else {
        pushed_all(exprs.drop_last(), column_indices, side) + pushed(
            exprs.last(),
            column_indices,
            side,
        )
    }
}

/// The expression with each of its largest pushable subexpressions replaced by a column. The
/// columns have the positions from `first` on, and the aliases numbered from `id` on.
pub open spec fn replaced(
    expr: ExprView,
    column_indices: Seq<ColumnIndex>,
    side: JoinSide,
    id: usize,
    first: int,
) -> ExprView
    decreases expr, 0nat,
{
    if pushable(expr, column_indices, side) {
        ExprView::Column(ColumnView { name: alias_name(JOIN_ALIAS_PREFIX@, id), index: first })
    } else {
        match expr {
            ExprView::Call { function, args } => ExprView::Call {
                function,
                args: replaced_all(args, column_indices, side, id, first),
            },
            _ => expr,
        }
    }
}

/// Several expressions with their largest pushable subexpressions replaced by columns.
pub open spec fn replaced_all(
    exprs: Seq<ExprView>,
    column_indices: Seq<ColumnIndex>,
    side: JoinSide,
    id: usize,
    first: int,
) -> Seq<ExprView>
    decreases exprs, exprs.len(),
{
    if exprs.len() == 0 {
        seq![]
    } else {
        let before = pushed_all(exprs.drop_last(), column_indices, side).len();
        replaced_all(exprs.drop_last(), column_indices, side, id, first).push(
            replaced(exprs.last(), column_indices, side, id_after(id, before), first + before),
        )
    }
}

/// What a column of the intermediate row is called on its own side of the join.
pub open spec fn side_column(
    column_indices: Seq<ColumnIndex>,
    schema: Seq<FieldView>,
) -> spec_fn(ColumnView) -> ColumnView {
    |column: ColumnView|
        ColumnView {
            name: schema[column_indices[column.index].index as int].name,
            index: column_indices[column.index].index as int,
        }
}

/// The output columns that compute pushed down expressions on their side of the join.
pub open spec fn pushed_projections(
    exprs: Seq<ExprView>,
    column_indices: Seq<ColumnIndex>,
    schema: Seq<FieldView>,
    id: usize,
) -> Seq<ProjectionExprView> {
    Seq::new(
        exprs.len(),
        |j: int|
            ProjectionExprView {
                expr: exprs[j].mapped(side_column(column_indices, schema)),
                alias: alias_name(JOIN_ALIAS_PREFIX@, id_after(id, j as nat)),
            },
    )
}

/// The origins of `count` columns of a side, from position `first` on.
pub open spec fn pushed_indices(count: nat, first: int, side: JoinSide) -> Seq<ColumnIndex> {
    Seq::new(count, |j: int| ColumnIndex { index: (first + j) as usize, side })
}

/// Whether the columns that the expression refers to exist in the intermediate row, and those that
/// its largest pushable subexpressions refer to among the first `width` columns of the side.
pub open spec fn readable(
    expr: ExprView,
    column_indices: Seq<ColumnIndex>,
    side: JoinSide,
    width: int,
) -> bool {
    &&& expr.within(column_indices.len() as int)
    &&& forall|j: int, i: int|
        0 <= j < pushed(expr, column_indices, side).len() && #[trigger] pushed(
            expr,
            column_indices,
            side,
        )[j].reads(i) ==> column_indices[i].index < width
}

/// Output columns that pass all columns of a row with the given fields through.
pub open spec fn pass_through(fields: Seq<FieldView>) -> Seq<ProjectionExprView> {
    Seq::new(
        fields.len(),
        |i: int|
            ProjectionExprView {
                expr: ExprView::Column(ColumnView { name: fields[i].name, index: i }),
                alias: fields[i].name,
            },
    )
}

/// A result, and whether it differs from what it was made of.
pub struct Transformed<T> {
    pub data: T,
    pub transformed: bool,
}

/// Implements the push-down machinery.
///
/// The rewriter starts at the top of a filter expression. A subexpression that can be computed
/// from one side of the join alone is moved, as a whole, into a projection of that side, and a
/// column takes its place.
pub struct JoinFilterRewriter<'a> {
    pub join_side: JoinSide,
    pub join_side_schema: &'a Schema,
    pub join_side_projections: Vec<ProjectionExpr>,
    pub intermediate_column_indices: Vec<ColumnIndex>,
}

impl<'a> JoinFilterRewriter<'a> {
    /// What it means to push the parts of `expr` down from this state, with aliases numbered from
    /// `id` on: the largest pushable subexpressions become output columns of the side and columns
    /// of the intermediate row, and columns take their places in the expression.
    pub open spec fn rewrites(
        self,
        expr: ExprView,
        id: usize,
        after: Self,
        id_afterwards: usize,
        result: Transformed<Arc<Expr>>,
    ) -> bool {
        let column_indices = self.intermediate_column_indices@;
        let exprs = pushed(expr, column_indices, self.join_side);
        &&& after.join_side == self.join_side
        &&& after.join_side_schema == self.join_side_schema
        &&& projection_views(after.join_side_projections@) == projection_views(
            self.join_side_projections@,
        ) + pushed_projections(exprs, column_indices, self.join_side_schema@, id)
        &&& after.intermediate_column_indices@ == column_indices + pushed_indices(
            exprs.len(),
            self.join_side_projections@.len() as int,
            self.join_side,
        )
        &&& id_afterwards == id_after(id, exprs.len())
        &&& result.data@ == replaced(
            expr,
            column_indices,
            self.join_side,
            id,
            column_indices.len() as int,
        )
        &&& result.transformed == (exprs.len() > 0)
    }

    /// Creates a new [`JoinFilterRewriter`]. The side starts out with a projection that passes all
    /// its columns through.
    pub fn new(
        join_side: JoinSide,
        join_side_schema: &'a Schema,
        column_indices: Vec<ColumnIndex>,
    ) -> (rewriter: Self)
        ensures
            rewriter.join_side == join_side,
            rewriter.join_side_schema == join_side_schema,
            projection_views(rewriter.join_side_projections@) == pass_through(join_side_schema@),
            rewriter.intermediate_column_indices == column_indices,
    {
        let mut projections: Vec<ProjectionExpr> = Vec::new();
        for index in 0..join_side_schema.fields.len()
            invariant
                projections.len() == index,
                forall|i: int|
                    0 <= i < index ==> (#[trigger] projections@[i])@ == pass_through(
                        join_side_schema@,
                    )[i],
        {
            let name = &join_side_schema.fields[index].name;
            let expr = Arc::new(Expr::Column(Column::new(name, index)));
            projections.push(ProjectionExpr { expr, alias: name.clone() });
        }
        assert(projection_views(projections@) =~= pass_through(join_side_schema@));
        JoinFilterRewriter {
            join_side,
            join_side_schema,
            join_side_projections: projections,
            intermediate_column_indices: column_indices,
        }
    }

    /// Checks whether the expression depends on the given `join_side`.
    pub fn depends_on_join_side(&self, expr: &Expr, join_side: JoinSide) -> (result: bool)
        requires
            expr@.within(self.intermediate_column_indices@.len() as int),
        ensures
            result == depends_on(expr@, self.intermediate_column_indices@, join_side),
        decreases expr,
    {
        broadcast use group_trees;

        match expr {
            Expr::Column(column) => {
                assert(expr@.reads(column.index as int));
                self.intermediate_column_indices[column.index].side == join_side
            },
            Expr::Literal(_) => false,
            Expr::Call { function, args } => {
                assert(expr@ == ExprView::Call { function: *function, args: trees(args@) });
                for i in 0..args.len()
                    invariant
                        expr@.within(self.intermediate_column_indices@.len() as int),
                        expr@ == (ExprView::Call { function: *function, args: trees(args@) }),
                        trees(args@).len() == args.len(),
                        decreases_to!(expr => args),
                        forall|j: int|
                            0 <= j < i ==> !depends_on(
                                #[trigger] trees(args@)[j],
                                self.intermediate_column_indices@,
                                join_side,
                            ),
                {
                    proof {
                        lemma_arg_within(
                            expr@,
                            i as int,
                            self.intermediate_column_indices@.len() as int,
                        );
                    }
                    if self.depends_on_join_side(&args[i], join_side) {
                        proof {
                            lemma_arg_depends(
                                expr@,
                                i as int,
                                self.intermediate_column_indices@,
                                join_side,
                            );
                        }
                        return true;
                    }
                }
                proof {
                    lemma_no_arg_depends(expr@, self.intermediate_column_indices@, join_side);
                }
                false
            },
        }
    }

    /// Expresses a part of the filter in terms of the columns of this side of the join.
    fn on_join_side(&self, expr: &Arc<Expr>) -> (result: Arc<Expr>)
        requires
            forall|i: int| #[trigger]
                expr@.reads(i) ==> 0 <= i < self.intermediate_column_indices@.len()
                    && self.intermediate_column_indices@[i].side == self.join_side
                    && self.intermediate_column_indices@[i].index < self.join_side_schema@.len(),
        ensures
            result@ == expr@.mapped(
                side_column(self.intermediate_column_indices@, self.join_side_schema@),
            ),
        decreases expr,
    {
        broadcast use group_trees;

        let ghost f = side_column(self.intermediate_column_indices@, self.join_side_schema@);
        match &**expr {
            Expr::Column(column) => {
                assert(expr@.reads(column.index as int));
                let index = self.intermediate_column_indices[column.index].index;
                Arc::new(
                    Expr::Column(Column::new(&self.join_side_schema.fields[index].name, index)),
                )
            },
            Expr::Literal(_) => Arc::clone(expr),
            Expr::Call { function, args } => {
                assert(expr@ == ExprView::Call { function: *function, args: trees(args@) });
                let mut new_args: Vec<Arc<Expr>> = Vec::new();
                for i in 0..args.len()
                    invariant
                        forall|i: int| #[trigger]
                            expr@.reads(i) ==> 0 <= i < self.intermediate_column_indices@.len()
                                && self.intermediate_column_indices@[i].side == self.join_side
                                && self.intermediate_column_indices@[i].index
                                < self.join_side_schema@.len(),
                        f == side_column(
                            self.intermediate_column_indices@,
                            self.join_side_schema@,
                        ),
                        expr@ == (ExprView::Call { function: *function, args: trees(args@) }),
                        trees(args@).len() == args.len(),
                        decreases_to!(expr => args),
                        new_args.len() == i,
                        forall|j: int|
                            0 <= j < i ==> (#[trigger] new_args@[j])@ == trees(args@)[j].mapped(f),
                {
                    assert forall|k: int| #[trigger] args@[i as int]@.reads(k) implies expr@.reads(
                        k,
                    ) by {
                        assert(trees(args@)[i as int] == args@[i as int]@);
                        lemma_arg_reads(expr@, i as int, k);
                    }
                    new_args.push(self.on_join_side(&args[i]));
                }
                let result = Arc::new(Expr::Call { function: *function, args: new_args });
                assert(result@ == ExprView::Call { function: *function, args: trees(new_args@) });
                assert(trees(new_args@) =~= expr@.mapped(f)->args);
                result
            },
        }
    }

    /// Creates a new column in the current join side, and returns its position in the
    /// intermediate row.
    pub fn create_new_column(&mut self, name: String, expr: &Arc<Expr>) -> (result: usize)
        requires
            forall|i: int| #[trigger]
                expr@.reads(i) ==> 0 <= i < old(self).intermediate_column_indices@.len()
                    && old(self).intermediate_column_indices@[i].side == old(self).join_side
                    && old(self).intermediate_column_indices@[i].index < old(
                    self,
                ).join_side_schema@.len(),
        ensures
            final(self).join_side == old(self).join_side,
            final(self).join_side_schema == old(self).join_side_schema,
            projection_views(final(self).join_side_projections@) == projection_views(
                old(self).join_side_projections@,
            ).push(
                ProjectionExprView {
                    expr: expr@.mapped(
                        side_column(
                            old(self).intermediate_column_indices@,
                            old(self).join_side_schema@,
                        ),
                    ),
                    alias: name@,
                },
            ),
            final(self).intermediate_column_indices@ == old(
                self,
            ).intermediate_column_indices@.push(
                ColumnIndex {
                    index: old(self).join_side_projections@.len() as usize,
                    side: old(self).join_side,
                },
            ),
            result == old(self).intermediate_column_indices@.len(),
    {
        // The expression no longer runs against the intermediate row.
        let new_index = self.join_side_projections.len();
        let rewritten = self.on_join_side(expr);
        self.join_side_projections.push(ProjectionExpr { expr: rewritten, alias: name });
        assert(projection_views(self.join_side_projections@) =~= projection_views(
            old(self).join_side_projections@,
        ).push(self.join_side_projections@.last()@));

        let new_intermediate_index = self.intermediate_column_indices.len();
        self.intermediate_column_indices.push(
            ColumnIndex { index: new_index, side: self.join_side },
        );
        new_intermediate_index
    }

    /// Executes the push-down machinery on `expr`.
    ///
    /// See [`JoinFilterRewriter`] for further information.
    pub fn rewrite(&mut self, expr: &Arc<Expr>, aliases: &mut Aliases) -> (result: Transformed<
        Arc<Expr>,
    >)
        requires
            readable(
                expr@,
                old(self).intermediate_column_indices@,
                old(self).join_side,
                old(self).join_side_schema@.len() as int,
            ),
        ensures
            old(self).rewrites(
                expr@,
                old(aliases).counter(),
                *final(self),
                final(aliases).counter(),
                result,
            ),
        decreases expr, 1nat,
    {
        broadcast use group_trees;

        let ghost column_indices = self.intermediate_column_indices@;
        let ghost side = self.join_side;
        let ghost schema = self.join_side_schema@;
        let ghost first = column_indices.len() as int;
        let ghost id = aliases.counter();
        let ghost before = projection_views(self.join_side_projections@);

        // What does not depend on this side is not pushed down.
        if !self.depends_on_join_side(expr, self.join_side) {
            proof {
                lemma_independent(expr@, column_indices, side, id, first);
                assert(before + pushed_projections(seq![], column_indices, schema, id) =~= before);
                assert(column_indices + pushed_indices(0, before.len() as int, side)
                    =~= column_indices);
            }
            return Transformed { data: Arc::clone(expr), transformed: false };
        }
        // A dependency on both sides, or a volatile expression: try the parts.
        if self.depends_on_join_side(expr, self.join_side.negate()) || is_volatile(expr) {
            return self.rewrite_args(expr, aliases);
        }
        // There is only a dependency on this side. Without subexpressions it is a column already.
        let has_args = match &**expr {
            Expr::Call { args, .. } => args.len() > 0,
            _ => false,
        };
        if !has_args {
            proof {
                assert(pushed(expr@, column_indices, side) =~= seq![]);
                assert(before + pushed_projections(seq![], column_indices, schema, id) =~= before);
                assert(column_indices + pushed_indices(0, before.len() as int, side)
                    =~= column_indices);
            }
            return Transformed { data: Arc::clone(expr), transformed: false };
        }
        let alias = aliases.next(JOIN_ALIAS_PREFIX);
        assert forall|i: int| #[trigger] expr@.reads(i) implies 0 <= i < column_indices.len()
            && column_indices[i].side == side && column_indices[i].index < schema.len() by {
            assert(column_indices[i].side != side.opposite());
            assert(pushed(expr@, column_indices, side)[0].reads(i));
        }
        let column = Column::new(&alias, self.create_new_column(alias.clone(), expr));
        proof {
            let exprs = seq![expr@];
            assert(id_after(id, 0) == id);
            assert(id_after(id, 1) == following_id(id));
            assert(projection_views(self.join_side_projections@) =~= before + pushed_projections(
                exprs,
                column_indices,
                schema,
                id,
            ));
            assert(self.intermediate_column_indices@ =~= column_indices + pushed_indices(
                1,
                before.len() as int,
                side,
            ));
        }
        Transformed { data: Arc::new(Expr::Column(column)), transformed: true }
    }

    /// Executes the push-down machinery on the subexpressions of `expr`.
    fn rewrite_args(&mut self, expr: &Arc<Expr>, aliases: &mut Aliases) -> (result: Transformed<
        Arc<Expr>,
    >)
        requires
            readable(
                expr@,
                old(self).intermediate_column_indices@,
                old(self).join_side,
                old(self).join_side_schema@.len() as int,
            ),
            !pushable(expr@, old(self).intermediate_column_indices@, old(self).join_side),
        ensures
            old(self).rewrites(
                expr@,
                old(aliases).counter(),
                *final(self),
                final(aliases).counter(),
                result,
            ),
        decreases expr, 0nat,
    {
        broadcast use group_trees;

        let ghost column_indices = self.intermediate_column_indices@;
        let ghost side = self.join_side;
        let ghost schema = self.join_side_schema@;
        let ghost first = column_indices.len() as int;
        let ghost id = aliases.counter();
        let ghost before = projection_views(self.join_side_projections@);

        let mut new_args: Vec<Arc<Expr>> = Vec::new();
        let mut transformed = false;
        if let Expr::Call { function, args } = &**expr {
            assert(expr@ == ExprView::Call { function: *function, args: trees(args@) });
            proof {
                assert(before + pushed_projections(seq![], column_indices, schema, id) =~= before);
                assert(column_indices + pushed_indices(0, before.len() as int, side)
                    =~= column_indices);
                assert(trees(args@).take(0) =~= seq![]);
            }
            for i in 0..args.len()
                invariant
                    readable(expr@, column_indices, side, schema.len() as int),
                    !pushable(expr@, column_indices, side),
                    expr@ == (ExprView::Call { function: *function, args: trees(args@) }),
                    trees(args@).len() == args.len(),
                    decreases_to!(expr => args),
                    first == column_indices.len(),
                    schema == self.join_side_schema@,
                    self.join_side == side,
                    self.join_side_schema == old(self).join_side_schema,
                    projection_views(self.join_side_projections@) == before + pushed_projections(
                        pushed_all(trees(args@).take(i as int), column_indices, side),
                        column_indices,
                        schema,
                        id,
                    ),
                    self.intermediate_column_indices@ == column_indices + pushed_indices(
                        pushed_all(trees(args@).take(i as int), column_indices, side).len(),
                        before.len() as int,
                        side,
                    ),
                    aliases.counter() == id_after(
                        id,
                        pushed_all(trees(args@).take(i as int), column_indices, side).len(),
                    ),
                    trees(new_args@) == replaced_all(
                        trees(args@).take(i as int),
                        column_indices,
                        side,
                        id,
                        first,
                    ),
                    transformed == (pushed_all(
                        trees(args@).take(i as int),
                        column_indices,
                        side,
                    ).len() > 0),
            {
                let ghost arg = trees(args@)[i as int];
                let ghost done = pushed_all(trees(args@).take(i as int), column_indices, side);
                let ghost current = self.intermediate_column_indices@;
                let ghost old_args = new_args@;
                proof {
                    assert(trees(args@).take(i + 1).drop_last() =~= trees(args@).take(i as int));
                    assert(trees(args@).take(i + 1).last() == arg);
                    assert forall|k: int| #[trigger] arg.reads(k) implies 0 <= k
                        < column_indices.len() && current[k] == column_indices[k] by {
                        lemma_arg_reads(expr@, i as int, k);
                    }
                    lemma_extended(
                        arg,
                        column_indices,
                        current,
                        side,
                        aliases.counter(),
                        current.len() as int,
                    );
                    lemma_extended_projections(
                        arg,
                        column_indices,
                        current,
                        schema,
                        side,
                        aliases.counter(),
                    );
                    lemma_pushed_projections_add(
                        done,
                        pushed(arg, column_indices, side),
                        column_indices,
                        schema,
                        id,
                    );
                    lemma_id_after_add(id, done.len(), pushed(arg, column_indices, side).len());
                }
                proof {
                    let offset = lemma_pushed_all_contains(
                        trees(args@),
                        column_indices,
                        side,
                        i as int,
                    );
                    assert forall|j: int, k: int|
                        0 <= j < pushed(arg, current, side).len() && #[trigger] pushed(
                            arg,
                            current,
                            side,
                        )[j].reads(k) implies current[k].index < schema.len() by {
                        law_pushed(arg, column_indices, side, j);
                        assert(arg.reads(k));
                        assert(pushed(expr@, column_indices, side)[offset + j].reads(k));
                    }
                }
                let result = self.rewrite(&args[i], aliases);
                transformed = transformed || result.transformed;
                new_args.push(result.data);
                assert(trees(new_args@) =~= trees(old_args).push(result.data@));
                assert(self.intermediate_column_indices@ =~= column_indices + pushed_indices(
                    done.len() + pushed(arg, column_indices, side).len(),
                    before.len() as int,
                    side,
                ));
            }
            assert(trees(args@).take(args.len() as int) =~= trees(args@));
            if transformed {
                let data = Arc::new(Expr::Call { function: *function, args: new_args });
                assert(data@ == ExprView::Call { function: *function, args: trees(new_args@) });
                return Transformed { data, transformed };
            }
            proof {
                lemma_nothing_replaced_all(trees(args@), column_indices, side, id, first);
            }
        } else {
            assert(before + pushed_projections(seq![], column_indices, schema, id) =~= before);
            assert(column_indices + pushed_indices(0, before.len() as int, side)
                =~= column_indices);
        }
        Transformed { data: Arc::clone(expr), transformed: false }
    }
}

/// An expression refers to the columns that its subexpressions refer to.
pub proof fn lemma_arg_reads(expr: ExprView, i: int, index: int)
    requires
        expr is Call,
        0 <= i < expr->args.len(),
        expr->args[i].reads(index),
    ensures
        expr.reads(index),
{
}

proof fn lemma_arg_within(expr: ExprView, i: int, width: int)
    requires
        expr is Call,
        0 <= i < expr->args.len(),
        expr.within(width),
    ensures
        expr->args[i].within(width),
{
    assert forall|index: int| #[trigger] expr->args[i].reads(index) implies 0 <= index < width by {
        lemma_arg_reads(expr, i, index);
    }
}

/// An expression depends on a side if a subexpression does.
pub proof fn lemma_arg_depends(
    expr: ExprView,
    i: int,
    column_indices: Seq<ColumnIndex>,
    side: JoinSide,
)
    requires
        expr is Call,
        0 <= i < expr->args.len(),
        depends_on(expr->args[i], column_indices, side),
    ensures
        depends_on(expr, column_indices, side),
{
    let index = choose|index: int|
        #[trigger] expr->args[i].reads(index) && 0 <= index < column_indices.len()
            && column_indices[index].side == side;
    lemma_arg_reads(expr, i, index);
}

/// A call does not depend on a side if no subexpression does.
pub proof fn lemma_no_arg_depends(expr: ExprView, column_indices: Seq<ColumnIndex>, side: JoinSide)
    requires
        expr is Call,
        forall|i: int|
            0 <= i < expr->args.len() ==> !depends_on(
                #[trigger] expr->args[i],
                column_indices,
                side,
            ),
    ensures
        !depends_on(expr, column_indices, side),
{
    if depends_on(expr, column_indices, side) {
        let index = choose|index: int|
            #[trigger] expr.reads(index) && 0 <= index < column_indices.len()
                && column_indices[index].side == side;
        let i = choose|i: int|
            0 <= i < expr->args.len() && (#[trigger] expr->args[i]).reads(index);
        assert(depends_on(expr->args[i], column_indices, side));
    }
}

/// Nothing is pushed out of an expression that does not depend on the side.
pub proof fn lemma_independent(
    expr: ExprView,
    column_indices: Seq<ColumnIndex>,
    side: JoinSide,
    id: usize,
    first: int,
)
    requires
        !depends_on(expr, column_indices, side),
    ensures
        pushed(expr, column_indices, side) == Seq::<ExprView>::empty(),
        replaced(expr, column_indices, side, id, first) == expr,
    decreases expr,
{
    if let ExprView::Call { function, args } = expr {
        assert forall|i: int| 0 <= i < args.len() implies !depends_on(
            #[trigger] args[i],
            column_indices,
            side,
        ) by {
            if depends_on(args[i], column_indices, side) {
                lemma_arg_depends(expr, i, column_indices, side);
            }
        }
        lemma_independent_all(args, column_indices, side, id, first);
    }
}

proof fn lemma_independent_all(
    exprs: Seq<ExprView>,
    column_indices: Seq<ColumnIndex>,
    side: JoinSide,
    id: usize,
    first: int,
)
    requires
        forall|i: int|
            0 <= i < exprs.len() ==> !depends_on(#[trigger] exprs[i], column_indices, side),
    ensures
        pushed_all(exprs, column_indices, side) == Seq::<ExprView>::empty(),
        replaced_all(exprs, column_indices, side, id, first) == exprs,
    decreases exprs, exprs.len(),
{
    if exprs.len() > 0 {
        lemma_independent_all(exprs.drop_last(), column_indices, side, id, first);
        assert(!depends_on(exprs[exprs.len() - 1], column_indices, side));
        lemma_independent(exprs.last(), column_indices, side, id, first);
        assert(exprs.drop_last().push(exprs.last()) =~= exprs);
    }
}

/// Where nothing is pushed, nothing is replaced.
pub proof fn lemma_nothing_replaced(
    expr: ExprView,
    column_indices: Seq<ColumnIndex>,
    side: JoinSide,
    id: usize,
    first: int,
)
    requires
        pushed(expr, column_indices, side).len() == 0,
    ensures
        replaced(expr, column_indices, side, id, first) == expr,
    decreases expr, 0nat,
{
    if let ExprView::Call { function, args } = expr {
        lemma_nothing_replaced_all(args, column_indices, side, id, first);
    }
}

proof fn lemma_nothing_replaced_all(
    exprs: Seq<ExprView>,
    column_indices: Seq<ColumnIndex>,
    side: JoinSide,
    id: usize,
    first: int,
)
    requires
        pushed_all(exprs, column_indices, side).len() == 0,
    ensures
        replaced_all(exprs, column_indices, side, id, first) == exprs,
    decreases exprs, exprs.len(),
{
    if exprs.len() > 0 {
        lemma_nothing_replaced_all(exprs.drop_last(), column_indices, side, id, first);
        lemma_nothing_replaced(exprs.last(), column_indices, side, id, first);
        assert(exprs.drop_last().push(exprs.last()) =~= exprs);
    }
}

/// Only the columns that an expression refers to decide what is pushed out of it.
proof fn lemma_extended(
    expr: ExprView,
    column_indices: Seq<ColumnIndex>,
    extended: Seq<ColumnIndex>,
    side: JoinSide,
    id: usize,
    first: int,
)
    requires
        column_indices.len() <= extended.len(),
        forall|k: int| #[trigger]
            expr.reads(k) ==> 0 <= k < column_indices.len() && extended[k] == column_indices[k],
    ensures
        pushed(expr, extended, side) == pushed(expr, column_indices, side),
        replaced(expr, extended, side, id, first) == replaced(
            expr,
            column_indices,
            side,
            id,
            first,
        ),
    decreases expr, 0nat,
{
    assert(forall|s: JoinSide|
        depends_on(expr, extended, s) == depends_on(expr, column_indices, s));
    if let ExprView::Call { function, args } = expr {
        assert forall|i: int, k: int|
            0 <= i < args.len() && #[trigger] args[i].reads(k) implies 0 <= k
            < column_indices.len() && extended[k] == column_indices[k] by {
            lemma_arg_reads(expr, i, k);
        }
        lemma_extended_all(args, column_indices, extended, side, id, first);
    }
}

proof fn lemma_extended_all(
    exprs: Seq<ExprView>,
    column_indices: Seq<ColumnIndex>,
    extended: Seq<ColumnIndex>,
    side: JoinSide,
    id: usize,
    first: int,
)
    requires
        column_indices.len() <= extended.len(),
        forall|i: int, k: int|
            0 <= i < exprs.len() && #[trigger] exprs[i].reads(k) ==> 0 <= k < column_indices.len()
                && extended[k] == column_indices[k],
    ensures
        pushed_all(exprs, extended, side) == pushed_all(exprs, column_indices, side),
        replaced_all(exprs, extended, side, id, first) == replaced_all(
            exprs,
            column_indices,
            side,
            id,
            first,
        ),
    decreases exprs, exprs.len(),
{
    if exprs.len() > 0 {
        assert forall|i: int, k: int|
            0 <= i < exprs.drop_last().len() && #[trigger] exprs.drop_last()[i].reads(
                k,
            ) implies 0 <= k < column_indices.len() && extended[k] == column_indices[k] by {
            assert(exprs[i].reads(k));
        }
        assert forall|k: int| #[trigger] exprs.last().reads(k) implies 0 <= k
            < column_indices.len() && extended[k] == column_indices[k] by {
            assert(exprs[exprs.len() - 1].reads(k));
        }
        lemma_extended_all(exprs.drop_last(), column_indices, extended, side, id, first);
        let before = pushed_all(exprs.drop_last(), column_indices, side).len();
        lemma_extended(
            exprs.last(),
            column_indices,
            extended,
            side,
            id_after(id, before),
            first + before,
        );
    }
}

/// Only what is computed from columns of one side alone, and always gives the same result on the
/// same columns, is pushed down into that side, and it refers to no column that the whole does not
/// refer to.
pub proof fn law_pushed(expr: ExprView, column_indices: Seq<ColumnIndex>, side: JoinSide, j: int)
    requires
        0 <= j < pushed(expr, column_indices, side).len(),
    ensures
        pushable(pushed(expr, column_indices, side)[j], column_indices, side),
        forall|k: int| #[trigger]
            pushed(expr, column_indices, side)[j].reads(k) ==> expr.reads(k),
    decreases expr, 0nat,
{
    if !pushable(expr, column_indices, side) {
        if let ExprView::Call { function, args } = expr {
            let i = lemma_pushed_all(args, column_indices, side, j);
            assert forall|k: int| #[trigger]
                pushed(expr, column_indices, side)[j].reads(k) implies expr.reads(k) by {
                lemma_arg_reads(expr, i, k);
            }
        }
    }
}

/// Each pushed subexpression comes out of one of the expressions.
proof fn lemma_pushed_all(
    exprs: Seq<ExprView>,
    column_indices: Seq<ColumnIndex>,
    side: JoinSide,
    j: int,
) -> (i: int)
    requires
        0 <= j < pushed_all(exprs, column_indices, side).len(),
    ensures
        0 <= i < exprs.len(),
        pushable(pushed_all(exprs, column_indices, side)[j], column_indices, side),
        forall|k: int| #[trigger]
            pushed_all(exprs, column_indices, side)[j].reads(k) ==> exprs[i].reads(k),
    decreases exprs, exprs.len(),
{
    let before = pushed_all(exprs.drop_last(), column_indices, side);
    if j < before.len() {
        lemma_pushed_all(exprs.drop_last(), column_indices, side, j)
    } else {
        law_pushed(exprs.last(), column_indices, side, j - before.len());
        exprs.len() - 1
    }
}

/// What is pushed out of one of the expressions stands, in order, in what is pushed out of all.
pub proof fn lemma_pushed_all_contains(
    exprs: Seq<ExprView>,
    column_indices: Seq<ColumnIndex>,
    side: JoinSide,
    i: int,
) -> (offset: int)
    requires
        0 <= i < exprs.len(),
    ensures
        0 <= offset,
        offset + pushed(exprs[i], column_indices, side).len() <= pushed_all(
            exprs,
            column_indices,
            side,
        ).len(),
        forall|j: int|
            0 <= j < pushed(exprs[i], column_indices, side).len() ==> #[trigger] pushed(
                exprs[i],
                column_indices,
                side,
            )[j] == pushed_all(exprs, column_indices, side)[offset + j],
    decreases exprs.len(),
{
    if i < exprs.len() - 1 {
        lemma_pushed_all_contains(exprs.drop_last(), column_indices, side, i)
    } else {
        pushed_all(exprs.drop_last(), column_indices, side).len() as int
    }
}

/// After the replacement an expression refers to columns that it referred to before, or to the
/// columns that took the places of the pushed subexpressions.
pub proof fn lemma_replaced_reads(
    expr: ExprView,
    column_indices: Seq<ColumnIndex>,
    side: JoinSide,
    id: usize,
    first: int,
    k: int,
)
    requires
        replaced(expr, column_indices, side, id, first).reads(k),
    ensures
        expr.reads(k) || first <= k < first + pushed(expr, column_indices, side).len(),
    decreases expr, 0nat,
{
    if !pushable(expr, column_indices, side) {
        if let ExprView::Call { function, args } = expr {
            let new_args = replaced_all(args, column_indices, side, id, first);
            let i = choose|i: int| 0 <= i < new_args.len() && (#[trigger] new_args[i]).reads(k);
            lemma_replaced_all_reads(args, column_indices, side, id, first, i, k);
            if !(first <= k < first + pushed_all(args, column_indices, side).len()) {
                lemma_arg_reads(expr, i, k);
            }
        }
    }
}

proof fn lemma_replaced_all_reads(
    exprs: Seq<ExprView>,
    column_indices: Seq<ColumnIndex>,
    side: JoinSide,
    id: usize,
    first: int,
    i: int,
    k: int,
)
    requires
        0 <= i < replaced_all(exprs, column_indices, side, id, first).len(),
        replaced_all(exprs, column_indices, side, id, first)[i].reads(k),
    ensures
        replaced_all(exprs, column_indices, side, id, first).len() == exprs.len(),
        exprs[i].reads(k) || first <= k < first + pushed_all(exprs, column_indices, side).len(),
    decreases exprs, exprs.len(),
{
    lemma_replaced_all_len(exprs, column_indices, side, id, first);
    let before = pushed_all(exprs.drop_last(), column_indices, side).len();
    if i < exprs.len() - 1 {
        lemma_replaced_all_len(exprs.drop_last(), column_indices, side, id, first);
        lemma_replaced_all_reads(exprs.drop_last(), column_indices, side, id, first, i, k);
    } else {
        lemma_replaced_all_len(exprs.drop_last(), column_indices, side, id, first);
        lemma_replaced_reads(
            exprs.last(),
            column_indices,
            side,
            id_after(id, before),
            first + before,
            k,
        );
    }
}

/// The replacement keeps the number of expressions.
pub proof fn lemma_replaced_all_len(
    exprs: Seq<ExprView>,
    column_indices: Seq<ColumnIndex>,
    side: JoinSide,
    id: usize,
    first: int,
)
    ensures
        replaced_all(exprs, column_indices, side, id, first).len() == exprs.len(),
    decreases exprs.len(),
{
    if exprs.len() > 0 {
        lemma_replaced_all_len(exprs.drop_last(), column_indices, side, id, first);
    }
}

/// After columns were replaced an expression refers to the replacements of columns that it
/// referred to before.
pub proof fn lemma_mapped_reads(
    expr: ExprView,
    f: spec_fn(ColumnView) -> ColumnView,
    k: int,
) -> (column: ColumnView)
    requires
        expr.mapped(f).reads(k),
    ensures
        expr.reads(column.index),
        f(column).index == k,
    decreases expr,
{
    match expr {
        ExprView::Column(column) => column,
        ExprView::Literal(_) => arbitrary(),
        ExprView::Call { function, args } => {
            let new_args = expr.mapped(f)->args;
            let i = choose|i: int| 0 <= i < new_args.len() && (#[trigger] new_args[i]).reads(k);
            assert(new_args[i] == args[i].mapped(f));
            let column = lemma_mapped_reads(args[i], f, k);
            lemma_arg_reads(expr, i, column.index);
            column
        },
    }
}

/// Replacing columns depends only on the columns that the expression refers to.
pub proof fn lemma_mapped_same(
    expr: ExprView,
    f: spec_fn(ColumnView) -> ColumnView,
    g: spec_fn(ColumnView) -> ColumnView,
)
    requires
        forall|column: ColumnView| #[trigger]
            expr.reads(column.index) ==> f(column) == g(column),
    ensures
        expr.mapped(f) == expr.mapped(g),
    decreases expr,
{
    match expr {
        ExprView::Column(column) => {
            assert(expr.reads(column.index));
        },
        ExprView::Literal(_) => {},
        ExprView::Call { function, args } => {
            assert forall|i: int| 0 <= i < args.len() implies (#[trigger] args[i]).mapped(f)
                == args[i].mapped(g) by {
                assert forall|column: ColumnView| #[trigger]
                    args[i].reads(column.index) implies f(column) == g(column) by {
                    lemma_arg_reads(expr, i, column.index);
                }
                lemma_mapped_same(args[i], f, g);
            }
            assert(expr.mapped(f)->args =~= expr.mapped(g)->args);
        },
    }
}

proof fn lemma_extended_projections(
    expr: ExprView,
    column_indices: Seq<ColumnIndex>,
    extended: Seq<ColumnIndex>,
    schema: Seq<FieldView>,
    side: JoinSide,
    id: usize,
)
    requires
        forall|k: int| #[trigger]
            expr.reads(k) ==> 0 <= k < column_indices.len() && extended[k] == column_indices[k],
    ensures
        pushed_projections(pushed(expr, column_indices, side), extended, schema, id)
            == pushed_projections(pushed(expr, column_indices, side), column_indices, schema, id),
{
    let exprs = pushed(expr, column_indices, side);
    let f = side_column(extended, schema);
    let g = side_column(column_indices, schema);
    assert forall|j: int| 0 <= j < exprs.len() implies #[trigger] exprs[j].mapped(f)
        == exprs[j].mapped(g) by {
        law_pushed(expr, column_indices, side, j);
        assert forall|column: ColumnView| #[trigger] exprs[j].reads(column.index) implies f(column)
            == g(column) by {
            assert(expr.reads(column.index));
        }
        lemma_mapped_same(exprs[j], f, g);
    }
    assert(pushed_projections(exprs, extended, schema, id) =~= pushed_projections(
        exprs,
        column_indices,
        schema,
        id,
    ));
}

proof fn lemma_pushed_projections_add(
    left: Seq<ExprView>,
    right: Seq<ExprView>,
    column_indices: Seq<ColumnIndex>,
    schema: Seq<FieldView>,
    id: usize,
)
    ensures
        pushed_projections(left + right, column_indices, schema, id) == pushed_projections(
            left,
            column_indices,
            schema,
            id,
        ) + pushed_projections(right, column_indices, schema, id_after(id, left.len())),
{
    assert forall|j: int| 0 <= j < right.len() implies #[trigger] id_after(
        id_after(id, left.len()),
        j as nat,
    ) == id_after(id, (left.len() + j) as nat) by {
        lemma_id_after_add(id, left.len(), j as nat);
    }
    assert(pushed_projections(left + right, column_indices, schema, id) =~= pushed_projections(
        left,
        column_indices,
        schema,
        id,
    ) + pushed_projections(right, column_indices, schema, id_after(id, left.len())));
}

} // verus!
