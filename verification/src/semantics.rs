use crate::aggregate::{AggregateExprView, AggregationView, SortExprView};
use crate::aggregate_push_down::evaluated;
use crate::expr::{ColumnView, ExprView, Function, Literal};
use crate::join::{ColumnIndex, JoinFilterView, JoinSide, JoinType, NestedLoopJoinView};
use crate::plan::{Partitioning, PlanView};
use crate::projection::ProjectionExprView;
use crate::rewriter::lemma_arg_reads;
use crate::schema::DataType;
use vstd::prelude::*;

verus! {

/// The values of the expressions of an aggregation on one row: of the group by keys, of the
/// arguments and the sort keys of each call, and of the filters that are there.
#[verifier::ext_equal]
#[verifier::reject_recursive_types(V)]
pub struct AggregateValues<V> {
    pub keys: Seq<V>,
    pub args: Seq<Seq<V>>,
    pub sort_keys: Seq<Seq<V>>,
    pub filters: Seq<Option<V>>,
}

/// What the parts of a plan mean over values of the type `V`. A rewrite keeps the rows of a plan if
/// it does so whatever these meanings are.
#[verifier::reject_recursive_types(V)]
pub struct Semantics<V> {
    /// The value of a constant.
    pub literal: spec_fn(Literal) -> V,
    /// The result of a function. A volatile function also depends on the row, or pair of rows, that
    /// it is evaluated for, which the last argument tells; for other functions it is empty.
    pub call: spec_fn(Function, Seq<V>, Seq<int>) -> V,
    /// What stands in a row for a missing value.
    pub null: V,
    /// The value that says whether a row found a match.
    pub boolean: spec_fn(bool) -> V,
    /// Whether a filter with this value lets a row pass.
    pub holds: spec_fn(V) -> bool,
    /// Which rows of two inputs a join puts together, by their positions, given the sizes of the
    /// inputs and which pairs of rows match.
    pub pairs: spec_fn(JoinType, nat, nat, spec_fn(int, int) -> bool) -> Seq<
        (Option<int>, Option<int>),
    >,
    /// The order in which a round robin repartition hands out its input, given its size.
    pub deal: spec_fn(u64, nat) -> Seq<int>,
    /// The rows that any other repartition hands out.
    pub shuffle: spec_fn(u64, Seq<Seq<V>>) -> Seq<Seq<V>>,
    /// The rows that an aggregation, of which only the shape is known, makes of the values of its
    /// expressions on each row of the input.
    pub aggregate: spec_fn(AggregationView, Seq<AggregateValues<V>>) -> Seq<Seq<V>>,
    /// The rows that any other operator makes of its inputs.
    pub other: spec_fn(u64, Seq<Seq<Seq<V>>>) -> Seq<Seq<V>>,
}

/// What stands for an expression of which only its place matters.
pub open spec fn blank() -> ExprView {
    ExprView::Literal(Literal { value: 0, data_type: DataType::Boolean, nullable: false })
}

/// An aggregation without its expressions.
pub open spec fn shape(aggregation: AggregationView) -> AggregationView {
    AggregationView {
        group_by: aggregation.group_by.map_values(
            |key: ProjectionExprView| ProjectionExprView { expr: blank(), alias: key.alias },
        ),
        aggr_exprs: aggregation.aggr_exprs.map_values(|call: AggregateExprView| call_shape(call)),
        filters: aggregation.filters.map_values(
            |filter: Option<ExprView>|
                match filter {
                    Some(_) => Some(blank()),
                    None => None,
                },
        ),
        ..aggregation
    }
}

/// An aggregate function call without its expressions.
pub open spec fn call_shape(call: AggregateExprView) -> AggregateExprView {
    AggregateExprView {
        call: call.call,
        args: call.args.map_values(|arg: ExprView| blank()),
        order_bys: call.order_bys.map_values(
            |sort: SortExprView| SortExprView { expr: blank(), options: sort.options },
        ),
    }
}

impl<V> Semantics<V> {
    /// The value of an expression on a row.
    pub open spec fn eval(self, expr: ExprView, row: Seq<V>, at: Seq<int>) -> V
        decreases expr,
    {
        match expr {
            ExprView::Column(column) => row[column.index],
            ExprView::Literal(literal) => (self.literal)(literal),
            ExprView::Call { function, args } => (self.call)(
                function,
                self.eval_all(args, row, at),
                if function.volatile {
                    at
                } else {
                    seq![]
                },
            ),
        }
    }

    /// The values of several expressions on a row.
    pub open spec fn eval_all(self, exprs: Seq<ExprView>, row: Seq<V>, at: Seq<int>) -> Seq<V>
        decreases exprs,
    {
        Seq::new(
            exprs.len(),
            |i: int|
                if 0 <= i < exprs.len() {
                    self.eval(exprs[i], row, at)
                } else {
                    arbitrary()
                },
        )
    }

    /// What a projection makes of a row.
    pub open spec fn project_row(
        self,
        exprs: Seq<ProjectionExprView>,
        row: Seq<V>,
        at: Seq<int>,
    ) -> Seq<V> {
        exprs.map_values(|expr: ProjectionExprView| self.eval(expr.expr, row, at))
    }

    /// What a projection makes of all rows.
    pub open spec fn project_rows(
        self,
        exprs: Seq<ProjectionExprView>,
        rows: Seq<Seq<V>>,
    ) -> Seq<Seq<V>> {
        Seq::new(rows.len(), |i: int| self.project_row(exprs, rows[i], seq![i]))
    }

    /// The intermediate row that the filter of a join looks at.
    pub open spec fn intermediate_row(
        self,
        column_indices: Seq<ColumnIndex>,
        left: Seq<V>,
        right: Seq<V>,
    ) -> Seq<V> {
        column_indices.map_values(
            |column: ColumnIndex|
                match column.side {
                    JoinSide::Left => left[column.index as int],
                    JoinSide::Right => right[column.index as int],
                },
        )
    }

    /// The value of the filter of a join for a pair of rows.
    pub open spec fn filter_value(
        self,
        filter: JoinFilterView,
        left: Seq<V>,
        right: Seq<V>,
        at: Seq<int>,
    ) -> V {
        self.eval(
            filter.expression,
            self.intermediate_row(filter.column_indices, left, right),
            at,
        )
    }

    /// Which pairs of rows match.
    pub open spec fn matches(
        self,
        filter: Option<JoinFilterView>,
        left: Seq<Seq<V>>,
        right: Seq<Seq<V>>,
    ) -> spec_fn(int, int) -> bool {
        |i: int, j: int|
            0 <= i < left.len() && 0 <= j < right.len() && match filter {
                Some(filter) => (self.holds)(
                    self.filter_value(filter, left[i], right[j], seq![i, j]),
                ),
                None => true,
            }
    }

    /// A row without values.
    pub open spec fn nulls(self, width: nat) -> Seq<V> {
        Seq::new(width, |i: int| self.null)
    }

    /// The row at a position, or a row without values.
    pub open spec fn row_or_nulls(
        self,
        rows: Seq<Seq<V>>,
        position: Option<int>,
        width: nat,
    ) -> Seq<V> {
        match position {
            Some(i) => if 0 <= i < rows.len() {
                rows[i]
            } else {
                self.nulls(width)
            },
            None => self.nulls(width),
        }
    }

    /// All columns of a row of a join, before any are left out. `found` tells whether the row found
    /// a match.
    pub open spec fn joined_row(
        self,
        join_type: JoinType,
        left: Seq<V>,
        right: Seq<V>,
        found: bool,
    ) -> Seq<V> {
        match join_type {
            JoinType::Inner | JoinType::Left | JoinType::Right | JoinType::Full => left + right,
            JoinType::LeftSemi | JoinType::LeftAnti => left,
            JoinType::RightSemi | JoinType::RightAnti => right,
            JoinType::LeftMark => left.push((self.boolean)(found)),
            JoinType::RightMark => right.push((self.boolean)(found)),
        }
    }

    /// The row of a join that comes out of a pair of positions.
    pub open spec fn join_row(
        self,
        join: NestedLoopJoinView,
        left: Seq<Seq<V>>,
        right: Seq<Seq<V>>,
        left_width: nat,
        right_width: nat,
        pair: (Option<int>, Option<int>),
    ) -> Seq<V> {
        let all = self.joined_row(
            join.join_type,
            self.row_or_nulls(left, pair.0, left_width),
            self.row_or_nulls(right, pair.1, right_width),
            pair.0 is Some && pair.1 is Some,
        );
        match join.projection {
            Some(projection) => projection.map_values(|i: usize| all[i as int]),
            None => all,
        }
    }

    /// The rows of a join.
    pub open spec fn join_rows(
        self,
        join: NestedLoopJoinView,
        left: Seq<Seq<V>>,
        right: Seq<Seq<V>>,
        left_width: nat,
        right_width: nat,
    ) -> Seq<Seq<V>> {
        (self.pairs)(
            join.join_type,
            left.len(),
            right.len(),
            self.matches(join.filter, left, right),
        ).map_values(
            |pair: (Option<int>, Option<int>)|
                self.join_row(join, left, right, left_width, right_width, pair),
        )
    }

    /// The row cut off or filled up to the given number of columns.
    pub open spec fn fit_row(self, row: Seq<V>, width: nat) -> Seq<V> {
        Seq::new(
            width,
            |i: int|
                if i < row.len() {
                    row[i]
                } else {
                    self.null
                },
        )
    }

    /// The rows cut off or filled up to the given number of columns.
    pub open spec fn fit_rows(self, rows: Seq<Seq<V>>, width: nat) -> Seq<Seq<V>> {
        rows.map_values(|row: Seq<V>| self.fit_row(row, width))
    }

    /// The positions of the rows in the order in which they are dealt out.
    pub open spec fn dealt_positions(self, operator: u64, size: nat) -> Seq<int> {
        (self.deal)(operator, size).filter(|i: int| 0 <= i < size)
    }

    /// The rows in the order in which they are dealt out.
    pub open spec fn dealt(self, operator: u64, rows: Seq<Seq<V>>) -> Seq<Seq<V>> {
        self.dealt_positions(operator, rows.len()).map_values(|i: int| rows[i])
    }

    /// The values of the expressions of an aggregation on a row.
    pub open spec fn aggregate_values(
        self,
        aggregation: AggregationView,
        row: Seq<V>,
        at: Seq<int>,
    ) -> AggregateValues<V> {
        AggregateValues {
            keys: aggregation.group_by.map_values(
                |key: ProjectionExprView| self.eval(key.expr, row, at),
            ),
            args: aggregation.aggr_exprs.map_values(
                |call: AggregateExprView| self.eval_all(call.args, row, at),
            ),
            sort_keys: aggregation.aggr_exprs.map_values(
                |call: AggregateExprView|
                    call.order_bys.map_values(|sort: SortExprView| self.eval(sort.expr, row, at)),
            ),
            filters: aggregation.filters.map_values(
                |filter: Option<ExprView>|
                    match filter {
                        Some(filter) => Some(self.eval(filter, row, at)),
                        None => None,
                    },
            ),
        }
    }

    /// The values of the expressions of an aggregation on each row.
    pub open spec fn evaluated_rows(
        self,
        aggregation: AggregationView,
        rows: Seq<Seq<V>>,
    ) -> Seq<AggregateValues<V>> {
        Seq::new(rows.len(), |i: int| self.aggregate_values(aggregation, rows[i], seq![i]))
    }

    /// The rows of a plan.
    pub open spec fn rows(self, plan: PlanView) -> Seq<Seq<V>>
        decreases plan,
    {
        match plan {
            PlanView::NestedLoopJoin { join, left, right, .. } => self.join_rows(
                join,
                self.rows(*left),
                self.rows(*right),
                left.fields().len(),
                right.fields().len(),
            ),
            PlanView::Projection { exprs, input, .. } => self.project_rows(
                exprs,
                self.rows(*input),
            ),
            PlanView::Aggregate { aggregate, input, .. } => self.fit_rows(
                (self.aggregate)(
                    shape(aggregate.aggregation),
                    self.evaluated_rows(aggregate.aggregation, self.rows(*input)),
                ),
                aggregate.schema.len(),
            ),
            PlanView::Cooperative { input, .. } => self.rows(*input),
            PlanView::Repartition { operator, partitioning, input } => match partitioning {
                Partitioning::RoundRobinBatch(_) => self.dealt(operator, self.rows(*input)),
                Partitioning::Other(_) => self.fit_rows(
                    (self.shuffle)(operator, self.rows(*input)),
                    input.fields().len(),
                ),
            },
            PlanView::Other { operator, schema, children } => self.fit_rows(
                (self.other)(operator, self.rows_all(children)),
                schema.len(),
            ),
        }
    }

    /// The rows of several plans.
    pub open spec fn rows_all(self, plans: Seq<PlanView>) -> Seq<Seq<Seq<V>>>
        decreases plans,
    {
        Seq::new(
            plans.len(),
            |i: int|
                if 0 <= i < plans.len() {
                    self.rows(plans[i])
                } else {
                    arbitrary()
                },
        )
    }
}

/// An expression in which columns were replaced has the value of the original, if the replacements
/// hold the values of the columns.
pub proof fn lemma_eval_mapped<V>(
    semantics: Semantics<V>,
    expr: ExprView,
    f: spec_fn(ColumnView) -> ColumnView,
    row: Seq<V>,
    other: Seq<V>,
    at: Seq<int>,
)
    requires
        forall|column: ColumnView| #[trigger]
            expr.reads(column.index) ==> other[f(column).index] == row[column.index],
    ensures
        semantics.eval(expr.mapped(f), other, at) == semantics.eval(expr, row, at),
    decreases expr,
{
    match expr {
        ExprView::Column(column) => {
            assert(expr.reads(column.index));
        },
        ExprView::Literal(_) => {},
        ExprView::Call { function, args } => {
            let new_args = expr.mapped(f)->args;
            assert forall|i: int| 0 <= i < args.len() implies semantics.eval(
                #[trigger] new_args[i],
                other,
                at,
            ) == semantics.eval(args[i], row, at) by {
                assert forall|column: ColumnView| #[trigger]
                    args[i].reads(column.index) implies other[f(column).index]
                    == row[column.index] by {
                    lemma_arg_reads(expr, i, column.index);
                }
                lemma_eval_mapped(semantics, args[i], f, row, other, at);
            }
            assert(semantics.eval_all(new_args, other, at) =~= semantics.eval_all(args, row, at));
        },
    }
}

/// The value of an expression that is not volatile does not depend on the row it is evaluated for,
/// beyond the values in it.
pub proof fn lemma_eval_anywhere<V>(
    semantics: Semantics<V>,
    expr: ExprView,
    row: Seq<V>,
    at: Seq<int>,
    elsewhere: Seq<int>,
)
    requires
        !expr.volatile(),
    ensures
        semantics.eval(expr, row, at) == semantics.eval(expr, row, elsewhere),
    decreases expr,
{
    if let ExprView::Call { function, args } = expr {
        assert forall|i: int| 0 <= i < args.len() implies semantics.eval(
            #[trigger] args[i],
            row,
            at,
        ) == semantics.eval(args[i], row, elsewhere) by {
            lemma_eval_anywhere(semantics, args[i], row, at, elsewhere);
        }
        assert(semantics.eval_all(args, row, at) =~= semantics.eval_all(args, row, elsewhere));
    }
}

/// Only rows that are there are dealt out.
pub proof fn lemma_dealt_positions<V>(semantics: Semantics<V>, operator: u64, size: nat)
    ensures
        forall|i: int|
            0 <= i < semantics.dealt_positions(operator, size).len() ==> 0 <= (
            #[trigger] semantics.dealt_positions(operator, size)[i]) < size,
{
    let exists_in_input = |i: int| 0 <= i < size;
    let order = (semantics.deal)(operator, size);
    assert forall|i: int| 0 <= i < semantics.dealt_positions(operator, size).len() implies 0 <= (
    #[trigger] semantics.dealt_positions(operator, size)[i]) < size by {
        order.lemma_filter_pred(exists_in_input, i);
    }
}

/// Every row of a plan has a value for each column of the plan.
pub proof fn lemma_row_widths<V>(semantics: Semantics<V>, plan: PlanView)
    ensures
        forall|i: int|
            0 <= i < semantics.rows(plan).len() ==> (#[trigger] semantics.rows(plan)[i]).len()
                == plan.fields().len(),
    decreases plan,
{
    match plan {
        PlanView::NestedLoopJoin { join, left, right, .. } => {
            lemma_row_widths(semantics, *left);
            lemma_row_widths(semantics, *right);
            let left_rows = semantics.rows(*left);
            let right_rows = semantics.rows(*right);
            assert forall|pair: (Option<int>, Option<int>)| #[trigger]
                semantics.join_row(
                    join,
                    left_rows,
                    right_rows,
                    left.fields().len(),
                    right.fields().len(),
                    pair,
                ).len() == plan.fields().len() by {
                let left_row = semantics.row_or_nulls(left_rows, pair.0, left.fields().len());
                let right_row = semantics.row_or_nulls(right_rows, pair.1, right.fields().len());
                assert(left_row.len() == left.fields().len());
                assert(right_row.len() == right.fields().len());
            }
            let pairs = (semantics.pairs)(
                join.join_type,
                left_rows.len(),
                right_rows.len(),
                semantics.matches(join.filter, left_rows, right_rows),
            );
            assert forall|i: int| 0 <= i < semantics.rows(plan).len() implies (
            #[trigger] semantics.rows(plan)[i]).len() == plan.fields().len() by {
                assert(semantics.rows(plan)[i] == semantics.join_row(
                    join,
                    left_rows,
                    right_rows,
                    left.fields().len(),
                    right.fields().len(),
                    pairs[i],
                ));
            }
        },
        PlanView::Projection { .. } => {},
        PlanView::Aggregate { .. } => {},
        PlanView::Cooperative { input, .. } => {
            lemma_row_widths(semantics, *input);
            assert(semantics.rows(plan) == semantics.rows(*input));
        },
        PlanView::Repartition { operator, partitioning, input } => {
            lemma_row_widths(semantics, *input);
            let input_rows = semantics.rows(*input);
            lemma_dealt_positions(semantics, operator, input_rows.len());
            let positions = semantics.dealt_positions(operator, input_rows.len());
            if partitioning is RoundRobinBatch {
                assert forall|i: int| 0 <= i < semantics.rows(plan).len() implies (
                #[trigger] semantics.rows(plan)[i]).len() == plan.fields().len() by {
                    assert(semantics.rows(plan)[i] == input_rows[positions[i]]);
                }
            }
        },
        PlanView::Other { .. } => {},
    }
}

} // verus!
