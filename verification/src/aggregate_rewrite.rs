use crate::aggregate::{
    aggregate_views, filter_views, sort_views, Aggregate, AggregateExpr, AggregateExprView,
    AggregateView, Aggregation, AggregationView, InputOrderMode, SortExpr, SortExprView,
};
use crate::aggregate_push_down::{
    all_call_exprs, column_exprs, eligible, evaluated, extracted, inserted, lemma_sorted_len,
    present, propose, remaining, remaining_all, replace_leaf, sorted, still_needed, with_distinct,
    with_leaf, AggregateProposal, AggregateProposalView,
};
use crate::expr::{group_trees, same_expr, trees, Column, ColumnView, Expr, ExprView};
use crate::plan::{Plan, PlanView};
use crate::projection::{projection_views, ProjectionExpr, ProjectionExprView};
use crate::schema::Schema;
use std::sync::Arc;
use vstd::prelude::*;

verus! {

/// The position of the first output column from position `from` on that computes `expr`, or the
/// number of output columns if there is none.
pub open spec fn first_match(
    projection: Seq<ProjectionExprView>,
    from: int,
    expr: ExprView,
) -> int
    decreases projection.len() - from,
{
    if from >= projection.len() {
        projection.len() as int
    } else if projection[from].expr == expr {
        from
    } else {
        first_match(projection, from + 1, expr)
    }
}

/// The position of the last of the first `n` output columns that passes the column at position
/// `index` through, or -1 if there is none.
pub open spec fn last_match(projection: Seq<ProjectionExprView>, n: int, index: int) -> int
    decreases n,
{
    if n <= 0 {
        -1
    } else if projection[n - 1].expr matches ExprView::Column(column) && column.index == index {
        n - 1
    } else {
        last_match(projection, n - 1, index)
    }
}

/// The expression in terms of the output columns of the projection, of which those from position
/// `offset` on compute extracted expressions, and those before pass columns through.
pub open spec fn rewritten(
    expr: ExprView,
    projection: Seq<ProjectionExprView>,
    offset: int,
) -> ExprView
    decreases expr,
{
    let position = first_match(projection, offset, expr);
    if position < projection.len() {
        ExprView::Column(ColumnView { name: projection[position].alias, index: position })
    } else {
        match expr {
            ExprView::Column(column) => ExprView::Column(
                ColumnView {
                    name: column.name,
                    index: last_match(projection, offset, column.index),
                },
            ),
            ExprView::Literal(_) => expr,
            ExprView::Call { function, args } => ExprView::Call {
                function,
                args: Seq::new(
                    args.len(),
                    |i: int|
                        if 0 <= i < args.len() {
                            rewritten(args[i], projection, offset)
                        } else {
                            arbitrary()
                        },
                ),
            },
        }
    }
}

/// Whether the projection has an output column for everything that the expression needs.
pub open spec fn covered(
    expr: ExprView,
    projection: Seq<ProjectionExprView>,
    offset: int,
) -> bool
    decreases expr,
{
    first_match(projection, offset, expr) < projection.len() || match expr {
        ExprView::Column(column) => last_match(projection, offset, column.index) >= 0,
        ExprView::Literal(_) => true,
        ExprView::Call { args, .. } => forall|i: int|
            0 <= i < args.len() ==> covered(#[trigger] args[i], projection, offset),
    }
}

/// The aggregation in terms of the output columns of the projection.
pub open spec fn rewritten_aggregation(
    aggregation: AggregationView,
    projection: Seq<ProjectionExprView>,
    offset: int,
) -> AggregationView {
    AggregationView {
        group_by: aggregation.group_by.map_values(
            |key: ProjectionExprView|
                ProjectionExprView {
                    expr: rewritten(key.expr, projection, offset),
                    alias: key.alias,
                },
        ),
        aggr_exprs: aggregation.aggr_exprs.map_values(
            |call: AggregateExprView| rewritten_call(call, projection, offset),
        ),
        filters: aggregation.filters.map_values(
            |filter: Option<ExprView>|
                match filter {
                    Some(filter) => Some(rewritten(filter, projection, offset)),
                    None => None,
                },
        ),
        ..aggregation
    }
}

/// The aggregate function call in terms of the output columns of the projection.
pub open spec fn rewritten_call(
    call: AggregateExprView,
    projection: Seq<ProjectionExprView>,
    offset: int,
) -> AggregateExprView {
    AggregateExprView {
        call: call.call,
        args: call.args.map_values(|arg: ExprView| rewritten(arg, projection, offset)),
        order_bys: call.order_bys.map_values(
            |sort: SortExprView|
                SortExprView {
                    expr: rewritten(sort.expr, projection, offset),
                    options: sort.options,
                },
        ),
    }
}

impl AggregateProposalView {
    /// Whether the projection has an output column for everything that the aggregate needs.
    pub open spec fn valid(self) -> bool {
        &&& 0 <= self.extracted_offset <= self.projection.len()
        &&& forall|expr: ExprView| #[trigger]
            evaluated(self.aggregate.aggregation).contains(expr) ==> covered(
                expr,
                self.projection,
                self.extracted_offset,
            )
    }
}

/// An aggregate after the rewrite, before the owner of the plan has made it: what it computes, and
/// its input.
pub struct RewrittenAggregate {
    pub aggregation: Aggregation,
    pub input: Arc<Plan>,
}

/// What the owner of the plan found when it made an aggregate.
pub struct BuiltAggregate {
    pub schema: Schema,
    pub input_order_mode: InputOrderMode,
    pub produces_dynamic_filter: bool,
}

/// The position of the first output column from position `from` on that computes `expr`, or the
/// number of output columns if there is none.
fn find_extracted(projection: &Vec<ProjectionExpr>, from: usize, expr: &Expr) -> (result: usize)
    requires
        from <= projection.len(),
    ensures
        result == first_match(projection_views(projection@), from as int, expr@),
{
    let mut position = from;
    while position < projection.len()
        invariant
            from <= position <= projection.len(),
            first_match(projection_views(projection@), from as int, expr@) == first_match(
                projection_views(projection@),
                position as int,
                expr@,
            ),
        decreases projection.len() - position,
    {
        assert(projection_views(projection@)[position as int] == projection@[position as int]@);
        if same_expr(&projection[position].expr, expr) {
            return position;
        }
        position = position + 1;
    }
    position
}

/// The position of the last of the first `n` output columns that passes a column through.
fn find_column(projection: &Vec<ProjectionExpr>, n: usize, index: usize) -> (result: usize)
    requires
        n <= projection.len(),
        last_match(projection_views(projection@), n as int, index as int) >= 0,
    ensures
        result == last_match(projection_views(projection@), n as int, index as int),
{
    let mut end = n;
    while end > 0
        invariant
            end <= n <= projection.len(),
            last_match(projection_views(projection@), n as int, index as int) >= 0,
            last_match(projection_views(projection@), n as int, index as int) == last_match(
                projection_views(projection@),
                end as int,
                index as int,
            ),
        decreases end,
    {
        assert(projection_views(projection@)[end - 1] == projection@[end - 1]@);
        if let Expr::Column(column) = &*projection[end - 1].expr {
            if column.index == index {
                return end - 1;
            }
        }
        end = end - 1;
    }
    0
}

/// Expresses `expr` in terms of the output columns of the projection.
fn rewrite_expr(
    expr: &Arc<Expr>,
    projection: &Vec<ProjectionExpr>,
    offset: usize,
) -> (result: Arc<Expr>)
    requires
        offset <= projection.len(),
        covered(expr@, projection_views(projection@), offset as int),
    ensures
        result@ == rewritten(expr@, projection_views(projection@), offset as int),
    decreases expr,
{
    broadcast use group_trees;

    let ghost columns = projection_views(projection@);
    let position = find_extracted(projection, offset, expr);
    if position < projection.len() {
        assert(columns[position as int] == projection@[position as int]@);
        return Arc::new(Expr::Column(Column::new(&projection[position].alias, position)));
    }
    match &**expr {
        Expr::Column(column) => {
            let index = find_column(projection, offset, column.index);
            Arc::new(Expr::Column(Column::new(&column.name, index)))
        },
        Expr::Literal(_) => Arc::clone(expr),
        Expr::Call { function, args } => {
            assert(expr@ == ExprView::Call { function: *function, args: trees(args@) });
            let mut new_args: Vec<Arc<Expr>> = Vec::new();
            for i in 0..args.len()
                invariant
                    offset <= projection.len(),
                    columns == projection_views(projection@),
                    expr@ == (ExprView::Call { function: *function, args: trees(args@) }),
                    covered(expr@, columns, offset as int),
                    first_match(columns, offset as int, expr@) >= columns.len(),
                    trees(args@).len() == args.len(),
                    decreases_to!(expr => args),
                    new_args.len() == i,
                    forall|j: int|
                        0 <= j < i ==> (#[trigger] new_args@[j])@ == rewritten(
                            trees(args@)[j],
                            columns,
                            offset as int,
                        ),
            {
                assert(covered(expr@->args[i as int], columns, offset as int));
                new_args.push(rewrite_expr(&args[i], projection, offset));
            }
            let result = Arc::new(Expr::Call { function: *function, args: new_args });
            assert(result@ == ExprView::Call { function: *function, args: trees(new_args@) });
            assert(trees(new_args@) =~= rewritten(expr@, columns, offset as int)->args);
            result
        },
    }
}

/// Expresses an aggregate function call in terms of the output columns of the projection.
fn rewrite_call(
    call: &AggregateExpr,
    projection: &Vec<ProjectionExpr>,
    offset: usize,
) -> (result: AggregateExpr)
    requires
        offset <= projection.len(),
        forall|i: int|
            0 <= i < call@.args.len() ==> covered(
                #[trigger] call@.args[i],
                projection_views(projection@),
                offset as int,
            ),
        forall|i: int|
            0 <= i < call@.order_bys.len() ==> covered(
                (#[trigger] call@.order_bys[i]).expr,
                projection_views(projection@),
                offset as int,
            ),
    ensures
        result@ == rewritten_call(call@, projection_views(projection@), offset as int),
{
    broadcast use group_trees;

    let ghost columns = projection_views(projection@);
    let ghost expected = rewritten_call(call@, columns, offset as int);
    let mut args: Vec<Arc<Expr>> = Vec::new();
    for i in 0..call.args.len()
        invariant
            offset <= projection.len(),
            columns == projection_views(projection@),
            expected == rewritten_call(call@, columns, offset as int),
            forall|i: int|
                0 <= i < call@.args.len() ==> covered(
                    #[trigger] call@.args[i],
                    columns,
                    offset as int,
                ),
            args.len() == i,
            forall|j: int| 0 <= j < i ==> (#[trigger] args@[j])@ == expected.args[j],
    {
        assert(call@.args[i as int] == call.args@[i as int]@);
        args.push(rewrite_expr(&call.args[i], projection, offset));
    }
    assert(trees(args@) =~= expected.args);
    let mut order_bys: Vec<SortExpr> = Vec::new();
    for i in 0..call.order_bys.len()
        invariant
            offset <= projection.len(),
            columns == projection_views(projection@),
            expected == rewritten_call(call@, columns, offset as int),
            forall|i: int|
                0 <= i < call@.order_bys.len() ==> covered(
                    (#[trigger] call@.order_bys[i]).expr,
                    columns,
                    offset as int,
                ),
            order_bys.len() == i,
            forall|j: int| 0 <= j < i ==> (#[trigger] order_bys@[j])@ == expected.order_bys[j],
    {
        let sort = &call.order_bys[i];
        assert(call@.order_bys[i as int] == sort@);
        let expr = rewrite_expr(&sort.expr, projection, offset);
        order_bys.push(SortExpr { expr, options: sort.options });
    }
    assert(sort_views(order_bys@) =~= expected.order_bys);
    AggregateExpr { call: Arc::clone(&call.call), args, order_bys }
}

/// The expressions of an aggregation are among those that it evaluates.
pub proof fn lemma_evaluated(aggregation: AggregationView)
    ensures
        forall|i: int|
            0 <= i < aggregation.group_by.len() ==> evaluated(aggregation).contains(
                (#[trigger] aggregation.group_by[i]).expr,
            ),
        forall|i: int, j: int|
            0 <= i < aggregation.aggr_exprs.len() && 0 <= j < aggregation.aggr_exprs[i].args.len()
                ==> evaluated(aggregation).contains(#[trigger] aggregation.aggr_exprs[i].args[j]),
        forall|i: int, j: int|
            0 <= i < aggregation.aggr_exprs.len() && 0 <= j
                < aggregation.aggr_exprs[i].order_bys.len() ==> evaluated(aggregation).contains(
                (#[trigger] aggregation.aggr_exprs[i].order_bys[j]).expr,
            ),
        forall|i: int|
            0 <= i < aggregation.filters.len() ==> ((
            #[trigger] aggregation.filters[i]) matches Some(filter) ==> evaluated(
                aggregation,
            ).contains(filter)),
{
    let keys = column_exprs(aggregation.group_by);
    let calls = all_call_exprs(aggregation.aggr_exprs);
    let filters = present(aggregation.filters);
    let all = evaluated(aggregation);
    assert forall|i: int| 0 <= i < aggregation.group_by.len() implies all.contains(
        (#[trigger] aggregation.group_by[i]).expr,
    ) by {
        assert(all[i] == keys[i]);
    }
    assert forall|k: int| 0 <= k < calls.len() implies all.contains(#[trigger] calls[k]) by {
        assert(all[keys.len() + k] == calls[k]);
    }
    assert forall|k: int| 0 <= k < filters.len() implies all.contains(#[trigger] filters[k]) by {
        assert(all[keys.len() + calls.len() + k] == filters[k]);
    }
    assert forall|i: int, j: int|
        0 <= i < aggregation.aggr_exprs.len() && 0 <= j
            < aggregation.aggr_exprs[i].args.len() implies all.contains(
        #[trigger] aggregation.aggr_exprs[i].args[j],
    ) by {
        let k = lemma_all_call_exprs_arg(aggregation.aggr_exprs, i, j);
        assert(all.contains(calls[k]));
    }
    assert forall|i: int, j: int|
        0 <= i < aggregation.aggr_exprs.len() && 0 <= j
            < aggregation.aggr_exprs[i].order_bys.len() implies all.contains(
        (#[trigger] aggregation.aggr_exprs[i].order_bys[j]).expr,
    ) by {
        let k = lemma_all_call_exprs_sort(aggregation.aggr_exprs, i, j);
        assert(all.contains(calls[k]));
    }
    assert forall|i: int| 0 <= i < aggregation.filters.len() implies ((
    #[trigger] aggregation.filters[i]) matches Some(filter) ==> all.contains(filter)) by {
        if aggregation.filters[i] is Some {
            let k = lemma_present(aggregation.filters, i);
            assert(all.contains(filters[k]));
        }
    }
}

proof fn lemma_all_call_exprs_arg(calls: Seq<AggregateExprView>, i: int, j: int) -> (k: int)
    requires
        0 <= i < calls.len(),
        0 <= j < calls[i].args.len(),
    ensures
        0 <= k < all_call_exprs(calls).len(),
        all_call_exprs(calls)[k] == calls[i].args[j],
    decreases calls.len(),
{
    if i < calls.len() - 1 {
        lemma_all_call_exprs_arg(calls.drop_last(), i, j)
    } else {
        all_call_exprs(calls.drop_last()).len() + j
    }
}

proof fn lemma_all_call_exprs_sort(calls: Seq<AggregateExprView>, i: int, j: int) -> (k: int)
    requires
        0 <= i < calls.len(),
        0 <= j < calls[i].order_bys.len(),
    ensures
        0 <= k < all_call_exprs(calls).len(),
        all_call_exprs(calls)[k] == calls[i].order_bys[j].expr,
    decreases calls.len(),
{
    if i < calls.len() - 1 {
        lemma_all_call_exprs_sort(calls.drop_last(), i, j)
    } else {
        (all_call_exprs(calls.drop_last()).len() + calls[i].args.len() + j) as int
    }
}

proof fn lemma_present(filters: Seq<Option<ExprView>>, i: int) -> (k: int)
    requires
        0 <= i < filters.len(),
        filters[i] is Some,
    ensures
        0 <= k < present(filters).len(),
        present(filters)[k] == filters[i]->0,
    decreases filters.len(),
{
    if i < filters.len() - 1 {
        lemma_present(filters.drop_last(), i)
    } else {
        present(filters.drop_last()).len() as int
    }
}

/// Expresses an aggregation in terms of the output columns of the projection.
fn rewrite_aggregation(
    aggregation: &Aggregation,
    projection: &Vec<ProjectionExpr>,
    offset: usize,
) -> (result: Aggregation)
    requires
        offset <= projection.len(),
        forall|expr: ExprView| #[trigger]
            evaluated(aggregation@).contains(expr) ==> covered(
                expr,
                projection_views(projection@),
                offset as int,
            ),
    ensures
        result@ == rewritten_aggregation(
            aggregation@,
            projection_views(projection@),
            offset as int,
        ),
{
    let ghost columns = projection_views(projection@);
    let ghost expected = rewritten_aggregation(aggregation@, columns, offset as int);
    proof {
        lemma_evaluated(aggregation@);
    }
    let mut group_by: Vec<ProjectionExpr> = Vec::new();
    for i in 0..aggregation.group_by.len()
        invariant
            offset <= projection.len(),
            columns == projection_views(projection@),
            expected == rewritten_aggregation(aggregation@, columns, offset as int),
            forall|i: int|
                0 <= i < aggregation@.group_by.len() ==> covered(
                    (#[trigger] aggregation@.group_by[i]).expr,
                    columns,
                    offset as int,
                ),
            group_by.len() == i,
            forall|j: int| 0 <= j < i ==> (#[trigger] group_by@[j])@ == expected.group_by[j],
    {
        let key = &aggregation.group_by[i];
        assert(aggregation@.group_by[i as int] == key@);
        let expr = rewrite_expr(&key.expr, projection, offset);
        group_by.push(ProjectionExpr { expr, alias: key.alias.clone() });
    }
    assert(projection_views(group_by@) =~= expected.group_by);
    let mut aggr_exprs: Vec<AggregateExpr> = Vec::new();
    for i in 0..aggregation.aggr_exprs.len()
        invariant
            offset <= projection.len(),
            columns == projection_views(projection@),
            expected == rewritten_aggregation(aggregation@, columns, offset as int),
            forall|i: int, j: int|
                0 <= i < aggregation@.aggr_exprs.len() && 0 <= j
                    < aggregation@.aggr_exprs[i].args.len() ==> covered(
                    #[trigger] aggregation@.aggr_exprs[i].args[j],
                    columns,
                    offset as int,
                ),
            forall|i: int, j: int|
                0 <= i < aggregation@.aggr_exprs.len() && 0 <= j
                    < aggregation@.aggr_exprs[i].order_bys.len() ==> covered(
                    (#[trigger] aggregation@.aggr_exprs[i].order_bys[j]).expr,
                    columns,
                    offset as int,
                ),
            aggr_exprs.len() == i,
            forall|j: int| 0 <= j < i ==> (#[trigger] aggr_exprs@[j])@ == expected.aggr_exprs[j],
    {
        assert(aggregation@.aggr_exprs[i as int] == aggregation.aggr_exprs@[i as int]@);
        aggr_exprs.push(rewrite_call(&aggregation.aggr_exprs[i], projection, offset));
    }
    assert(aggregate_views(aggr_exprs@) =~= expected.aggr_exprs);
    let mut filters: Vec<Option<Arc<Expr>>> = Vec::new();
    for i in 0..aggregation.filters.len()
        invariant
            offset <= projection.len(),
            columns == projection_views(projection@),
            expected == rewritten_aggregation(aggregation@, columns, offset as int),
            forall|i: int|
                0 <= i < aggregation@.filters.len() ==> ((
                #[trigger] aggregation@.filters[i]) matches Some(filter) ==> covered(
                    filter,
                    columns,
                    offset as int,
                )),
            filters.len() == i,
            forall|j: int|
                0 <= j < i ==> (#[trigger] filter_views(filters@)[j]) == expected.filters[j],
    {
        let ghost before = filters@;
        let filter = match &aggregation.filters[i] {
            Some(filter) => {
                assert(aggregation@.filters[i as int] == Some(filter@));
                Some(rewrite_expr(filter, projection, offset))
            },
            None => None,
        };
        filters.push(filter);
        assert forall|j: int| 0 <= j < i implies (#[trigger] filter_views(filters@)[j])
            == expected.filters[j] by {
            assert(filter_views(before)[j] == expected.filters[j]);
        }
    }
    assert(filter_views(filters@) =~= expected.filters);
    Aggregation {
        mode: aggregation.mode,
        group_by,
        grouping_sets: Arc::clone(&aggregation.grouping_sets),
        aggr_exprs,
        filters,
        limit_options: aggregation.limit_options,
    }
}

impl AggregateProposal {
    /// Rewrites the aggregate over the leaf that came out when the owner of the plan pushed the
    /// projection down. Returns `None` if that is a projection: the leaf declined.
    pub fn rewrite(&self, new_leaf: &Arc<Plan>) -> (result: Option<RewrittenAggregate>)
        requires
            self@.valid(),
        ensures
            result is None <==> new_leaf@ is Projection,
            result matches Some(new) ==> {
                &&& new.aggregation@ == rewritten_aggregation(
                    self@.aggregate.aggregation,
                    self@.projection,
                    self@.extracted_offset,
                )
                &&& new.input@ == with_leaf(self@.input, new_leaf@)
            },
    {
        if let Plan::Projection { .. } = &**new_leaf {
            return None;
        }
        let aggregation = rewrite_aggregation(
            &self.aggregate.aggregation,
            &self.projection,
            self.extracted_offset,
        );
        Some(RewrittenAggregate { aggregation, input: replace_leaf(&self.input, new_leaf) })
    }

    /// Decides about the rewritten aggregate once the owner of the plan has made it. It must be
    /// invisible to the operators above, and must fit the order of its input as before. Returns
    /// `None` if the original aggregate is to stay.
    pub fn accept(
        &self,
        rewritten: RewrittenAggregate,
        built: BuiltAggregate,
    ) -> (result: Option<Arc<Plan>>)
        ensures
            result is Some <==> built.schema@ == self@.aggregate.schema
                && built.input_order_mode@ == self@.aggregate.input_order_mode,
            result matches Some(new) ==> new@ == (PlanView::Aggregate {
                operator: None,
                aggregate: AggregateView {
                    aggregation: rewritten.aggregation@,
                    schema: built.schema@,
                    input_order_mode: built.input_order_mode@,
                    produces_dynamic_filter: built.produces_dynamic_filter,
                },
                input: Box::new(rewritten.input@),
            }),
    {
        if !built.schema.same_schema(&self.aggregate.schema) || !built.input_order_mode.same_mode(
            &self.aggregate.input_order_mode,
        ) {
            return None;
        }
        let aggregate = Aggregate {
            aggregation: rewritten.aggregation,
            schema: built.schema,
            input_order_mode: built.input_order_mode,
            produces_dynamic_filter: built.produces_dynamic_filter,
        };
        Some(
            Arc::new(
                Plan::Aggregate {
                    operator: None,
                    aggregate: Arc::new(aggregate),
                    input: rewritten.input,
                },
            ),
        )
    }
}

/// The first match computes the expression, and no column before it does.
pub proof fn lemma_first_match(projection: Seq<ProjectionExprView>, from: int, expr: ExprView)
    requires
        0 <= from <= projection.len(),
    ensures
        from <= first_match(projection, from, expr) <= projection.len(),
        first_match(projection, from, expr) < projection.len() ==> projection[first_match(
            projection,
            from,
            expr,
        )].expr == expr,
        forall|i: int|
            from <= i < first_match(projection, from, expr) ==> (
            #[trigger] projection[i]).expr != expr,
    decreases projection.len() - from,
{
    if from < projection.len() && projection[from].expr != expr {
        lemma_first_match(projection, from + 1, expr);
    }
}

/// The last match passes the column through, and no column after it does.
pub proof fn lemma_last_match(projection: Seq<ProjectionExprView>, n: int, index: int)
    requires
        0 <= n <= projection.len(),
    ensures
        -1 <= last_match(projection, n, index) < n || n == 0,
        last_match(projection, n, index) >= 0 ==> {
            let column = projection[last_match(projection, n, index)].expr;
            column is Column && column->Column_0.index == index
        },
        forall|i: int|
            0 <= i < n && (#[trigger] projection[i]).expr is Column
                && projection[i].expr->Column_0.index == index ==> last_match(
                projection,
                n,
                index,
            ) >= i,
    decreases n,
{
    if n > 0 {
        lemma_last_match(projection, n - 1, index);
    }
}

proof fn lemma_with_distinct_contains(found: Seq<ColumnView>, columns: Seq<ColumnView>)
    ensures
        forall|column: ColumnView| #[trigger]
            found.contains(column) ==> with_distinct(found, columns).contains(column),
        forall|column: ColumnView| #[trigger]
            columns.contains(column) ==> with_distinct(found, columns).contains(column),
    decreases columns.len(),
{
    if columns.len() > 0 {
        let before = with_distinct(found, columns.drop_last());
        let all = with_distinct(found, columns);
        lemma_with_distinct_contains(found, columns.drop_last());
        assert forall|column: ColumnView| before.contains(column) implies all.contains(column) by {
            let i = choose|i: int| 0 <= i < before.len() && before[i] == column;
            assert(all[i] == column);
        }
        assert(all.contains(columns.last())) by {
            if !before.contains(columns.last()) {
                assert(all[all.len() - 1] == columns.last());
            }
        }
        assert forall|column: ColumnView| #[trigger] columns.contains(column) implies all.contains(
            column,
        ) by {
            let i = choose|i: int| 0 <= i < columns.len() && columns[i] == column;
            if i < columns.len() - 1 {
                assert(columns.drop_last()[i] == column);
                assert(columns.drop_last().contains(column));
            }
        }
    }
}

proof fn lemma_inserted_contains(columns: Seq<ColumnView>, column: ColumnView)
    ensures
        inserted(columns, column).contains(column),
        forall|c: ColumnView| #[trigger]
            columns.contains(c) ==> inserted(columns, column).contains(c),
    decreases columns.len(),
{
    let all = inserted(columns, column);
    if columns.len() == 0 || columns.last().index <= column.index {
        assert(all[columns.len() as int] == column);
        assert forall|c: ColumnView| #[trigger] columns.contains(c) implies all.contains(c) by {
            let i = choose|i: int| 0 <= i < columns.len() && columns[i] == c;
            assert(all[i] == c);
        }
    } else {
        let before = inserted(columns.drop_last(), column);
        lemma_inserted_contains(columns.drop_last(), column);
        assert forall|c: ColumnView| before.contains(c) implies all.contains(c) by {
            let i = choose|i: int| 0 <= i < before.len() && before[i] == c;
            assert(all[i] == c);
        }
        assert(all[all.len() - 1] == columns.last());
        assert forall|c: ColumnView| #[trigger] columns.contains(c) implies all.contains(c) by {
            let i = choose|i: int| 0 <= i < columns.len() && columns[i] == c;
            if i < columns.len() - 1 {
                assert(columns.drop_last()[i] == c);
                assert(columns.drop_last().contains(c));
            }
        }
    }
}

proof fn lemma_sorted_contains(columns: Seq<ColumnView>)
    ensures
        forall|column: ColumnView| #[trigger]
            columns.contains(column) ==> sorted(columns).contains(column),
    decreases columns.len(),
{
    if columns.len() > 0 {
        lemma_sorted_contains(columns.drop_last());
        lemma_inserted_contains(sorted(columns.drop_last()), columns.last());
        assert forall|column: ColumnView| #[trigger] columns.contains(column) implies sorted(
            columns,
        ).contains(column) by {
            let i = choose|i: int| 0 <= i < columns.len() && columns[i] == column;
            if i < columns.len() - 1 {
                assert(columns.drop_last()[i] == column);
                assert(columns.drop_last().contains(column));
            }
        }
    }
}

proof fn lemma_remaining_all_contains(exprs: Seq<ExprView>, extracted: Seq<ExprView>, i: int)
    requires
        0 <= i < exprs.len(),
    ensures
        forall|column: ColumnView| #[trigger]
            remaining(exprs[i], extracted).contains(column) ==> remaining_all(
                exprs,
                extracted,
            ).contains(column),
    decreases exprs.len(),
{
    let before = remaining_all(exprs.drop_last(), extracted);
    let last = remaining(exprs.last(), extracted);
    let all = remaining_all(exprs, extracted);
    if i < exprs.len() - 1 {
        lemma_remaining_all_contains(exprs.drop_last(), extracted, i);
        assert forall|column: ColumnView| #[trigger]
            remaining(exprs[i], extracted).contains(column) implies all.contains(column) by {
            assert(exprs.drop_last()[i] == exprs[i]);
            assert(before.contains(column));
            let k = choose|k: int| 0 <= k < before.len() && before[k] == column;
            assert(all[k] == column);
        }
    } else {
        assert forall|column: ColumnView| #[trigger]
            remaining(exprs[i], extracted).contains(column) implies all.contains(column) by {
            let k = choose|k: int| 0 <= k < last.len() && last[k] == column;
            assert(all[before.len() + k] == column);
        }
    }
}

/// An expression is covered if its remaining columns are.
proof fn lemma_covered(
    expr: ExprView,
    extracted: Seq<ExprView>,
    projection: Seq<ProjectionExprView>,
    offset: int,
)
    requires
        forall|e: ExprView| #[trigger]
            extracted.contains(e) ==> first_match(projection, offset, e) < projection.len(),
        forall|column: ColumnView| #[trigger]
            remaining(expr, extracted).contains(column) ==> last_match(
                projection,
                offset,
                column.index,
            ) >= 0,
    ensures
        covered(expr, projection, offset),
    decreases expr,
{
    if !extracted.contains(expr) {
        match expr {
            ExprView::Column(column) => {
                assert(remaining(expr, extracted)[0] == column);
                assert(remaining(expr, extracted).contains(column));
            },
            ExprView::Literal(_) => {},
            ExprView::Call { function, args } => {
                assert forall|i: int| 0 <= i < args.len() implies covered(
                    #[trigger] args[i],
                    projection,
                    offset,
                ) by {
                    lemma_remaining_all_contains(args, extracted, i);
                    assert forall|column: ColumnView| #[trigger]
                        remaining(args[i], extracted).contains(column) implies last_match(
                        projection,
                        offset,
                        column.index,
                    ) >= 0 by {
                        assert(remaining(expr, extracted) == remaining_all(args, extracted));
                        assert(remaining(expr, extracted).contains(column));
                    }
                    lemma_covered(args[i], extracted, projection, offset);
                }
            },
        }
    }
}

/// What is proposed for an aggregate has an output column for everything that the aggregate needs.
pub proof fn lemma_proposal_valid(aggregate: AggregateView, input: PlanView, id: usize)
    requires
        eligible(aggregate, input),
    ensures
        propose(aggregate, input, id)->0.valid(),
{
    let proposal = propose(aggregate, input, id)->0;
    let projection = proposal.projection;
    let offset = proposal.extracted_offset;
    let aggregation = aggregate.aggregation;
    let exprs = extracted(aggregation);
    let needed = still_needed(aggregation);
    let columns = sorted(needed);
    lemma_sorted_len(needed);
    assert forall|e: ExprView| #[trigger] exprs.contains(e) implies first_match(
        projection,
        offset,
        e,
    ) < projection.len() by {
        lemma_first_match(projection, offset, e);
        let j = choose|j: int| 0 <= j < exprs.len() && exprs[j] == e;
        assert(projection[offset + j].expr == e);
    }
    let all = evaluated(aggregation);
    assert forall|expr: ExprView| #[trigger] all.contains(expr) implies covered(
        expr,
        projection,
        offset,
    ) by {
        let i = choose|i: int| 0 <= i < all.len() && all[i] == expr;
        assert forall|column: ColumnView| #[trigger]
            remaining(expr, exprs).contains(column) implies last_match(
            projection,
            offset,
            column.index,
        ) >= 0 by {
            lemma_remaining_all_contains(all, exprs, i);
            lemma_with_distinct_contains(seq![], remaining_all(all, exprs));
            lemma_sorted_contains(needed);
            assert(columns.contains(column));
            let k = choose|k: int| 0 <= k < columns.len() && columns[k] == column;
            assert(projection[k].expr == ExprView::Column(column));
            lemma_last_match(projection, offset, column.index);
        }
        lemma_covered(expr, exprs, projection, offset);
    }
}

} // verus!
