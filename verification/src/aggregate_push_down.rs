use crate::aggregate::{
    sort_views, Aggregate, AggregateExprView, AggregateMode, AggregateView, Aggregation,
    AggregationView, SortExprView,
};
use crate::aggregate_choice_laws::{
    has_work, law_extractable, law_leaf, law_proposed_if_work, passes_rows, worth_extracting,
};
use crate::aggregate_rewrite::lemma_proposal_valid;
use crate::aliases::{alias_name, first_free, following_id, id_after, Aliases};
use crate::expr::{
    group_trees, is_volatile, reads_any_column, same_column, same_expr, trees, Column, ColumnView,
    Expr, ExprView,
};
use crate::plan::{group_plan_trees, plan_trees, Partitioning, Plan, PlanView};
use crate::projection::{projection_views, ProjectionExpr, ProjectionExprView};
use crate::schema::FieldView;
use std::sync::Arc;
use vstd::prelude::*;

verus! {

/// The prefix of the aliases of expressions that are extracted out of an aggregate.
pub const AGGREGATE_EXPR_ALIAS_PREFIX: &'static str = "__datafusion_agg_expr";

/// Whether an expression is worth extracting out of an aggregate: it does some computation over at
/// least one input column, and evaluating it elsewhere cannot change its result.
pub open spec fn extractable(expr: ExprView) -> bool {
    expr is Call && !expr.volatile() && expr.reads_any()
}

/// Returns `true` if `expr` is worth extracting out of an aggregate: it does some computation over
/// at least one input column and evaluating it elsewhere in the plan cannot change its result.
pub fn is_extractable_aggregate_input(expr: &Expr) -> (result: bool)
    ensures
        result == extractable(expr@),
        result == worth_extracting(expr@),
{
    proof {
        law_extractable(expr@);
    }
    let computes = match expr {
        Expr::Column(_) => false,
        Expr::Literal(_) => false,
        Expr::Call { .. } => true,
    };
    computes && !is_volatile(expr) && reads_any_column(expr)
}

/// The leaf below a plan, if every operator on the way to it passes its input through, row by row.
pub open spec fn leaf_of(plan: PlanView) -> Option<PlanView>
    decreases plan,
{
    match plan {
        PlanView::Cooperative { input, .. } => leaf_of(*input),
        PlanView::Repartition { partitioning: Partitioning::RoundRobinBatch(_), input, .. } =>
            leaf_of(*input),
        PlanView::Other { children, .. } => if children.len() == 0 {
            Some(plan)
        } else {
            None
        },
        _ => None,
    }
}

/// Returns the leaf below `plan` if every operator on the way to it preserves both the cardinality
/// and the schema of its input.
pub fn cardinality_preserving_leaf(plan: &Arc<Plan>) -> (result: Option<&Arc<Plan>>)
    ensures
        match result {
            Some(leaf) => leaf_of(plan@) == Some(leaf@),
            None => leaf_of(plan@) is None,
        },
        result is Some <==> plan@.everywhere(|node: PlanView| passes_rows(node)),
    decreases plan,
{
    broadcast use group_plan_trees;

    proof {
        law_leaf(plan@);
    }
    match &**plan {
        Plan::Cooperative { input, .. } => cardinality_preserving_leaf(input),
        Plan::Repartition { partitioning, input, .. } => match partitioning {
            Partitioning::RoundRobinBatch(_) => cardinality_preserving_leaf(input),
            Partitioning::Other(_) => None,
        },
        Plan::Other { children, .. } => {
            assert(plan_trees(children@).len() == children.len());
            if children.len() == 0 {
                Some(plan)
            } else {
                None
            }
        },
        _ => None,
    }
}

/// The operators between a plan and its leaf keep the columns of the leaf.
pub proof fn law_leaf_columns(plan: PlanView)
    requires
        leaf_of(plan) is Some,
    ensures
        leaf_of(plan)->0 is Other,
        leaf_of(plan)->0.well_formed(),
        leaf_of(plan)->0.fields() == plan.fields(),
    decreases plan,
{
    match plan {
        PlanView::Cooperative { input, .. } => law_leaf_columns(*input),
        PlanView::Repartition { input, .. } => law_leaf_columns(*input),
        _ => {},
    }
}

/// The plan with another leaf.
pub open spec fn with_leaf(plan: PlanView, leaf: PlanView) -> PlanView
    decreases plan,
{
    match plan {
        PlanView::Cooperative { operator, input } => PlanView::Cooperative {
            operator,
            input: Box::new(with_leaf(*input, leaf)),
        },
        PlanView::Repartition { operator, partitioning, input } => PlanView::Repartition {
            operator,
            partitioning,
            input: Box::new(with_leaf(*input, leaf)),
        },
        _ => leaf,
    }
}

/// Puts another leaf under the operators that pass their input through.
pub fn replace_leaf(plan: &Arc<Plan>, leaf: &Arc<Plan>) -> (result: Arc<Plan>)
    ensures
        result@ == with_leaf(plan@, leaf@),
    decreases plan,
{
    match &**plan {
        Plan::Cooperative { operator, input } => Arc::new(
            Plan::Cooperative { operator: *operator, input: replace_leaf(input, leaf) },
        ),
        Plan::Repartition { operator, partitioning, input } => Arc::new(
            Plan::Repartition {
                operator: *operator,
                partitioning: *partitioning,
                input: replace_leaf(input, leaf),
            },
        ),
        _ => Arc::clone(leaf),
    }
}

/// The expressions of several output columns.
pub open spec fn column_exprs(exprs: Seq<ProjectionExprView>) -> Seq<ExprView> {
    exprs.map_values(|expr: ProjectionExprView| expr.expr)
}

/// The arguments of several aggregate function calls, in order.
pub open spec fn all_args(calls: Seq<AggregateExprView>) -> Seq<ExprView>
    decreases calls.len(),
{
    if calls.len() == 0 {
        seq![]
    } else {
        all_args(calls.drop_last()) + calls.last().args
    }
}

/// What an aggregate evaluates for each input row in any case: the group by keys, and the arguments
/// of its calls.
pub open spec fn aggregate_inputs(aggregation: AggregationView) -> Seq<ExprView> {
    column_exprs(aggregation.group_by) + all_args(aggregation.aggr_exprs)
}

/// `found`, and those of the expressions that are worth extracting, each once.
pub open spec fn extracted_into(found: Seq<ExprView>, exprs: Seq<ExprView>) -> Seq<ExprView>
    decreases exprs.len(),
{
    if exprs.len() == 0 {
        found
    } else {
        let before = extracted_into(found, exprs.drop_last());
        if extractable(exprs.last()) && !before.contains(exprs.last()) {
            before.push(exprs.last())
        } else {
            before
        }
    }
}

/// The distinct inputs of an aggregate that are worth extracting, in the order of their first use.
pub open spec fn extracted(aggregation: AggregationView) -> Seq<ExprView> {
    extracted_into(seq![], aggregate_inputs(aggregation))
}

proof fn lemma_extracted_into_add(
    found: Seq<ExprView>,
    left: Seq<ExprView>,
    right: Seq<ExprView>,
)
    ensures
        extracted_into(extracted_into(found, left), right) == extracted_into(found, left + right),
    decreases right.len(),
{
    if right.len() == 0 {
        assert(left + right =~= left);
    } else {
        lemma_extracted_into_add(found, left, right.drop_last());
        assert((left + right).drop_last() =~= left + right.drop_last());
    }
}

/// The position of the first of the expressions that is the same as `expr`.
fn position_of(exprs: &Vec<Arc<Expr>>, expr: &Expr) -> (result: Option<usize>)
    ensures
        match result {
            Some(position) => {
                &&& position < exprs.len()
                &&& trees(exprs@)[position as int] == expr@
                &&& forall|i: int| 0 <= i < position ==> (#[trigger] trees(exprs@)[i]) != expr@
            },
            None => !trees(exprs@).contains(expr@),
        },
{
    broadcast use group_trees;

    for position in 0..exprs.len()
        invariant
            trees(exprs@).len() == exprs.len(),
            forall|i: int| 0 <= i < position ==> (#[trigger] trees(exprs@)[i]) != expr@,
    {
        if same_expr(&exprs[position], expr) {
            return Some(position);
        }
    }
    None
}

/// Adds the expression if it is worth extracting and not there yet.
fn consider(found: &mut Vec<Arc<Expr>>, expr: &Arc<Expr>)
    ensures
        trees(final(found)@) == extracted_into(trees(old(found)@), seq![expr@]),
{
    broadcast use group_trees;

    proof {
        let exprs = seq![expr@];
        assert(exprs.drop_last() =~= seq![]);
        assert(extracted_into(trees(found@), exprs.drop_last()) == trees(found@));
    }
    if is_extractable_aggregate_input(expr) && position_of(found, expr).is_none() {
        found.push(Arc::clone(expr));
        assert(trees(found@) =~= trees(old(found)@).push(expr@));
    }
}

/// Collects the distinct inputs of an aggregate that are worth extracting.
fn extract(aggregation: &Aggregation) -> (found: Vec<Arc<Expr>>)
    ensures
        trees(found@) == extracted(aggregation@),
{
    broadcast use group_trees;

    let mut found: Vec<Arc<Expr>> = Vec::new();
    let ghost keys = column_exprs(aggregation@.group_by);
    assert(keys.take(0) =~= seq![]);
    assert(trees(found@) =~= seq![]);
    for i in 0..aggregation.group_by.len()
        invariant
            keys == column_exprs(aggregation@.group_by),
            trees(found@) == extracted_into(seq![], keys.take(i as int)),
    {
        consider(&mut found, &aggregation.group_by[i].expr);
        proof {
            let expr = aggregation.group_by@[i as int].expr@;
            assert(keys[i as int] == expr);
            lemma_extracted_into_add(seq![], keys.take(i as int), seq![expr]);
            assert(keys.take(i + 1) =~= keys.take(i as int) + seq![expr]);
        }
    }
    assert(keys.take(aggregation.group_by.len() as int) =~= keys);
    let ghost calls = aggregation@.aggr_exprs;
    assert(calls.take(0) =~= seq![]);
    assert(keys + all_args(calls.take(0)) =~= keys);
    for i in 0..aggregation.aggr_exprs.len()
        invariant
            keys == column_exprs(aggregation@.group_by),
            calls == aggregation@.aggr_exprs,
            trees(found@) == extracted_into(seq![], keys + all_args(calls.take(i as int))),
    {
        let call = &aggregation.aggr_exprs[i];
        let ghost before = keys + all_args(calls.take(i as int));
        let ghost args = trees(call.args@);
        assert(args.take(0) =~= seq![]);
        assert(before + args.take(0) =~= before);
        for j in 0..call.args.len()
            invariant
                args == trees(call.args@),
                args.len() == call.args.len(),
                trees(found@) == extracted_into(seq![], before + args.take(j as int)),
        {
            consider(&mut found, &call.args[j]);
            proof {
                let expr = args[j as int];
                lemma_extracted_into_add(seq![], before + args.take(j as int), seq![expr]);
                assert(before + args.take(j + 1) =~= (before + args.take(j as int)) + seq![expr]);
            }
        }
        proof {
            assert(args.take(call.args.len() as int) =~= args);
            assert(calls[i as int] == call@);
            assert(calls.take(i + 1).drop_last() =~= calls.take(i as int));
            assert(before + args =~= keys + all_args(calls.take(i + 1)));
        }
    }
    assert(calls.take(aggregation.aggr_exprs.len() as int) =~= calls);
    found
}

/// The columns that the expression refers to outside of the extracted expressions.
pub open spec fn remaining(expr: ExprView, extracted: Seq<ExprView>) -> Seq<ColumnView>
    decreases expr, 0nat,
{
    if extracted.contains(expr) {
        seq![]
    } else {
        match expr {
            ExprView::Column(column) => seq![column],
            ExprView::Literal(_) => seq![],
            ExprView::Call { args, .. } => remaining_all(args, extracted),
        }
    }
}

/// The columns that several expressions refer to outside of the extracted expressions.
pub open spec fn remaining_all(exprs: Seq<ExprView>, extracted: Seq<ExprView>) -> Seq<ColumnView>
    decreases exprs, exprs.len(),
{
    if exprs.len() == 0 {
        seq![]
    } else {
        remaining_all(exprs.drop_last(), extracted) + remaining(exprs.last(), extracted)
    }
}

/// The sort keys of an aggregate function call.
pub open spec fn sort_exprs(exprs: Seq<SortExprView>) -> Seq<ExprView> {
    exprs.map_values(|expr: SortExprView| expr.expr)
}

/// The arguments and sort keys of several aggregate function calls, call by call.
pub open spec fn all_call_exprs(calls: Seq<AggregateExprView>) -> Seq<ExprView>
    decreases calls.len(),
{
    if calls.len() == 0 {
        seq![]
    } else {
        all_call_exprs(calls.drop_last()) + calls.last().args + sort_exprs(calls.last().order_bys)
    }
}

/// The filters that are there.
pub open spec fn present(filters: Seq<Option<ExprView>>) -> Seq<ExprView>
    decreases filters.len(),
{
    if filters.len() == 0 {
        seq![]
    } else {
        match filters.last() {
            Some(filter) => present(filters.drop_last()).push(filter),
            None => present(filters.drop_last()),
        }
    }
}

/// All expressions that an aggregate evaluates on its input.
pub open spec fn evaluated(aggregation: AggregationView) -> Seq<ExprView> {
    column_exprs(aggregation.group_by) + all_call_exprs(aggregation.aggr_exprs) + present(
        aggregation.filters,
    )
}

/// `found`, and the columns that are not in it, each once.
pub open spec fn with_distinct(found: Seq<ColumnView>, columns: Seq<ColumnView>) -> Seq<ColumnView>
    decreases columns.len(),
{
    if columns.len() == 0 {
        found
    } else {
        let before = with_distinct(found, columns.drop_last());
        if before.contains(columns.last()) {
            before
        } else {
            before.push(columns.last())
        }
    }
}

proof fn lemma_with_distinct_add(
    found: Seq<ColumnView>,
    left: Seq<ColumnView>,
    right: Seq<ColumnView>,
)
    ensures
        with_distinct(with_distinct(found, left), right) == with_distinct(found, left + right),
    decreases right.len(),
{
    if right.len() == 0 {
        assert(left + right =~= left);
    } else {
        lemma_with_distinct_add(found, left, right.drop_last());
        assert((left + right).drop_last() =~= left + right.drop_last());
    }
}

/// The distinct columns that the aggregate still needs once the extracted expressions are columns
/// of its input, in the order of their first use.
pub open spec fn still_needed(aggregation: AggregationView) -> Seq<ColumnView> {
    with_distinct(seq![], remaining_all(evaluated(aggregation), extracted(aggregation)))
}

/// The views of several columns.
pub open spec fn column_views(columns: Seq<Column>) -> Seq<ColumnView> {
    columns.map_values(|column: Column| column@)
}

/// Adds the column if it is not there yet.
fn add_column(found: &mut Vec<Column>, column: &Column)
    ensures
        column_views(final(found)@) == with_distinct(column_views(old(found)@), seq![column@]),
{
    let ghost views = column_views(found@);
    proof {
        let columns = seq![column@];
        assert(columns.drop_last() =~= seq![]);
        assert(with_distinct(views, columns.drop_last()) == views);
    }
    for i in 0..found.len()
        invariant
            views == column_views(found@),
            *found == *old(found),
            with_distinct(views, seq![column@]) == (if views.contains(column@) {
                views
            } else {
                views.push(column@)
            }),
            forall|j: int| 0 <= j < i ==> (#[trigger] views[j]) != column@,
    {
        if same_column(&found[i], column) {
            assert(views[i as int] == column@);
            return;
        }
    }
    assert(!views.contains(column@));
    found.push(column.clone());
    assert(column_views(found@) =~= views.push(column@));
}

/// Collects the columns that the expression refers to outside of the extracted expressions.
fn collect_needed(expr: &Expr, extracted: &Vec<Arc<Expr>>, found: &mut Vec<Column>)
    ensures
        column_views(final(found)@) == with_distinct(
            column_views(old(found)@),
            remaining(expr@, trees(extracted@)),
        ),
    decreases expr,
{
    broadcast use group_trees;

    if position_of(extracted, expr).is_some() {
        return;
    }
    let ghost start = column_views(found@);
    match expr {
        Expr::Column(column) => add_column(found, column),
        Expr::Literal(_) => {},
        Expr::Call { function, args } => {
            let ghost all = trees(args@);
            assert(expr@ == ExprView::Call { function: *function, args: all });
            assert(all.take(0) =~= seq![]);
            for i in 0..args.len()
                invariant
                    all == trees(args@),
                    all.len() == args.len(),
                    decreases_to!(expr => args),
                    column_views(found@) == with_distinct(
                        start,
                        remaining_all(all.take(i as int), trees(extracted@)),
                    ),
            {
                collect_needed(&args[i], extracted, found);
                proof {
                    assert(all.take(i + 1).drop_last() =~= all.take(i as int));
                    assert(all.take(i + 1).last() == all[i as int]);
                    lemma_with_distinct_add(
                        start,
                        remaining_all(all.take(i as int), trees(extracted@)),
                        remaining(all[i as int], trees(extracted@)),
                    );
                }
            }
            assert(all.take(args.len() as int) =~= all);
        },
    }
}

/// One more expression after those that were looked at.
proof fn lemma_needed_step(exprs: Seq<ExprView>, expr: ExprView, extracted: Seq<ExprView>)
    ensures
        with_distinct(
            with_distinct(seq![], remaining_all(exprs, extracted)),
            remaining(expr, extracted),
        ) == with_distinct(seq![], remaining_all(exprs.push(expr), extracted)),
{
    assert(exprs.push(expr).drop_last() =~= exprs);
    lemma_with_distinct_add(
        seq![],
        remaining_all(exprs, extracted),
        remaining(expr, extracted),
    );
}

/// Collects the distinct columns that the aggregate still needs once the extracted expressions are
/// columns of its input.
fn collect_all_needed(aggregation: &Aggregation, exprs: &Vec<Arc<Expr>>) -> (found: Vec<Column>)
    ensures
        column_views(found@) == with_distinct(
            seq![],
            remaining_all(evaluated(aggregation@), trees(exprs@)),
        ),
{
    broadcast use group_trees;

    let mut found: Vec<Column> = Vec::new();
    let ghost keys = column_exprs(aggregation@.group_by);
    assert(keys.take(0) =~= seq![]);
    assert(column_views(found@) =~= seq![]);
    for i in 0..aggregation.group_by.len()
        invariant
            keys == column_exprs(aggregation@.group_by),
            column_views(found@) == with_distinct(
                seq![],
                remaining_all(keys.take(i as int), trees(exprs@)),
            ),
    {
        collect_needed(&aggregation.group_by[i].expr, exprs, &mut found);
        proof {
            let expr = keys[i as int];
            assert(expr == aggregation.group_by@[i as int].expr@);
            lemma_needed_step(keys.take(i as int), expr, trees(exprs@));
            assert(keys.take(i + 1) =~= keys.take(i as int).push(expr));
        }
    }
    assert(keys.take(aggregation.group_by.len() as int) =~= keys);
    let ghost calls = aggregation@.aggr_exprs;
    assert(calls.take(0) =~= seq![]);
    assert(keys + all_call_exprs(calls.take(0)) =~= keys);
    for i in 0..aggregation.aggr_exprs.len()
        invariant
            keys == column_exprs(aggregation@.group_by),
            calls == aggregation@.aggr_exprs,
            column_views(found@) == with_distinct(
                seq![],
                remaining_all(keys + all_call_exprs(calls.take(i as int)), trees(exprs@)),
            ),
    {
        let call = &aggregation.aggr_exprs[i];
        let ghost before = keys + all_call_exprs(calls.take(i as int));
        let ghost args = trees(call.args@);
        assert(before + args.take(0) =~= before);
        for j in 0..call.args.len()
            invariant
                args == trees(call.args@),
                args.len() == call.args.len(),
                column_views(found@) == with_distinct(
                    seq![],
                    remaining_all(before + args.take(j as int), trees(exprs@)),
                ),
        {
            collect_needed(&call.args[j], exprs, &mut found);
            proof {
                lemma_needed_step(before + args.take(j as int), args[j as int], trees(exprs@));
                assert(before + args.take(j + 1) =~= (before + args.take(j as int)).push(
                    args[j as int],
                ));
            }
        }
        assert(args.take(call.args.len() as int) =~= args);
        let ghost sorts = sort_exprs(sort_views(call.order_bys@));
        assert(before + args + sorts.take(0) =~= before + args);
        for j in 0..call.order_bys.len()
            invariant
                sorts == sort_exprs(sort_views(call.order_bys@)),
                column_views(found@) == with_distinct(
                    seq![],
                    remaining_all(before + args + sorts.take(j as int), trees(exprs@)),
                ),
        {
            collect_needed(&call.order_bys[j].expr, exprs, &mut found);
            proof {
                assert(sorts[j as int] == call.order_bys@[j as int].expr@);
                lemma_needed_step(
                    before + args + sorts.take(j as int),
                    sorts[j as int],
                    trees(exprs@),
                );
                assert(before + args + sorts.take(j + 1) =~= (before + args + sorts.take(
                    j as int,
                )).push(sorts[j as int]));
            }
        }
        proof {
            assert(sorts.take(call.order_bys.len() as int) =~= sorts);
            assert(calls[i as int] == call@);
            assert(calls.take(i + 1).drop_last() =~= calls.take(i as int));
            assert(before + args + sorts =~= keys + all_call_exprs(calls.take(i + 1)));
        }
    }
    assert(calls.take(aggregation.aggr_exprs.len() as int) =~= calls);
    let ghost before = keys + all_call_exprs(calls);
    let ghost filters = aggregation@.filters;
    assert(filters.take(0) =~= seq![]);
    assert(before + present(filters.take(0)) =~= before);
    for i in 0..aggregation.filters.len()
        invariant
            filters == aggregation@.filters,
            column_views(found@) == with_distinct(
                seq![],
                remaining_all(before + present(filters.take(i as int)), trees(exprs@)),
            ),
    {
        assert(filters.take(i + 1).drop_last() =~= filters.take(i as int));
        assert(filters.take(i + 1).last() == filters[i as int]);
        if let Some(filter) = &aggregation.filters[i] {
            collect_needed(filter, exprs, &mut found);
            proof {
                lemma_needed_step(
                    before + present(filters.take(i as int)),
                    filter@,
                    trees(exprs@),
                );
                assert(before + present(filters.take(i + 1)) =~= (before + present(
                    filters.take(i as int),
                )).push(filter@));
            }
        }
    }
    assert(filters.take(aggregation.filters.len() as int) =~= filters);
    found
}

/// The columns with one more, after all columns that are not behind it.
pub open spec fn inserted(columns: Seq<ColumnView>, column: ColumnView) -> Seq<ColumnView>
    decreases columns.len(),
{
    if columns.len() == 0 || columns.last().index <= column.index {
        columns.push(column)
    } else {
        inserted(columns.drop_last(), column).push(columns.last())
    }
}

/// The columns in the order of their positions, and columns with the same position in the order in
/// which they came.
pub open spec fn sorted(columns: Seq<ColumnView>) -> Seq<ColumnView>
    decreases columns.len(),
{
    if columns.len() == 0 {
        seq![]
    } else {
        inserted(sorted(columns.drop_last()), columns.last())
    }
}

proof fn lemma_inserted(columns: Seq<ColumnView>, column: ColumnView, i: int)
    requires
        0 <= i <= columns.len(),
        i == 0 || columns[i - 1].index <= column.index,
        forall|j: int| i <= j < columns.len() ==> (#[trigger] columns[j]).index > column.index,
    ensures
        inserted(columns, column) == columns.insert(i, column),
    decreases columns.len(),
{
    if i < columns.len() {
        assert(columns[columns.len() - 1].index > column.index);
        lemma_inserted(columns.drop_last(), column, i);
        assert(inserted(columns, column) =~= columns.insert(i, column));
    } else {
        assert(columns.insert(i, column) =~= columns.push(column));
    }
}

/// Sorts the columns by their positions.
fn sort_columns(columns: Vec<Column>) -> (result: Vec<Column>)
    ensures
        column_views(result@) == sorted(column_views(columns@)),
{
    let mut result: Vec<Column> = Vec::new();
    let ghost views = column_views(columns@);
    assert(views.take(0) =~= seq![]);
    assert(column_views(result@) =~= seq![]);
    for i in 0..columns.len()
        invariant
            views == column_views(columns@),
            column_views(result@) == sorted(views.take(i as int)),
    {
        let column = columns[i].clone();
        let ghost before = column_views(result@);
        let mut position = result.len();
        while position > 0 && result[position - 1].index > column.index
            invariant
                position <= result.len(),
                before == column_views(result@),
                column@ == views[i as int],
                forall|j: int|
                    position <= j < before.len() ==> (#[trigger] before[j]).index > column.index,
            decreases position,
        {
            assert(before[position - 1] == result@[position - 1]@);
            position = position - 1;
        }
        proof {
            if position > 0 {
                assert(before[position - 1] == result@[position - 1]@);
            }
            lemma_inserted(before, column@, position as int);
            assert(views.take(i + 1).drop_last() =~= views.take(i as int));
        }
        result.insert(position, column);
        assert(column_views(result@) =~= before.insert(position as int, column@));
    }
    assert(views.take(columns.len() as int) =~= views);
    result
}

/// Output columns that pass the given columns through.
pub open spec fn kept_columns(columns: Seq<ColumnView>) -> Seq<ProjectionExprView> {
    columns.map_values(
        |column: ColumnView|
            ProjectionExprView { expr: ExprView::Column(column), alias: column.name },
    )
}

/// The number of the next alias after the aliases with the given numbers.
pub open spec fn next_id(id: usize, ids: Seq<usize>) -> usize {
    if ids.len() == 0 {
        id
    } else {
        following_id(ids.last())
    }
}

/// The numbers of the first `count` aliases from number `id` on that are not names of fields.
pub open spec fn free_ids(id: usize, fields: Seq<FieldView>, count: nat) -> Seq<usize>
    decreases count,
{
    if count == 0 {
        seq![]
    } else {
        let before = free_ids(id, fields, (count - 1) as nat);
        let start = next_id(id, before);
        before.push(
            id_after(start, first_free(AGGREGATE_EXPR_ALIAS_PREFIX@, start, fields)),
        )
    }
}

/// Output columns that compute the given expressions, under aliases with the given numbers.
pub open spec fn computed_columns(
    exprs: Seq<ExprView>,
    ids: Seq<usize>,
) -> Seq<ProjectionExprView> {
    Seq::new(
        exprs.len(),
        |j: int|
            ProjectionExprView {
                expr: exprs[j],
                alias: alias_name(AGGREGATE_EXPR_ALIAS_PREFIX@, ids[j]),
            },
    )
}

/// The projection below an aggregate over an input with the given fields: the columns that the
/// aggregate still needs, and after them the extracted expressions under fresh aliases.
pub open spec fn aggregate_projection(
    aggregation: AggregationView,
    fields: Seq<FieldView>,
    id: usize,
) -> Seq<ProjectionExprView> {
    kept_columns(sorted(still_needed(aggregation))) + computed_columns(
        extracted(aggregation),
        free_ids(id, fields, extracted(aggregation).len()),
    )
}

/// Whether the expressions of an aggregate may be extracted: it evaluates its arguments on its
/// input, nothing refers to them from outside, only operators that pass rows through are between
/// the aggregate and a leaf, and some expression is worth it.
pub open spec fn eligible(aggregate: AggregateView, input: PlanView) -> bool {
    &&& aggregate.aggregation.mode is Partial || aggregate.aggregation.mode is Single
        || aggregate.aggregation.mode is SinglePartitioned
    &&& !aggregate.produces_dynamic_filter
    &&& leaf_of(input) is Some
    &&& extracted(aggregate.aggregation).len() > 0
}

/// Whether the expressions of an aggregate may be extracted.
pub fn is_eligible(aggregate: &Arc<Aggregate>, input: &Arc<Plan>) -> (result: bool)
    ensures
        result == eligible(aggregate@, input@),
        result == has_work(aggregate@, input@),
{
    broadcast use group_trees;

    proof {
        law_proposed_if_work(aggregate@, input@, 0);
    }
    matches!(
        aggregate.aggregation.mode,
        AggregateMode::Partial | AggregateMode::Single | AggregateMode::SinglePartitioned
    ) && !aggregate.produces_dynamic_filter && cardinality_preserving_leaf(input).is_some()
        && extract(&aggregate.aggregation).len() > 0
}

/// A projection that the owner of the plan is asked to push into the leaf below an aggregate.
pub struct AggregateProposal {
    pub aggregate: Arc<Aggregate>,
    pub input: Arc<Plan>,
    pub leaf: Arc<Plan>,
    pub projection: Vec<ProjectionExpr>,
    pub extracted_offset: usize,
}

/// The view of an [`AggregateProposal`].
pub struct AggregateProposalView {
    pub aggregate: AggregateView,
    pub input: PlanView,
    pub leaf: PlanView,
    pub projection: Seq<ProjectionExprView>,
    pub extracted_offset: int,
}

impl View for AggregateProposal {
    type V = AggregateProposalView;

    open spec fn view(&self) -> AggregateProposalView {
        AggregateProposalView {
            aggregate: self.aggregate@,
            input: self.input@,
            leaf: self.leaf@,
            projection: projection_views(self.projection@),
            extracted_offset: self.extracted_offset as int,
        }
    }
}

/// What is proposed for an aggregate, with aliases numbered from `id` on.
pub open spec fn propose(
    aggregate: AggregateView,
    input: PlanView,
    id: usize,
) -> Option<AggregateProposalView> {
    if eligible(aggregate, input) {
        Some(
            AggregateProposalView {
                aggregate,
                input,
                leaf: leaf_of(input)->0,
                projection: aggregate_projection(aggregate.aggregation, input.fields(), id),
                extracted_offset: still_needed(aggregate.aggregation).len() as int,
            },
        )
    } else {
        None
    }
}

/// The number of the next alias after a proposal.
pub open spec fn id_after_proposal(aggregate: AggregateView, input: PlanView, id: usize) -> usize {
    if eligible(aggregate, input) {
        next_id(id, free_ids(id, input.fields(), extracted(aggregate.aggregation).len()))
    } else {
        id
    }
}

proof fn lemma_inserted_len(columns: Seq<ColumnView>, column: ColumnView)
    ensures
        inserted(columns, column).len() == columns.len() + 1,
    decreases columns.len(),
{
    if columns.len() > 0 {
        lemma_inserted_len(columns.drop_last(), column);
    }
}

/// Sorting neither adds nor removes columns.
pub proof fn lemma_sorted_len(columns: Seq<ColumnView>)
    ensures
        sorted(columns).len() == columns.len(),
    decreases columns.len(),
{
    if columns.len() > 0 {
        lemma_sorted_len(columns.drop_last());
        lemma_inserted_len(sorted(columns.drop_last()), columns.last());
    }
}

proof fn lemma_free_ids(id: usize, fields: Seq<FieldView>, m: nat, n: nat)
    requires
        m <= n,
    ensures
        free_ids(id, fields, n).len() == n,
        free_ids(id, fields, n).take(m as int) == free_ids(id, fields, m),
        m > 0 ==> free_ids(id, fields, n)[m - 1] == free_ids(id, fields, m)[m - 1],
        free_ids(id, fields, m).len() == m,
    decreases n,
{
    if n > 0 && m < n {
        lemma_free_ids(id, fields, m, (n - 1) as nat);
        assert(free_ids(id, fields, n).take(m as int) =~= free_ids(id, fields, m));
    } else if n > 0 {
        lemma_free_ids(id, fields, (m - 1) as nat, (n - 1) as nat);
        assert(free_ids(id, fields, n).take(m as int) =~= free_ids(id, fields, m));
    } else {
        assert(free_ids(id, fields, n).take(m as int) =~= free_ids(id, fields, m));
    }
}

/// Tries to move the scalar expressions that an aggregate evaluates on its input (aggregate
/// arguments and group by keys) into the leaf below it.
///
/// The projection computes the expressions directly above the leaf. The owner of the plan lets its
/// regular projection pushdown absorb the projection into the leaf, and goes on with
/// [`AggregateProposal::rewrite`].
pub fn try_push_down_aggregate_expressions(
    aggregate: &Arc<Aggregate>,
    input: &Arc<Plan>,
    aliases: &mut Aliases,
) -> (result: Option<AggregateProposal>)
    ensures
        match propose(aggregate@, input@, old(aliases).counter()) {
            Some(proposal) => result matches Some(new) && new@ == proposal,
            None => result is None,
        },
        result matches Some(new) ==> new@.valid(),
        final(aliases).counter() == id_after_proposal(
            aggregate@,
            input@,
            old(aliases).counter(),
        ),
        result is Some <==> has_work(aggregate@, input@),
        result is None ==> final(aliases).counter() == old(aliases).counter(),
{
    broadcast use group_trees;

    let ghost id = aliases.counter();
    proof {
        law_proposed_if_work(aggregate@, input@, id);
    }
    if !matches!(
        aggregate.aggregation.mode,
        AggregateMode::Partial | AggregateMode::Single | AggregateMode::SinglePartitioned
    ) {
        return None;
    }
    // A filter that the aggregate feeds is stated in terms of the current arguments.
    if aggregate.produces_dynamic_filter {
        return None;
    }
    let leaf = match cardinality_preserving_leaf(input) {
        Some(leaf) => leaf,
        None => {
            return None;
        },
    };
    let exprs = extract(&aggregate.aggregation);
    if exprs.len() == 0 {
        return None;
    }
    proof {
        lemma_proposal_valid(aggregate@, input@, id);
    }
    let needed = sort_columns(collect_all_needed(&aggregate.aggregation, &exprs));
    proof {
        law_leaf_columns(input@);
        lemma_sorted_len(still_needed(aggregate@.aggregation));
    }
    let input_schema = leaf.schema();

    // Columns that pass through come first, extracted expressions after them.
    let mut projection: Vec<ProjectionExpr> = Vec::new();
    let ghost columns = column_views(needed@);
    for i in 0..needed.len()
        invariant
            columns == column_views(needed@),
            projection.len() == i,
            forall|j: int|
                0 <= j < i ==> (#[trigger] projection@[j])@ == kept_columns(columns)[j],
    {
        let column = needed[i].clone();
        let alias = needed[i].name.clone();
        projection.push(ProjectionExpr { expr: Arc::new(Expr::Column(column)), alias });
    }
    let extracted_offset = projection.len();
    let ghost kept = projection_views(projection@);
    assert(kept =~= kept_columns(columns));
    for i in 0..exprs.len()
        invariant
            extracted_offset == kept.len(),
            input_schema@ == input@.fields(),
            projection_views(projection@) == kept + computed_columns(
                trees(exprs@),
                free_ids(id, input@.fields(), exprs.len() as nat),
            ).take(i as int),
            aliases.counter() == next_id(id, free_ids(id, input@.fields(), i as nat)),
    {
        let ghost before = projection_views(projection@);
        let ghost count = exprs.len() as nat;
        let ghost computed = computed_columns(
            trees(exprs@),
            free_ids(id, input@.fields(), count),
        );
        let alias = aliases.next_free(AGGREGATE_EXPR_ALIAS_PREFIX, &input_schema);
        projection.push(ProjectionExpr { expr: Arc::clone(&exprs[i]), alias });
        proof {
            lemma_free_ids(id, input@.fields(), (i + 1) as nat, count);
            lemma_free_ids(id, input@.fields(), i as nat, (i + 1) as nat);
            assert(projection@[projection.len() - 1]@ == computed[i as int]);
            assert(projection_views(projection@) =~= before.push(computed[i as int]));
            assert(computed.take(i + 1) =~= computed.take(i as int).push(computed[i as int]));
        }
    }
    proof {
        let computed = computed_columns(
            trees(exprs@),
            free_ids(id, input@.fields(), exprs.len() as nat),
        );
        assert(computed.take(exprs.len() as int) =~= computed);
    }
    Some(
        AggregateProposal {
            aggregate: Arc::clone(aggregate),
            input: Arc::clone(input),
            leaf: Arc::clone(leaf),
            projection,
            extracted_offset,
        },
    )
}

} // verus!
