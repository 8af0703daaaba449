use crate::aggregate::{AggregateExprView, AggregateMode, AggregateView, AggregationView};
use crate::aggregate_laws::{
    free_steps, law_extracted, law_kept_columns_in_order, lemma_extracted_into, lemma_free_steps,
    lemma_steps_ascend,
};
use crate::aggregate_push_down::{
    aggregate_inputs, all_args, all_call_exprs, column_exprs, eligible, evaluated, extractable,
    extracted, extracted_into, free_ids, id_after_proposal, leaf_of, lemma_sorted_len, present,
    propose, remaining, remaining_all, sort_exprs, sorted, still_needed, with_distinct, with_leaf,
    AGGREGATE_EXPR_ALIAS_PREFIX,
};
use crate::aggregate_rewrite::{
    covered, first_match, lemma_evaluated, lemma_first_match, lemma_last_match, rewritten,
    rewritten_aggregation,
};
use crate::aliases::{alias_name, id_after};
use crate::expr::{ColumnView, ExprView};
use crate::nodes::lemma_everywhere;
use crate::parts::{law_volatile, lemma_arg_part, lemma_column_read, lemma_read_column};
use crate::plan::PlanView;
use crate::projection::ProjectionExprView;
use crate::schema::{has_name, FieldView};
use vstd::prelude::*;

verus! {

/// Whether an expression is worth extracting: it is neither a column nor a constant, no node of it
/// is volatile, and some column stands in it.
pub open spec fn worth_extracting(expr: ExprView) -> bool {
    &&& !(expr is Column) && !(expr is Literal)
    &&& expr.steady()
    &&& exists|column: ColumnView| #[trigger] expr.has_column(column)
}

/// What the rule takes for extractable is what is worth extracting.
pub proof fn law_extractable(expr: ExprView)
    ensures
        extractable(expr) <==> worth_extracting(expr),
{
    law_volatile(expr);
    if expr.reads_any() {
        let index = choose|index: int| #[trigger] expr.reads(index);
        let column = lemma_read_column(expr, index);
        assert(expr.has_column(column));
    }
    if exists|column: ColumnView| #[trigger] expr.has_column(column) {
        let column = choose|column: ColumnView| #[trigger] expr.has_column(column);
        lemma_column_read(expr, column);
        assert(expr.reads_any());
    }
}

/// Whether an aggregation has an input at a place: the group by key `j`, for the call number -1, or
/// the argument `j` of a call.
pub open spec fn is_place(aggregation: AggregationView, call: int, j: int) -> bool {
    if call == -1 {
        0 <= j < aggregation.group_by.len()
    } else {
        0 <= call < aggregation.aggr_exprs.len() && 0 <= j
            < aggregation.aggr_exprs[call].args.len()
    }
}

/// The input at a place.
pub open spec fn input_at(aggregation: AggregationView, call: int, j: int) -> ExprView {
    if call == -1 {
        aggregation.group_by[j].expr
    } else {
        aggregation.aggr_exprs[call].args[j]
    }
}

/// Whether an expression is a group by key or an argument of a call.
pub open spec fn is_input(aggregation: AggregationView, expr: ExprView) -> bool {
    exists|call: int, j: int| #[trigger]
        is_place(aggregation, call, j) && input_at(aggregation, call, j) == expr
}

/// Whether an expression is used as an input before another: at a place before all places of the
/// other, where group by keys come first, and then the arguments call by call.
pub open spec fn used_before(
    aggregation: AggregationView,
    expr: ExprView,
    other: ExprView,
) -> bool {
    exists|call: int, j: int|
        {
            &&& #[trigger] is_place(aggregation, call, j)
            &&& input_at(aggregation, call, j) == expr
            &&& forall|other_call: int, other_j: int| #[trigger]
                is_place(aggregation, other_call, other_j) && input_at(
                    aggregation,
                    other_call,
                    other_j,
                ) == other ==> call < other_call || (call == other_call && j < other_j)
        }
}

/// Whether an expression is one that an aggregation evaluates on its input: a group by key, an
/// argument or a sort key of a call, or a filter.
pub open spec fn is_evaluated(aggregation: AggregationView, expr: ExprView) -> bool {
    ||| is_input(aggregation, expr)
    ||| exists|call: int, j: int|
        0 <= call < aggregation.aggr_exprs.len() && 0 <= j
            < aggregation.aggr_exprs[call].order_bys.len() && (
        #[trigger] aggregation.aggr_exprs[call].order_bys[j]).expr == expr
    ||| exists|i: int|
        0 <= i < aggregation.filters.len() && #[trigger] aggregation.filters[i] == Some(expr)
}

/// Where the arguments of a call start among the arguments of all calls.
spec fn start_of(calls: Seq<AggregateExprView>, call: int) -> int {
    all_args(calls.take(call)).len() as int
}

proof fn lemma_start_of(calls: Seq<AggregateExprView>, call: int, later: int)
    requires
        0 <= call < later <= calls.len(),
    ensures
        start_of(calls, call) + calls[call].args.len() <= start_of(calls, later),
        forall|j: int|
            0 <= j < calls[call].args.len() ==> #[trigger] calls[call].args[j] == all_args(
                calls.take(later),
            )[start_of(calls, call) + j],
    decreases later,
{
    assert(calls.take(later).drop_last() =~= calls.take(later - 1));
    assert(calls.take(later).last() == calls[later - 1]);
    if call < later - 1 {
        lemma_start_of(calls, call, later - 1);
    }
}

proof fn lemma_place_of(calls: Seq<AggregateExprView>, n: int, p: int) -> (place: (int, int))
    requires
        0 <= n <= calls.len(),
        0 <= p < all_args(calls.take(n)).len(),
    ensures
        0 <= place.0 < n,
        0 <= place.1 < calls[place.0].args.len(),
        p == start_of(calls, place.0) + place.1,
    decreases n,
{
    if n == 0 {
        assert(calls.take(0) =~= seq![]);
        (0, 0)
    } else {
        assert(calls.take(n).drop_last() =~= calls.take(n - 1));
        assert(calls.take(n).last() == calls[n - 1]);
        let before = all_args(calls.take(n - 1)).len() as int;
        if p < before {
            lemma_place_of(calls, n - 1, p)
        } else {
            (n - 1, p - before)
        }
    }
}

/// The number of a place among all places.
spec fn number_of(aggregation: AggregationView, call: int, j: int) -> int {
    if call == -1 {
        j
    } else {
        aggregation.group_by.len() + start_of(aggregation.aggr_exprs, call) + j
    }
}

proof fn lemma_number_of(aggregation: AggregationView, call: int, j: int)
    requires
        is_place(aggregation, call, j),
    ensures
        0 <= number_of(aggregation, call, j) < aggregate_inputs(aggregation).len(),
        aggregate_inputs(aggregation)[number_of(aggregation, call, j)] == input_at(
            aggregation,
            call,
            j,
        ),
{
    let calls = aggregation.aggr_exprs;
    assert(calls.take(calls.len() as int) =~= calls);
    if call != -1 {
        lemma_start_of(calls, call, calls.len() as int);
        assert(calls[call].args[j] == all_args(calls)[start_of(calls, call) + j]);
    }
}

proof fn lemma_place(aggregation: AggregationView, p: int) -> (place: (int, int))
    requires
        0 <= p < aggregate_inputs(aggregation).len(),
    ensures
        is_place(aggregation, place.0, place.1),
        number_of(aggregation, place.0, place.1) == p,
        input_at(aggregation, place.0, place.1) == aggregate_inputs(aggregation)[p],
{
    let calls = aggregation.aggr_exprs;
    let keys = aggregation.group_by.len();
    assert(calls.take(calls.len() as int) =~= calls);
    let place = if p < keys {
        (-1int, p)
    } else {
        lemma_place_of(calls, calls.len() as int, p - keys)
    };
    lemma_number_of(aggregation, place.0, place.1);
    place
}

/// Places come in the order of their numbers.
proof fn lemma_place_order(
    aggregation: AggregationView,
    call: int,
    j: int,
    other_call: int,
    other_j: int,
)
    requires
        is_place(aggregation, call, j),
        is_place(aggregation, other_call, other_j),
        number_of(aggregation, call, j) < number_of(aggregation, other_call, other_j),
    ensures
        call < other_call || (call == other_call && j < other_j),
{
    if other_call < call && other_call != -1 {
        lemma_start_of(aggregation.aggr_exprs, other_call, call);
    }
    if other_call == -1 && call != -1 {
        assert(number_of(aggregation, call, j) >= aggregation.group_by.len());
    }
}

/// The inputs of an aggregation are its group by keys and the arguments of its calls.
pub proof fn law_inputs(aggregation: AggregationView, expr: ExprView)
    ensures
        aggregate_inputs(aggregation).contains(expr) <==> is_input(aggregation, expr),
{
    let inputs = aggregate_inputs(aggregation);
    if inputs.contains(expr) {
        let p = choose|p: int| 0 <= p < inputs.len() && inputs[p] == expr;
        let place = lemma_place(aggregation, p);
        assert(is_place(aggregation, place.0, place.1));
    }
    if is_input(aggregation, expr) {
        let (call, j) = choose|call: int, j: int| #[trigger]
            is_place(aggregation, call, j) && input_at(aggregation, call, j) == expr;
        lemma_number_of(aggregation, call, j);
        assert(inputs[number_of(aggregation, call, j)] == expr);
    }
}

/// What an aggregation evaluates on its input are its group by keys, the arguments and sort keys of
/// its calls, and its filters.
pub proof fn law_evaluated(aggregation: AggregationView, expr: ExprView)
    ensures
        evaluated(aggregation).contains(expr) <==> is_evaluated(aggregation, expr),
{
    lemma_evaluated(aggregation);
    let all = evaluated(aggregation);
    let keys = column_exprs(aggregation.group_by);
    let calls = all_call_exprs(aggregation.aggr_exprs);
    let filters = present(aggregation.filters);
    assert(aggregation.aggr_exprs.take(aggregation.aggr_exprs.len() as int)
        =~= aggregation.aggr_exprs);
    assert(aggregation.filters.take(aggregation.filters.len() as int) =~= aggregation.filters);
    if all.contains(expr) {
        let p = choose|p: int| 0 <= p < all.len() && all[p] == expr;
        if p < keys.len() {
            assert(all[p] == keys[p]);
            assert(is_place(aggregation, -1, p));
        } else if p < keys.len() + calls.len() {
            assert(all[p] == calls[p - keys.len()]);
            lemma_call_expr(aggregation, aggregation.aggr_exprs.len() as int, p - keys.len());
        } else {
            assert(all[p] == filters[p - keys.len() - calls.len()]);
            lemma_filter(
                aggregation,
                aggregation.filters.len() as int,
                p - keys.len() - calls.len(),
            );
        }
    }
    if is_evaluated(aggregation, expr) {
        if is_input(aggregation, expr) {
            let (call, j) = choose|call: int, j: int| #[trigger]
                is_place(aggregation, call, j) && input_at(aggregation, call, j) == expr;
            if call == -1 {
                assert(all.contains(aggregation.group_by[j].expr));
            } else {
                assert(all.contains(aggregation.aggr_exprs[call].args[j]));
            }
        } else if exists|call: int, j: int|
            0 <= call < aggregation.aggr_exprs.len() && 0 <= j
                < aggregation.aggr_exprs[call].order_bys.len() && (
            #[trigger] aggregation.aggr_exprs[call].order_bys[j]).expr == expr {
            let (call, j) = choose|call: int, j: int|
                0 <= call < aggregation.aggr_exprs.len() && 0 <= j
                    < aggregation.aggr_exprs[call].order_bys.len() && (
                #[trigger] aggregation.aggr_exprs[call].order_bys[j]).expr == expr;
            assert(all.contains(aggregation.aggr_exprs[call].order_bys[j].expr));
        } else {
            let i = choose|i: int|
                0 <= i < aggregation.filters.len() && #[trigger] aggregation.filters[i] == Some(
                    expr,
                );
            assert(aggregation.filters[i] is Some);
        }
    }
}

proof fn lemma_call_expr(aggregation: AggregationView, n: int, p: int)
    requires
        0 <= n <= aggregation.aggr_exprs.len(),
        0 <= p < all_call_exprs(aggregation.aggr_exprs.take(n)).len(),
    ensures
        n == aggregation.aggr_exprs.len() ==> is_evaluated(
            aggregation,
            all_call_exprs(aggregation.aggr_exprs)[p],
        ),
        is_evaluated(aggregation, all_call_exprs(aggregation.aggr_exprs.take(n))[p]),
    decreases n,
{
    let calls = aggregation.aggr_exprs;
    assert(calls.take(calls.len() as int) =~= calls);
    if n == 0 {
        assert(calls.take(0) =~= seq![]);
    } else {
        assert(calls.take(n).drop_last() =~= calls.take(n - 1));
        assert(calls.take(n).last() == calls[n - 1]);
        let before = all_call_exprs(calls.take(n - 1));
        let args = calls[n - 1].args;
        let sorts = sort_exprs(calls[n - 1].order_bys);
        if p < before.len() {
            lemma_call_expr(aggregation, n - 1, p);
        } else if p < before.len() + args.len() {
            assert(is_place(aggregation, n - 1, p - before.len()));
            assert(all_call_exprs(calls.take(n))[p] == args[p - before.len()]);
        } else {
            let j = p - before.len() - args.len();
            assert(all_call_exprs(calls.take(n))[p] == sorts[j]);
            assert(aggregation.aggr_exprs[n - 1].order_bys[j].expr == sorts[j]);
        }
    }
}

proof fn lemma_filter(aggregation: AggregationView, n: int, p: int)
    requires
        0 <= n <= aggregation.filters.len(),
        0 <= p < present(aggregation.filters.take(n)).len(),
    ensures
        n == aggregation.filters.len() ==> is_evaluated(
            aggregation,
            present(aggregation.filters)[p],
        ),
        is_evaluated(aggregation, present(aggregation.filters.take(n))[p]),
    decreases n,
{
    let filters = aggregation.filters;
    assert(filters.take(filters.len() as int) =~= filters);
    if n == 0 {
        assert(filters.take(0) =~= seq![]);
    } else {
        assert(filters.take(n).drop_last() =~= filters.take(n - 1));
        assert(filters.take(n).last() == filters[n - 1]);
        let before = present(filters.take(n - 1));
        if p < before.len() {
            lemma_filter(aggregation, n - 1, p);
        } else {
            assert(filters[n - 1] == Some(present(filters.take(n))[p]));
        }
    }
}

/// Whether an operator hands each row of its input on, one for one, or has no input.
pub open spec fn passes_rows(node: PlanView) -> bool {
    match node {
        PlanView::Cooperative { .. } => true,
        PlanView::Repartition { partitioning, .. } => partitioning is RoundRobinBatch,
        PlanView::Other { children, .. } => children.len() == 0,
        _ => false,
    }
}

/// A plan has a leaf below operators that pass their input through if and only if all its nodes are
/// such operators or that leaf, which is the only node without inputs.
pub proof fn law_leaf(plan: PlanView)
    ensures
        leaf_of(plan) is Some <==> plan.everywhere(|node: PlanView| passes_rows(node)),
        leaf_of(plan) matches Some(leaf) ==> {
            &&& exists|path: Seq<int>| #[trigger] plan.at(path) == Some(leaf)
            &&& forall|path: Seq<int>|
                (#[trigger] plan.at(path)) is Some && plan.at(path)->0.inputs().len() == 0
                    ==> plan.at(path) == Some(leaf)
            &&& leaf is Other && leaf.inputs().len() == 0
        },
    decreases plan,
{
    let holds = |node: PlanView| passes_rows(node);
    lemma_everywhere(plan, holds);
    match plan {
        PlanView::Cooperative { operator, input } => {
            assert(plan.inputs()[0] == *input);
            law_leaf(*input);
            lemma_leaf_through(plan);
        },
        PlanView::Repartition { operator, partitioning, input } => {
            assert(plan.inputs()[0] == *input);
            law_leaf(*input);
            lemma_leaf_through(plan);
        },
        PlanView::Other { operator, schema, children } => {
            if children.len() == 0 {
                assert(plan.at(Seq::<int>::empty()) == Some(plan));
            }
        },
        _ => {},
    }
}

proof fn lemma_leaf_through(plan: PlanView)
    requires
        plan.inputs().len() == 1,
        leaf_of(plan) is Some ==> leaf_of(plan.inputs()[0]) == leaf_of(plan),
        leaf_of(plan.inputs()[0]) matches Some(leaf) ==> {
            &&& exists|path: Seq<int>| #[trigger] plan.inputs()[0].at(path) == Some(leaf)
            &&& forall|path: Seq<int>|
                (#[trigger] plan.inputs()[0].at(path)) is Some
                    && plan.inputs()[0].at(path)->0.inputs().len() == 0
                    ==> plan.inputs()[0].at(path) == Some(leaf)
        },
    ensures
        leaf_of(plan) matches Some(leaf) ==> {
            &&& exists|path: Seq<int>| #[trigger] plan.at(path) == Some(leaf)
            &&& forall|path: Seq<int>|
                (#[trigger] plan.at(path)) is Some && plan.at(path)->0.inputs().len() == 0
                    ==> plan.at(path) == Some(leaf)
        },
{
    if let Some(leaf) = leaf_of(plan) {
        let input = plan.inputs()[0];
        let path = choose|path: Seq<int>| #[trigger] input.at(path) == Some(leaf);
        let longer = seq![0int] + path;
        assert(longer.drop_first() =~= path);
        assert(plan.at(longer) == Some(leaf));
        assert forall|path: Seq<int>|
            (#[trigger] plan.at(path)) is Some && plan.at(path)->0.inputs().len()
                == 0 implies plan.at(path) == Some(leaf) by {
            if path.len() > 0 {
                assert(path[0] == 0);
                assert(input.at(path.drop_first()) is Some);
            }
        }
    }
}

/// Whether something is to be extracted out of an aggregate: it evaluates its arguments on rows, it
/// feeds no dynamic filter, its input is a leaf below operators that pass rows through one for one,
/// and a group by key or an argument is worth extracting.
pub open spec fn has_work(aggregate: AggregateView, input: PlanView) -> bool {
    &&& aggregate.aggregation.mode == AggregateMode::Partial || aggregate.aggregation.mode
        == AggregateMode::Single || aggregate.aggregation.mode == AggregateMode::SinglePartitioned
    &&& !aggregate.produces_dynamic_filter
    &&& input.everywhere(|node: PlanView| passes_rows(node))
    &&& exists|expr: ExprView| #[trigger]
        is_input(aggregate.aggregation, expr) && worth_extracting(expr)
}

/// Something is proposed for an aggregate if and only if something is to be extracted out of it.
/// For any other aggregate, such as one in a final mode or one that feeds a dynamic filter, no
/// number of an alias is used up.
pub proof fn law_proposed_if_work(aggregate: AggregateView, input: PlanView, id: usize)
    ensures
        eligible(aggregate, input) <==> has_work(aggregate, input),
        propose(aggregate, input, id) is Some <==> has_work(aggregate, input),
        !has_work(aggregate, input) ==> id_after_proposal(aggregate, input, id) == id,
{
    let aggregation = aggregate.aggregation;
    let exprs = extracted(aggregation);
    law_leaf(input);
    law_extracted(aggregation);
    if exprs.len() > 0 {
        assert(exprs.contains(exprs[0]));
        law_extractable(exprs[0]);
        law_inputs(aggregation, exprs[0]);
        assert(is_input(aggregation, exprs[0]));
    }
    if exists|expr: ExprView| #[trigger] is_input(aggregation, expr) && worth_extracting(expr) {
        let expr = choose|expr: ExprView| #[trigger]
            is_input(aggregation, expr) && worth_extracting(expr);
        law_extractable(expr);
        law_inputs(aggregation, expr);
        assert(exprs.contains(expr));
    }
}

/// Whether a column stands in an expression outside of the given parts.
pub open spec fn stands_outside(
    expr: ExprView,
    column: ColumnView,
    parts: Seq<ExprView>,
) -> bool
    decreases expr,
{
    &&& !parts.contains(expr)
    &&& match expr {
        ExprView::Column(c) => c == column,
        ExprView::Literal(_) => false,
        ExprView::Call { args, .. } => exists|i: int|
            0 <= i < args.len() && stands_outside(#[trigger] args[i], column, parts),
    }
}

/// Whether an aggregation still needs a column once the given parts are columns of its input.
pub open spec fn needs_column(
    aggregation: AggregationView,
    column: ColumnView,
    parts: Seq<ExprView>,
) -> bool {
    exists|expr: ExprView| #[trigger]
        is_evaluated(aggregation, expr) && stands_outside(expr, column, parts)
}

proof fn lemma_remaining(expr: ExprView, parts: Seq<ExprView>, column: ColumnView)
    ensures
        remaining(expr, parts).contains(column) <==> stands_outside(expr, column, parts),
    decreases expr, 0nat,
{
    if !parts.contains(expr) {
        match expr {
            ExprView::Column(c) => {
                assert(remaining(expr, parts)[0] == c);
            },
            ExprView::Literal(_) => {},
            ExprView::Call { function, args } => {
                lemma_remaining_of_any(args, parts, column);
                assert(remaining(expr, parts) == remaining_all(args, parts));
            },
        }
    }
}

proof fn lemma_remaining_of_any(exprs: Seq<ExprView>, parts: Seq<ExprView>, column: ColumnView)
    ensures
        remaining_all(exprs, parts).contains(column) <==> exists|i: int|
            0 <= i < exprs.len() && stands_outside(#[trigger] exprs[i], column, parts),
    decreases exprs, exprs.len(),
{
    if exprs.len() > 0 {
        let rest = exprs.drop_last();
        let before = remaining_all(rest, parts);
        let last = remaining(exprs.last(), parts);
        let all = remaining_all(exprs, parts);
        lemma_remaining_of_any(rest, parts, column);
        lemma_remaining(exprs.last(), parts, column);
        if all.contains(column) {
            let k = choose|k: int| 0 <= k < all.len() && all[k] == column;
            if k < before.len() {
                assert(before[k] == column);
                let i = choose|i: int|
                    0 <= i < rest.len() && stands_outside(#[trigger] rest[i], column, parts);
                assert(stands_outside(exprs[i], column, parts));
            } else {
                assert(last[k - before.len()] == column);
                assert(stands_outside(exprs[exprs.len() - 1], column, parts));
            }
        }
        if exists|i: int|
            0 <= i < exprs.len() && stands_outside(#[trigger] exprs[i], column, parts) {
            let i = choose|i: int|
                0 <= i < exprs.len() && stands_outside(#[trigger] exprs[i], column, parts);
            if i < rest.len() {
                assert(stands_outside(rest[i], column, parts));
                let k = choose|k: int| 0 <= k < before.len() && before[k] == column;
                assert(all[k] == column);
            } else {
                let k = choose|k: int| 0 <= k < last.len() && last[k] == column;
                assert(all[before.len() + k] == column);
            }
        }
    }
}

/// Leaving out repeated columns neither adds nor removes a column.
pub proof fn lemma_with_distinct(columns: Seq<ColumnView>)
    ensures
        with_distinct(seq![], columns).no_duplicates(),
        forall|column: ColumnView| #[trigger]
            with_distinct(seq![], columns).contains(column) <==> columns.contains(column),
    decreases columns.len(),
{
    if columns.len() > 0 {
        let rest = columns.drop_last();
        let last = columns.last();
        let before = with_distinct(seq![], rest);
        let all = with_distinct(seq![], columns);
        lemma_with_distinct(rest);
        assert forall|column: ColumnView| #[trigger] all.contains(column) <==> columns.contains(
            column,
        ) by {
            if all.contains(column) {
                let k = choose|k: int| 0 <= k < all.len() && all[k] == column;
                if k < before.len() {
                    assert(before[k] == column);
                    assert(before.contains(column));
                    assert(rest.contains(column));
                    let i = choose|i: int| 0 <= i < rest.len() && rest[i] == column;
                    assert(columns[i] == column);
                } else {
                    assert(columns[columns.len() - 1] == column);
                }
            }
            if columns.contains(column) {
                let i = choose|i: int| 0 <= i < columns.len() && columns[i] == column;
                if i < rest.len() {
                    assert(rest[i] == column);
                    assert(before.contains(column));
                    let k = choose|k: int| 0 <= k < before.len() && before[k] == column;
                    assert(all[k] == column);
                } else if before.contains(last) {
                    let k = choose|k: int| 0 <= k < before.len() && before[k] == last;
                    assert(all[k] == column);
                } else {
                    assert(all[all.len() - 1] == column);
                }
            }
        }
    }
}

proof fn lemma_sorted_same(columns: Seq<ColumnView>)
    requires
        columns.no_duplicates(),
    ensures
        sorted(columns).no_duplicates(),
        forall|column: ColumnView| #[trigger]
            sorted(columns).contains(column) <==> columns.contains(column),
{
    broadcast use vstd::seq_lib::group_to_multiset_ensures;

    law_kept_columns_in_order(columns);
    columns.lemma_multiset_has_no_duplicates();
    assert forall|column: ColumnView| #[trigger] sorted(columns).contains(column)
        <==> columns.contains(column) by {
        assert(sorted(columns).to_multiset().count(column) == columns.to_multiset().count(column));
    }
    assert forall|column: ColumnView| sorted(columns).to_multiset().contains(
        column,
    ) implies sorted(columns).to_multiset().count(column) == 1 by {
        assert(columns.to_multiset().contains(column));
    }
    sorted(columns).lemma_multiset_has_no_duplicates_conv();
}

/// The expressions of output columns from a position on.
pub open spec fn exprs_from(columns: Seq<ProjectionExprView>, offset: int) -> Seq<ExprView> {
    Seq::new((columns.len() - offset) as nat, |i: int| columns[offset + i].expr)
}

/// The projection that is proposed for an aggregate computes, behind the columns that it passes
/// through, every input of the aggregate that is worth extracting, each once, in the order of their
/// first use, and nothing else. It passes through, each once and in the order of their positions,
/// the columns that the aggregate needs besides, and no others.
pub proof fn law_proposal(aggregate: AggregateView, input: PlanView, id: usize)
    ensures
        propose(aggregate, input, id) matches Some(proposal) ==> {
            let aggregation = aggregate.aggregation;
            let projection = proposal.projection;
            let offset = proposal.extracted_offset;
            let computed = exprs_from(projection, offset);
            &&& proposal.aggregate == aggregate && proposal.input == input
            &&& exists|path: Seq<int>| #[trigger] input.at(path) == Some(proposal.leaf)
            &&& proposal.leaf.inputs().len() == 0
            &&& 0 <= offset < projection.len()
            &&& forall|expr: ExprView| #[trigger]
                computed.contains(expr) <==> is_input(aggregation, expr) && worth_extracting(expr)
            &&& computed.no_duplicates()
            &&& forall|i: int, j: int|
                0 <= i < j < computed.len() ==> used_before(
                    aggregation,
                    #[trigger] computed[i],
                    #[trigger] computed[j],
                )
            &&& forall|i: int|
                0 <= i < offset ==> {
                    &&& (#[trigger] projection[i]).expr is Column
                    &&& projection[i].alias == projection[i].expr->Column_0.name
                }
            &&& forall|column: ColumnView|
                #![trigger needs_column(aggregation, column, computed)]
                needs_column(aggregation, column, computed) <==> exists|i: int|
                    0 <= i < offset && (#[trigger] projection[i]).expr == ExprView::Column(column)
            &&& forall|i: int, j: int|
                0 <= i < j < offset ==> {
                    &&& (#[trigger] projection[i]).expr != (#[trigger] projection[j]).expr
                    &&& projection[i].expr->Column_0.index <= projection[j].expr->Column_0.index
                }
        },
{
    law_proposed_if_work(aggregate, input, id);
    law_leaf(input);
    if let Some(proposal) = propose(aggregate, input, id) {
        let aggregation = aggregate.aggregation;
        let projection = proposal.projection;
        let offset = proposal.extracted_offset;
        let exprs = extracted(aggregation);
        let computed = exprs_from(projection, offset);
        let needed = still_needed(aggregation);
        let columns = sorted(needed);
        lemma_sorted_len(needed);
        law_extracted(aggregation);
        assert(computed =~= exprs);
        assert forall|expr: ExprView| #[trigger] computed.contains(expr) <==> is_input(
            aggregation,
            expr,
        ) && worth_extracting(expr) by {
            law_extractable(expr);
            law_inputs(aggregation, expr);
        }
        assert forall|i: int, j: int| 0 <= i < j < computed.len() implies used_before(
            aggregation,
            #[trigger] computed[i],
            #[trigger] computed[j],
        ) by {
            lemma_used_before(aggregation, i, j);
        }
        lemma_with_distinct(remaining_all(evaluated(aggregation), exprs));
        lemma_sorted_same(needed);
        law_kept_columns_in_order(needed);
        assert forall|i: int| 0 <= i < offset implies (#[trigger] projection[i]).expr
            == ExprView::Column(columns[i]) && projection[i].alias == columns[i].name by {}
        assert forall|column: ColumnView|
            #![trigger needs_column(aggregation, column, computed)]
            needs_column(aggregation, column, computed) <==> exists|i: int|
                0 <= i < offset && (#[trigger] projection[i]).expr == ExprView::Column(column) by {
            lemma_needed(aggregation, column);
            if columns.contains(column) {
                let i = choose|i: int| 0 <= i < columns.len() && columns[i] == column;
                assert(projection[i].expr == ExprView::Column(column));
            }
            if exists|i: int|
                0 <= i < offset && (#[trigger] projection[i]).expr == ExprView::Column(column) {
                let i = choose|i: int|
                    0 <= i < offset && (#[trigger] projection[i]).expr == ExprView::Column(column);
                assert(columns[i] == column);
            }
        }
    }
}

proof fn lemma_needed(aggregation: AggregationView, column: ColumnView)
    ensures
        remaining_all(evaluated(aggregation), extracted(aggregation)).contains(column)
            <==> needs_column(aggregation, column, extracted(aggregation)),
{
    let all = evaluated(aggregation);
    let parts = extracted(aggregation);
    lemma_remaining_of_any(all, parts, column);
    if exists|i: int| 0 <= i < all.len() && stands_outside(#[trigger] all[i], column, parts) {
        let i = choose|i: int|
            0 <= i < all.len() && stands_outside(#[trigger] all[i], column, parts);
        assert(all.contains(all[i]));
        law_evaluated(aggregation, all[i]);
        assert(is_evaluated(aggregation, all[i]));
    }
    if needs_column(aggregation, column, parts) {
        let expr = choose|expr: ExprView| #[trigger]
            is_evaluated(aggregation, expr) && stands_outside(expr, column, parts);
        law_evaluated(aggregation, expr);
        let i = choose|i: int| 0 <= i < all.len() && all[i] == expr;
        assert(stands_outside(all[i], column, parts));
    }
}

proof fn lemma_extracted_order(exprs: Seq<ExprView>, i: int, j: int) -> (p: int)
    requires
        0 <= i < j < extracted_into(seq![], exprs).len(),
    ensures
        0 <= p < exprs.len(),
        exprs[p] == extracted_into(seq![], exprs)[i],
        forall|q: int|
            0 <= q < exprs.len() && #[trigger] exprs[q] == extracted_into(seq![], exprs)[j] ==> p
                < q,
    decreases exprs.len(),
{
    let rest = exprs.drop_last();
    let last = exprs.last();
    let before = extracted_into(seq![], rest);
    let found = extracted_into(seq![], exprs);
    lemma_extracted_into(rest);
    if j < before.len() {
        let p = lemma_extracted_order(rest, i, j);
        assert forall|q: int| 0 <= q < exprs.len() && #[trigger] exprs[q] == found[j] implies p
            < q by {
            if q < rest.len() {
                assert(rest[q] == before[j]);
            }
        }
        p
    } else {
        assert(before.contains(found[i]));
        let p = choose|p: int| 0 <= p < rest.len() && rest[p] == found[i];
        assert forall|q: int| 0 <= q < exprs.len() && #[trigger] exprs[q] == found[j] implies p
            < q by {
            if q < rest.len() {
                assert(rest.contains(last)) by {
                    assert(rest[q] == last);
                }
                assert(before.contains(last));
            }
        }
        p
    }
}

proof fn lemma_used_before(aggregation: AggregationView, i: int, j: int)
    requires
        0 <= i < j < extracted(aggregation).len(),
    ensures
        used_before(aggregation, extracted(aggregation)[i], extracted(aggregation)[j]),
{
    let inputs = aggregate_inputs(aggregation);
    let exprs = extracted(aggregation);
    let p = lemma_extracted_order(inputs, i, j);
    let place = lemma_place(aggregation, p);
    assert(is_place(aggregation, place.0, place.1));
    assert forall|other_call: int, other_j: int| #[trigger]
        is_place(aggregation, other_call, other_j) && input_at(aggregation, other_call, other_j)
            == exprs[j] implies place.0 < other_call || (place.0 == other_call && place.1
        < other_j) by {
        lemma_number_of(aggregation, other_call, other_j);
        let q = number_of(aggregation, other_call, other_j);
        assert(inputs[q] == exprs[j]);
        lemma_place_order(aggregation, place.0, place.1, other_call, other_j);
    }
}

/// The alias of a column that computes an extracted expression, `m` steps after number `id`.
pub open spec fn computed_alias(id: usize, m: nat) -> Seq<char> {
    alias_name(AGGREGATE_EXPR_ALIAS_PREFIX@, id_after(id, m))
}

/// Whether the field at a position has the given name.
pub open spec fn is_named(fields: Seq<FieldView>, j: int, name: Seq<char>) -> bool {
    0 <= j < fields.len() && fields[j].name == name
}

/// The columns that compute extracted expressions have aliases with ascending numbers from `id` on.
/// None of them is the name of a column of the input, and every number in between that is passed
/// over is that of an alias which is. The next number is the one after the last.
pub proof fn law_proposal_aliases(aggregate: AggregateView, input: PlanView, id: usize) -> (steps:
    Seq<nat>)
    requires
        propose(aggregate, input, id) is Some,
        input.fields().len() <= usize::MAX,
    ensures
        ({
            let proposal = propose(aggregate, input, id)->0;
            let projection = proposal.projection;
            let offset = proposal.extracted_offset;
            &&& steps.len() > 0
            &&& steps.len() == projection.len() - offset
            &&& forall|i: int|
                0 <= i < steps.len() ==> projection[offset + i].alias == computed_alias(
                    id,
                    #[trigger] steps[i],
                )
            &&& forall|i: int, j: int|
                0 <= i < steps.len() && 0 <= j < input.fields().len() ==> (
                #[trigger] input.fields()[j]).name != computed_alias(id, #[trigger] steps[i])
            &&& forall|i: int, j: int|
                0 <= i < j < steps.len() ==> #[trigger] steps[i] < #[trigger] steps[j]
            &&& forall|m: nat|
                #![trigger steps.contains(m)]
                #![trigger computed_alias(id, m)]
                m <= steps.last() ==> steps.contains(m) || exists|j: int| #[trigger]
                    is_named(input.fields(), j, computed_alias(id, m))
            &&& id_after_proposal(aggregate, input, id) == id_after(id, steps.last() + 1)
        }),
{
    let proposal = propose(aggregate, input, id)->0;
    let projection = proposal.projection;
    let offset = proposal.extracted_offset;
    let count = extracted(aggregate.aggregation).len();
    let steps = free_steps(id, input.fields(), count);
    let ids = free_ids(id, input.fields(), count);
    lemma_sorted_len(still_needed(aggregate.aggregation));
    lemma_steps_ascend(id, input.fields(), count);
    lemma_free_steps(id, input.fields(), count);
    assert forall|i: int| 0 <= i < steps.len() implies projection[offset + i].alias
        == computed_alias(id, #[trigger] steps[i]) && !has_name(
        input.fields(),
        computed_alias(id, steps[i]),
    ) by {
        assert(ids[i] == id_after(id, steps[i]));
    }
    assert forall|i: int, j: int| 0 <= i < steps.len() && 0 <= j < input.fields().len() implies (
    #[trigger] input.fields()[j]).name != computed_alias(id, #[trigger] steps[i]) by {
        assert(!has_name(input.fields(), computed_alias(id, steps[i])));
    }
    assert forall|m: nat|
        #![trigger steps.contains(m)]
        m <= steps.last() implies steps.contains(m) || exists|j: int| #[trigger]
            is_named(input.fields(), j, computed_alias(id, m)) by {
        if !steps.contains(m) {
            let name = computed_alias(id, m);
            assert(has_name(input.fields(), name));
            let j = choose|j: int|
                0 <= j < input.fields().len() && (#[trigger] input.fields()[j]).name == name;
            assert(is_named(input.fields(), j, name));
        }
    }
    steps
}

/// A column of a rewritten expression is either the column that computes a part of the original,
/// and then has its alias for a name, or a column of the original, which keeps its name and has the
/// position of the last output column that passes it through.
pub proof fn law_rewritten_columns(
    expr: ExprView,
    projection: Seq<ProjectionExprView>,
    offset: int,
    column: ColumnView,
)
    requires
        0 <= offset <= projection.len(),
        covered(expr, projection, offset),
        rewritten(expr, projection, offset).has_column(column),
    ensures
        0 <= column.index < projection.len(),
        column.index >= offset ==> {
            &&& column.name == projection[column.index].alias
            &&& expr.has_part(projection[column.index].expr)
        },
        column.index < offset ==> {
            &&& projection[column.index].expr is Column
            &&& exists|old_column: ColumnView| #[trigger]
                expr.has_column(old_column) && old_column.name == column.name && old_column.index
                    == projection[column.index].expr->Column_0.index
            &&& forall|i: int|
                column.index < i < offset && (#[trigger] projection[i]).expr is Column
                    ==> projection[i].expr->Column_0.index
                    != projection[column.index].expr->Column_0.index
        },
    decreases expr,
{
    let position = first_match(projection, offset, expr);
    lemma_first_match(projection, offset, expr);
    if position < projection.len() {
        assert(rewritten(expr, projection, offset) == ExprView::Column(
            ColumnView { name: projection[position].alias, index: position },
        ));
    } else {
        match expr {
            ExprView::Column(c) => {
                lemma_last_match(projection, offset, c.index);
                assert(expr.has_column(c));
            },
            ExprView::Literal(_) => {},
            ExprView::Call { function, args } => {
                let part = ExprView::Column(column);
                let new_args = rewritten(expr, projection, offset)->args;
                let i = choose|i: int|
                    0 <= i < new_args.len() && (#[trigger] new_args[i]).has_part(part);
                assert(new_args[i] == rewritten(args[i], projection, offset));
                assert(covered(args[i], projection, offset));
                law_rewritten_columns(args[i], projection, offset, column);
                if column.index >= offset {
                    lemma_arg_part(expr, i, projection[column.index].expr);
                } else {
                    let old_column = choose|old_column: ColumnView| #[trigger]
                        args[i].has_column(old_column) && old_column.name == column.name
                            && old_column.index == projection[column.index].expr->Column_0.index;
                    lemma_arg_part(expr, i, ExprView::Column(old_column));
                    assert(expr.has_column(old_column));
                }
            },
        }
    }
}

/// An expression that the projection computes becomes a reference to the column that computes it.
pub proof fn law_computed_becomes_column(
    projection: Seq<ProjectionExprView>,
    offset: int,
    i: int,
)
    requires
        0 <= offset <= i < projection.len(),
        exprs_from(projection, offset).no_duplicates(),
    ensures
        rewritten(projection[i].expr, projection, offset) == ExprView::Column(
            ColumnView { name: projection[i].alias, index: i },
        ),
{
    let expr = projection[i].expr;
    let position = first_match(projection, offset, expr);
    let computed = exprs_from(projection, offset);
    lemma_first_match(projection, offset, expr);
    assert(position <= i) by {
        if i < position {
            assert(projection[i].expr != expr);
        }
    }
    assert(computed[position - offset] == computed[i - offset]);
}

/// Whether a path leads inside of one of the given parts of an expression.
pub open spec fn leads_inside(expr: ExprView, path: Seq<int>, parts: Seq<ExprView>) -> bool
    decreases path.len(),
{
    path.len() > 0 && (parts.contains(expr) || leads_inside(
        expr->args[path[0]],
        path.drop_first(),
        parts,
    ))
}

/// Whether a node is what has to stand for another over the projection: a reference to the column
/// that computes it, if there is one, and else the node itself, where a column refers to an output
/// column that passes it through.
pub open spec fn stands_for(
    node: ExprView,
    new: ExprView,
    projection: Seq<ProjectionExprView>,
    offset: int,
) -> bool {
    if exprs_from(projection, offset).contains(node) {
        &&& new is Column
        &&& offset <= new->Column_0.index < projection.len()
        &&& projection[new->Column_0.index].expr == node
        &&& new->Column_0.name == projection[new->Column_0.index].alias
    } else {
        match node {
            ExprView::Column(column) => {
                &&& new is Column
                &&& new->Column_0.name == column.name
                &&& 0 <= new->Column_0.index < offset
                &&& projection[new->Column_0.index].expr is Column
                &&& projection[new->Column_0.index].expr->Column_0.index == column.index
            },
            ExprView::Literal(_) => new == node,
            ExprView::Call { function, args } => {
                &&& new is Call
                &&& new->function == function
                &&& new->args.len() == args.len()
            },
        }
    }
}

/// Rewriting an expression replaces every part of it that the projection computes, at any depth,
/// and keeps everything else but the positions of columns.
pub proof fn law_rewritten_at(
    expr: ExprView,
    projection: Seq<ProjectionExprView>,
    offset: int,
    path: Seq<int>,
)
    requires
        0 <= offset <= projection.len(),
        covered(expr, projection, offset),
        expr.at(path) is Some,
        !leads_inside(expr, path, exprs_from(projection, offset)),
    ensures
        rewritten(expr, projection, offset).at(path) is Some,
        stands_for(
            expr.at(path)->0,
            rewritten(expr, projection, offset).at(path)->0,
            projection,
            offset,
        ),
    decreases expr,
{
    let position = first_match(projection, offset, expr);
    let computed = exprs_from(projection, offset);
    lemma_first_match(projection, offset, expr);
    assert(computed.contains(expr) <==> position < projection.len()) by {
        if position < projection.len() {
            assert(computed[position - offset] == expr);
        }
        if computed.contains(expr) {
            let i = choose|i: int| 0 <= i < computed.len() && computed[i] == expr;
            if i + offset < position {
                assert(projection[offset + i].expr != expr);
            }
        }
    }
    if position == projection.len() {
        match expr {
            ExprView::Column(column) => {
                lemma_last_match(projection, offset, column.index);
            },
            ExprView::Literal(_) => {},
            ExprView::Call { function, args } => {
                if path.len() > 0 {
                    let i = path[0];
                    assert(covered(args[i], projection, offset));
                    assert(rewritten(expr, projection, offset)->args[i] == rewritten(
                        args[i],
                        projection,
                        offset,
                    ));
                    law_rewritten_at(args[i], projection, offset, path.drop_first());
                }
            },
        }
    }
}

/// Rewriting an aggregation rewrites each of its expressions where it stands, and keeps everything
/// else: the mode, the names of keys, the calls, the directions of sort keys, which calls have a
/// filter, and the limit.
pub proof fn law_rewritten_places(
    aggregation: AggregationView,
    projection: Seq<ProjectionExprView>,
    offset: int,
)
    ensures
        ({
            let new = rewritten_aggregation(aggregation, projection, offset);
            &&& new.mode == aggregation.mode
            &&& new.grouping_sets == aggregation.grouping_sets
            &&& new.limit_options == aggregation.limit_options
            &&& new.group_by.len() == aggregation.group_by.len()
            &&& forall|j: int|
                0 <= j < new.group_by.len() ==> {
                    let key = #[trigger] new.group_by[j];
                    &&& key.alias == aggregation.group_by[j].alias
                    &&& key.expr == rewritten(aggregation.group_by[j].expr, projection, offset)
                }
            &&& new.aggr_exprs.len() == aggregation.aggr_exprs.len()
            &&& forall|c: int|
                0 <= c < new.aggr_exprs.len() ==> {
                    let call = #[trigger] new.aggr_exprs[c];
                    let old_call = aggregation.aggr_exprs[c];
                    &&& call.call == old_call.call
                    &&& call.args.len() == old_call.args.len()
                    &&& forall|j: int|
                        0 <= j < call.args.len() ==> #[trigger] call.args[j] == rewritten(
                            old_call.args[j],
                            projection,
                            offset,
                        )
                    &&& call.order_bys.len() == old_call.order_bys.len()
                    &&& forall|j: int|
                        0 <= j < call.order_bys.len() ==> {
                            let sort = #[trigger] call.order_bys[j];
                            &&& sort.options == old_call.order_bys[j].options
                            &&& sort.expr == rewritten(
                                old_call.order_bys[j].expr,
                                projection,
                                offset,
                            )
                        }
                }
            &&& new.filters.len() == aggregation.filters.len()
            &&& forall|i: int|
                0 <= i < new.filters.len() ==> {
                    let filter = #[trigger] new.filters[i];
                    &&& filter is Some <==> aggregation.filters[i] is Some
                    &&& filter is Some ==> filter->0 == rewritten(
                        aggregation.filters[i]->0,
                        projection,
                        offset,
                    )
                }
        }),
{
}

/// A plan with another leaf keeps all operators on the way to the leaf, and has the new leaf where
/// the old one was.
pub proof fn law_leaf_replaced(plan: PlanView, leaf: PlanView, path: Seq<int>)
    requires
        leaf_of(plan) is Some,
        plan.at(path) is Some,
    ensures
        ({
            let node = plan.at(path)->0;
            let new_node = with_leaf(plan, leaf).at(path);
            if node.inputs().len() == 0 {
                new_node == Some(leaf)
            } else {
                new_node is Some && node.same_node(new_node->0)
            }
        }),
    decreases plan,
{
    match plan {
        PlanView::Cooperative { operator, input } => {
            if path.len() > 0 {
                assert(plan.inputs()[0] == *input);
                assert(with_leaf(plan, leaf).inputs()[0] == with_leaf(*input, leaf));
                law_leaf_replaced(*input, leaf, path.drop_first());
            }
        },
        PlanView::Repartition { operator, partitioning, input } => {
            if path.len() > 0 {
                assert(plan.inputs()[0] == *input);
                assert(with_leaf(plan, leaf).inputs()[0] == with_leaf(*input, leaf));
                law_leaf_replaced(*input, leaf, path.drop_first());
            }
        },
        _ => {
            assert(path.len() == 0);
        },
    }
}

} // verus!
