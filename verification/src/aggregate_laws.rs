use crate::aggregate::{AggregateExprView, AggregateView, AggregationView};
use crate::aggregate_push_down::{
    aggregate_inputs, aggregate_projection, all_call_exprs, column_exprs, evaluated, extractable,
    extracted, extracted_into, free_ids, inserted, leaf_of, lemma_sorted_len, next_id, present,
    propose, sort_exprs, sorted, still_needed, with_leaf, AggregateProposalView,
    AGGREGATE_EXPR_ALIAS_PREFIX,
};
use crate::aggregate_rewrite::{
    covered, first_match, lemma_evaluated, lemma_first_match, lemma_last_match,
    lemma_proposal_valid, rewritten, rewritten_aggregation, rewritten_call,
};
use crate::aliases::{
    alias_name, first_free, id_after, lemma_aliases_distinct, lemma_first_free, lemma_id_after_add,
};
use crate::expr::{ColumnView, ExprView};
use crate::plan::PlanView;
use crate::projection::ProjectionExprView;
use crate::schema::{has_name, FieldView};
use crate::semantics::{call_shape, lemma_dealt_positions, lemma_eval_anywhere, shape, Semantics};
use vstd::prelude::*;

verus! {

/// Whether the columns that compute extracted expressions, from position `offset` on, always give
/// the same results on the same rows.
pub open spec fn repeatable(projection: Seq<ProjectionExprView>, offset: int) -> bool {
    forall|i: int|
        offset <= i < projection.len() ==> !(#[trigger] projection[i]).expr.volatile()
}

/// An expression in terms of the output columns of a projection has the value of the original, if
/// it is evaluated on what the projection makes of the row, wherever it does so.
pub proof fn law_rewritten_value<V>(
    semantics: Semantics<V>,
    expr: ExprView,
    projection: Seq<ProjectionExprView>,
    offset: int,
    row: Seq<V>,
    at: Seq<int>,
    elsewhere: Seq<int>,
)
    requires
        0 <= offset <= projection.len(),
        covered(expr, projection, offset),
        repeatable(projection, offset),
    ensures
        semantics.eval(
            rewritten(expr, projection, offset),
            semantics.project_row(projection, row, elsewhere),
            at,
        ) == semantics.eval(expr, row, at),
    decreases expr,
{
    let new_row = semantics.project_row(projection, row, elsewhere);
    let position = first_match(projection, offset, expr);
    lemma_first_match(projection, offset, expr);
    if position < projection.len() {
        assert(!projection[position].expr.volatile());
        lemma_eval_anywhere(semantics, expr, row, elsewhere, at);
    } else {
        match expr {
            ExprView::Column(column) => {
                lemma_last_match(projection, offset, column.index);
            },
            ExprView::Literal(_) => {},
            ExprView::Call { function, args } => {
                let new_args = rewritten(expr, projection, offset)->args;
                assert forall|i: int| 0 <= i < args.len() implies semantics.eval(
                    #[trigger] new_args[i],
                    new_row,
                    at,
                ) == semantics.eval(args[i], row, at) by {
                    assert(covered(args[i], projection, offset));
                    law_rewritten_value(
                        semantics,
                        args[i],
                        projection,
                        offset,
                        row,
                        at,
                        elsewhere,
                    );
                }
                assert(semantics.eval_all(new_args, new_row, at) =~= semantics.eval_all(
                    args,
                    row,
                    at,
                ));
            },
        }
    }
}

/// The expressions in terms of the output columns of a projection.
pub open spec fn rewritten_all(
    exprs: Seq<ExprView>,
    projection: Seq<ProjectionExprView>,
    offset: int,
) -> Seq<ExprView> {
    exprs.map_values(|expr: ExprView| rewritten(expr, projection, offset))
}

proof fn lemma_call_exprs_rewritten(
    calls: Seq<AggregateExprView>,
    projection: Seq<ProjectionExprView>,
    offset: int,
)
    ensures
        all_call_exprs(
            calls.map_values(
                |call: AggregateExprView| rewritten_call(call, projection, offset),
            ),
        ) == rewritten_all(all_call_exprs(calls), projection, offset),
    decreases calls.len(),
{
    let f = |call: AggregateExprView| rewritten_call(call, projection, offset);
    let new_calls = calls.map_values(f);
    if calls.len() > 0 {
        lemma_call_exprs_rewritten(calls.drop_last(), projection, offset);
        assert(new_calls.drop_last() =~= calls.drop_last().map_values(f));
        assert(sort_exprs(new_calls.last().order_bys) =~= rewritten_all(
            sort_exprs(calls.last().order_bys),
            projection,
            offset,
        ));
        assert(new_calls.last().args =~= rewritten_all(calls.last().args, projection, offset));
    }
    assert(all_call_exprs(new_calls) =~= rewritten_all(all_call_exprs(calls), projection, offset));
}

proof fn lemma_present_rewritten(
    filters: Seq<Option<ExprView>>,
    projection: Seq<ProjectionExprView>,
    offset: int,
)
    ensures
        present(
            filters.map_values(
                |filter: Option<ExprView>|
                    match filter {
                        Some(filter) => Some(rewritten(filter, projection, offset)),
                        None => None,
                    },
            ),
        ) == rewritten_all(present(filters), projection, offset),
    decreases filters.len(),
{
    let f = |filter: Option<ExprView>|
        match filter {
            Some(filter) => Some(rewritten(filter, projection, offset)),
            None => None,
        };
    let new_filters = filters.map_values(f);
    if filters.len() > 0 {
        lemma_present_rewritten(filters.drop_last(), projection, offset);
        assert(new_filters.drop_last() =~= filters.drop_last().map_values(f));
    }
    assert(present(new_filters) =~= rewritten_all(present(filters), projection, offset));
}

/// A rewritten aggregation has the shape of the original, and evaluates its expressions one by one
/// in terms of the output columns of the projection.
pub proof fn law_rewritten_shape(
    aggregation: AggregationView,
    projection: Seq<ProjectionExprView>,
    offset: int,
)
    ensures
        shape(rewritten_aggregation(aggregation, projection, offset)) == shape(aggregation),
        evaluated(rewritten_aggregation(aggregation, projection, offset)) == rewritten_all(
            evaluated(aggregation),
            projection,
            offset,
        ),
{
    let new = rewritten_aggregation(aggregation, projection, offset);
    assert forall|call: AggregateExprView| call_shape(
        #[trigger] rewritten_call(call, projection, offset),
    ) == call_shape(call) by {
        let new_call = rewritten_call(call, projection, offset);
        assert(call_shape(new_call).args =~= call_shape(call).args);
        assert(call_shape(new_call).order_bys =~= call_shape(call).order_bys);
    }
    assert(shape(new).group_by =~= shape(aggregation).group_by);
    assert(shape(new).aggr_exprs =~= shape(aggregation).aggr_exprs);
    assert(shape(new).filters =~= shape(aggregation).filters);
    lemma_call_exprs_rewritten(aggregation.aggr_exprs, projection, offset);
    lemma_present_rewritten(aggregation.filters, projection, offset);
    assert(column_exprs(new.group_by) =~= rewritten_all(
        column_exprs(aggregation.group_by),
        projection,
        offset,
    ));
    assert(evaluated(new) =~= rewritten_all(evaluated(aggregation), projection, offset));
}

/// The expressions that are extracted are distinct, and worth extracting: each computes something
/// over at least one column, and gives the same result wherever it is evaluated.
pub proof fn law_extracted(aggregation: AggregationView)
    ensures
        extracted(aggregation).no_duplicates(),
        forall|i: int|
            0 <= i < extracted(aggregation).len() ==> extractable(
                #[trigger] extracted(aggregation)[i],
            ),
        forall|expr: ExprView| #[trigger]
            extracted(aggregation).contains(expr) <==> extractable(expr) && aggregate_inputs(
                aggregation,
            ).contains(expr),
{
    lemma_extracted_into(aggregate_inputs(aggregation));
}

/// Of several expressions those that are worth it are extracted, each once.
pub proof fn lemma_extracted_into(exprs: Seq<ExprView>)
    ensures
        extracted_into(seq![], exprs).no_duplicates(),
        forall|i: int|
            0 <= i < extracted_into(seq![], exprs).len() ==> extractable(
                #[trigger] extracted_into(seq![], exprs)[i],
            ),
        forall|expr: ExprView| #[trigger]
            extracted_into(seq![], exprs).contains(expr) <==> extractable(expr) && exprs.contains(
                expr,
            ),
    decreases exprs.len(),
{
    if exprs.len() > 0 {
        let rest = exprs.drop_last();
        let last = exprs.last();
        let before = extracted_into(seq![], rest);
        let found = extracted_into(seq![], exprs);
        lemma_extracted_into(rest);
        assert forall|expr: ExprView| #[trigger] exprs.contains(expr) <==> rest.contains(expr)
            || expr == last by {
            if exprs.contains(expr) {
                let i = choose|i: int| 0 <= i < exprs.len() && exprs[i] == expr;
                if i < exprs.len() - 1 {
                    assert(rest[i] == expr);
                }
            }
            if rest.contains(expr) {
                let i = choose|i: int| 0 <= i < rest.len() && rest[i] == expr;
                assert(exprs[i] == expr);
            }
            assert(exprs[exprs.len() - 1] == last);
        }
        assert forall|expr: ExprView| #[trigger] found.contains(expr) <==> before.contains(expr)
            || (extractable(last) && expr == last) by {
            if before.contains(expr) {
                let i = choose|i: int| 0 <= i < before.len() && before[i] == expr;
                assert(found[i] == expr);
            }
            if extractable(last) && !before.contains(last) {
                assert(found[found.len() - 1] == last);
            }
        }
    }
}

/// The columns that an aggregate still needs are passed through in the order of their positions.
pub proof fn law_kept_columns_in_order(columns: Seq<ColumnView>)
    ensures
        forall|i: int, j: int|
            0 <= i <= j < sorted(columns).len() ==> (#[trigger] sorted(columns)[i]).index <= (
            #[trigger] sorted(columns)[j]).index,
        sorted(columns).to_multiset() == columns.to_multiset(),
    decreases columns.len(),
{
    if columns.len() == 0 {
        assert(sorted(columns) =~= columns);
    } else {
        law_kept_columns_in_order(columns.drop_last());
        lemma_inserted_in_order(sorted(columns.drop_last()), columns.last());
        assert(columns =~= columns.drop_last().push(columns.last()));
        broadcast use vstd::seq_lib::group_to_multiset_ensures;

    }
}

proof fn lemma_inserted_in_order(columns: Seq<ColumnView>, column: ColumnView)
    requires
        forall|i: int, j: int|
            0 <= i <= j < columns.len() ==> (#[trigger] columns[i]).index <= (
            #[trigger] columns[j]).index,
    ensures
        forall|i: int, j: int|
            0 <= i <= j < inserted(columns, column).len() ==> (#[trigger] inserted(
                columns,
                column,
            )[i]).index <= (#[trigger] inserted(columns, column)[j]).index,
        forall|i: int|
            0 <= i < inserted(columns, column).len() ==> ({
                let c = #[trigger] inserted(columns, column)[i];
                c == column || columns.contains(c)
            }),
        inserted(columns, column).to_multiset() == columns.to_multiset().insert(column),
    decreases columns.len(),
{
    broadcast use vstd::seq_lib::group_to_multiset_ensures;

    let all = inserted(columns, column);
    if columns.len() == 0 || columns.last().index <= column.index {
        assert forall|i: int| 0 <= i < all.len() implies ({
            let c = #[trigger] all[i];
            c == column || columns.contains(c)
        }) by {
            if i < columns.len() {
                assert(columns[i] == all[i]);
            }
        }
        assert forall|i: int, j: int| 0 <= i <= j < all.len() implies (#[trigger] all[i]).index <= (
        #[trigger] all[j]).index by {
            if i < columns.len() {
                assert(columns[i].index <= columns[columns.len() - 1].index);
            }
        }
    } else {
        let rest = columns.drop_last();
        let before = inserted(rest, column);
        lemma_inserted_in_order(rest, column);
        assert(columns =~= rest.push(columns.last()));
        assert forall|i: int| 0 <= i < before.len() implies (#[trigger] before[i]).index
            <= columns.last().index && (before[i] == column || columns.contains(before[i])) by {
            if before[i] != column {
                assert(rest.contains(before[i]));
                let k = choose|k: int| 0 <= k < rest.len() && rest[k] == before[i];
                assert(columns[k] == before[i]);
                assert(columns[k].index <= columns[columns.len() - 1].index);
            }
        }
        assert forall|i: int| 0 <= i < all.len() implies ({
            let c = #[trigger] all[i];
            c == column || columns.contains(c)
        }) by {
            if i < before.len() {
                assert(all[i] == before[i]);
            } else {
                assert(columns[columns.len() - 1] == all[i]);
            }
        }
        assert forall|i: int, j: int| 0 <= i <= j < all.len() implies (#[trigger] all[i]).index <= (
        #[trigger] all[j]).index by {
            assert(i < before.len() ==> all[i] == before[i]);
            assert(j < before.len() ==> all[j] == before[j]);
        }
        assert(all.to_multiset() =~= columns.to_multiset().insert(column));
    }
}

/// A projection that the leaf has absorbed is evaluated on exactly the rows that come out at the
/// top, one by one, if it computes only what is the same wherever it is evaluated.
pub proof fn law_leaf_rows<V>(
    semantics: Semantics<V>,
    plan: PlanView,
    new_leaf: PlanView,
    projection: Seq<ProjectionExprView>,
)
    requires
        leaf_of(plan) is Some,
        semantics.rows(new_leaf) == semantics.project_rows(
            projection,
            semantics.rows(leaf_of(plan)->0),
        ),
        forall|i: int| 0 <= i < projection.len() ==> !(#[trigger] projection[i]).expr.volatile(),
    ensures
        semantics.rows(with_leaf(plan, new_leaf)) == semantics.project_rows(
            projection,
            semantics.rows(plan),
        ),
    decreases plan,
{
    match plan {
        PlanView::Cooperative { operator, input } => {
            law_leaf_rows(semantics, *input, new_leaf, projection);
        },
        PlanView::Repartition { operator, partitioning, input } => {
            law_leaf_rows(semantics, *input, new_leaf, projection);
            let rows = semantics.rows(*input);
            let new_rows = semantics.rows(with_leaf(*input, new_leaf));
            let positions = semantics.dealt_positions(operator, rows.len());
            lemma_dealt_positions(semantics, operator, rows.len());
            assert forall|i: int| 0 <= i < positions.len() implies semantics.project_row(
                projection,
                rows[#[trigger] positions[i]],
                seq![i],
            ) == new_rows[positions[i]] by {
                lemma_project_anywhere(
                    semantics,
                    projection,
                    rows[positions[i]],
                    seq![i],
                    seq![positions[i]],
                );
            }
            assert(semantics.rows(with_leaf(plan, new_leaf)) =~= semantics.project_rows(
                projection,
                semantics.rows(plan),
            ));
        },
        _ => {},
    }
}

proof fn lemma_project_anywhere<V>(
    semantics: Semantics<V>,
    projection: Seq<ProjectionExprView>,
    row: Seq<V>,
    at: Seq<int>,
    elsewhere: Seq<int>,
)
    requires
        forall|i: int| 0 <= i < projection.len() ==> !(#[trigger] projection[i]).expr.volatile(),
    ensures
        semantics.project_row(projection, row, at) == semantics.project_row(
            projection,
            row,
            elsewhere,
        ),
{
    assert forall|i: int| 0 <= i < projection.len() implies semantics.eval(
        (#[trigger] projection[i]).expr,
        row,
        at,
    ) == semantics.eval(projection[i].expr, row, elsewhere) by {
        lemma_eval_anywhere(semantics, projection[i].expr, row, at, elsewhere);
    }
    assert(semantics.project_row(projection, row, at) =~= semantics.project_row(
        projection,
        row,
        elsewhere,
    ));
}

/// On what the projection makes of a row, a rewritten aggregation evaluates each of its keys,
/// arguments, sort keys and filters to what the original evaluates it to on the row.
pub proof fn law_aggregate_values<V>(
    semantics: Semantics<V>,
    aggregation: AggregationView,
    projection: Seq<ProjectionExprView>,
    offset: int,
    row: Seq<V>,
    at: Seq<int>,
    elsewhere: Seq<int>,
)
    requires
        0 <= offset <= projection.len(),
        repeatable(projection, offset),
        forall|expr: ExprView| #[trigger]
            evaluated(aggregation).contains(expr) ==> covered(expr, projection, offset),
    ensures
        semantics.aggregate_values(
            rewritten_aggregation(aggregation, projection, offset),
            semantics.project_row(projection, row, elsewhere),
            at,
        ) == semantics.aggregate_values(aggregation, row, at),
{
    let new = rewritten_aggregation(aggregation, projection, offset);
    let new_row = semantics.project_row(projection, row, elsewhere);
    let values = semantics.aggregate_values(aggregation, row, at);
    let new_values = semantics.aggregate_values(new, new_row, at);
    lemma_evaluated(aggregation);
    assert forall|expr: ExprView| #[trigger] evaluated(aggregation).contains(expr) implies
        semantics.eval(rewritten(expr, projection, offset), new_row, at) == semantics.eval(
        expr,
        row,
        at,
    ) by {
        law_rewritten_value(semantics, expr, projection, offset, row, at, elsewhere);
    }
    assert forall|i: int| 0 <= i < aggregation.group_by.len() implies #[trigger] new_values.keys[i]
        == values.keys[i] by {
        assert(evaluated(aggregation).contains(aggregation.group_by[i].expr));
    }
    assert(new_values.keys =~= values.keys);
    assert forall|i: int| 0 <= i < aggregation.aggr_exprs.len() implies #[trigger]
        new_values.args[i] == values.args[i] by {
        let call = aggregation.aggr_exprs[i];
        let new_call = new.aggr_exprs[i];
        assert forall|j: int| 0 <= j < call.args.len() implies semantics.eval(
            #[trigger] new_call.args[j],
            new_row,
            at,
        ) == semantics.eval(call.args[j], row, at) by {
            assert(evaluated(aggregation).contains(aggregation.aggr_exprs[i].args[j]));
        }
        assert(new_values.args[i] =~= values.args[i]);
    }
    assert(new_values.args =~= values.args);
    assert forall|i: int| 0 <= i < aggregation.aggr_exprs.len() implies #[trigger]
        new_values.sort_keys[i] == values.sort_keys[i] by {
        let call = aggregation.aggr_exprs[i];
        let new_call = new.aggr_exprs[i];
        assert forall|j: int| 0 <= j < call.order_bys.len() implies semantics.eval(
            (#[trigger] new_call.order_bys[j]).expr,
            new_row,
            at,
        ) == semantics.eval(call.order_bys[j].expr, row, at) by {
            assert(evaluated(aggregation).contains(aggregation.aggr_exprs[i].order_bys[j].expr));
        }
        assert(new_values.sort_keys[i] =~= values.sort_keys[i]);
    }
    assert(new_values.sort_keys =~= values.sort_keys);
    assert forall|i: int| 0 <= i < aggregation.filters.len() implies #[trigger]
        new_values.filters[i] == values.filters[i] by {
        if aggregation.filters[i] is Some {
            assert(evaluated(aggregation).contains(aggregation.filters[i]->0));
        }
    }
    assert(new_values.filters =~= values.filters);
}

/// Whether the plan is a rewritten aggregate that was accepted for a proposal, over a leaf that has
/// absorbed the projection.
pub open spec fn accepted<V>(
    semantics: Semantics<V>,
    proposal: AggregateProposalView,
    plan: PlanView,
) -> bool {
    exists|new_leaf: PlanView|
        {
            &&& plan matches PlanView::Aggregate { aggregate, input, .. }
                && aggregate.aggregation == rewritten_aggregation(
                proposal.aggregate.aggregation,
                proposal.projection,
                proposal.extracted_offset,
            ) && aggregate.schema == proposal.aggregate.schema && *input == #[trigger] with_leaf(
                proposal.input,
                new_leaf,
            )
            &&& semantics.rows(new_leaf) == semantics.project_rows(
                proposal.projection,
                semantics.rows(proposal.leaf),
            )
        }
}

/// The aggregate that a proposal is about.
pub open spec fn original(proposal: AggregateProposalView) -> PlanView {
    PlanView::Aggregate {
        operator: None,
        aggregate: proposal.aggregate,
        input: Box::new(proposal.input),
    }
}

/// A rewritten aggregate returns the rows of the original, in the same order.
pub proof fn law_aggregate_stays<V>(
    semantics: Semantics<V>,
    aggregate: AggregateView,
    input: PlanView,
    id: usize,
    plan: PlanView,
)
    requires
        propose(aggregate, input, id) matches Some(proposal) && accepted(
            semantics,
            proposal,
            plan,
        ),
    ensures
        plan.fields() == aggregate.schema,
        semantics.rows(plan) == semantics.rows(original(propose(aggregate, input, id)->0)),
{
    let proposal = propose(aggregate, input, id)->0;
    let projection = proposal.projection;
    let offset = proposal.extracted_offset;
    let aggregation = aggregate.aggregation;
    let new_leaf = choose|new_leaf: PlanView|
        {
            &&& *plan->Aggregate_input == #[trigger] with_leaf(proposal.input, new_leaf)
            &&& semantics.rows(new_leaf) == semantics.project_rows(
                projection,
                semantics.rows(proposal.leaf),
            )
        };
    let new_aggregation = rewritten_aggregation(aggregation, projection, offset);
    let rows = semantics.rows(input);
    let new_rows = semantics.rows(with_leaf(input, new_leaf));
    lemma_proposal_valid(aggregate, input, id);
    lemma_sorted_len(still_needed(aggregation));
    law_extracted(aggregation);
    assert forall|i: int| 0 <= i < projection.len() implies !(
    #[trigger] projection[i]).expr.volatile() by {
        if i >= offset {
            assert(projection[i].expr == extracted(aggregation)[i - offset]);
        }
    }
    law_leaf_rows(semantics, input, new_leaf, projection);
    law_rewritten_shape(aggregation, projection, offset);
    assert forall|i: int| 0 <= i < rows.len() implies semantics.aggregate_values(
        new_aggregation,
        #[trigger] new_rows[i],
        seq![i],
    ) == semantics.aggregate_values(aggregation, rows[i], seq![i]) by {
        law_aggregate_values(semantics, aggregation, projection, offset, rows[i], seq![i], seq![i]);
    }
    assert(semantics.evaluated_rows(new_aggregation, new_rows) =~= semantics.evaluated_rows(
        aggregation,
        rows,
    ));
}

/// How many aliases were looked at before the one after the given ones.
pub open spec fn next_step(steps: Seq<nat>) -> nat {
    if steps.len() == 0 {
        0
    } else {
        steps.last() + 1
    }
}

/// How many aliases from number `id` on were looked at before each of the first `count` that are
/// not names of fields.
pub open spec fn free_steps(id: usize, fields: Seq<FieldView>, count: nat) -> Seq<nat>
    decreases count,
{
    if count == 0 {
        seq![]
    } else {
        let before = free_steps(id, fields, (count - 1) as nat);
        let start = id_after(id, next_step(before));
        before.push(
            next_step(before) + first_free(AGGREGATE_EXPR_ALIAS_PREFIX@, start, fields),
        )
    }
}

/// The numbers of free aliases come in ascending order.
pub proof fn lemma_steps_ascend(id: usize, fields: Seq<FieldView>, count: nat)
    ensures
        ({
            let steps = free_steps(id, fields, count);
            let ids = free_ids(id, fields, count);
            &&& steps.len() == count
            &&& ids.len() == count
            &&& next_id(id, ids) == id_after(id, next_step(steps))
            &&& forall|i: int| 0 <= i < count ==> #[trigger] ids[i] == id_after(id, steps[i])
            &&& forall|i: int| 0 <= i < count ==> #[trigger] steps[i] < next_step(steps)
            &&& forall|i: int, j: int|
                0 <= i < j < count ==> #[trigger] steps[i] < #[trigger] steps[j]
        }),
    decreases count,
{
    if count > 0 {
        let before = free_steps(id, fields, (count - 1) as nat);
        let steps = free_steps(id, fields, count);
        let ids = free_ids(id, fields, count);
        let base = next_step(before);
        let start = id_after(id, base);
        let skipped = first_free(AGGREGATE_EXPR_ALIAS_PREFIX@, start, fields);
        lemma_steps_ascend(id, fields, (count - 1) as nat);
        lemma_id_after_add(id, base, skipped);
        assert(next_id(id, ids) == id_after(id, next_step(steps)));
        assert forall|i: int| 0 <= i < count implies #[trigger] ids[i] == id_after(
            id,
            steps[i],
        ) by {
            if i < count - 1 {
                assert(ids[i] == free_ids(id, fields, (count - 1) as nat)[i]);
            }
        }
    }
}

/// The aliases with these numbers are free, and all that were passed over are not.
pub proof fn lemma_free_steps(id: usize, fields: Seq<FieldView>, count: nat)
    requires
        fields.len() <= usize::MAX,
    ensures
        ({
            let steps = free_steps(id, fields, count);
            let ids = free_ids(id, fields, count);
            &&& forall|i: int|
                0 <= i < count ==> !has_name(
                    fields,
                    alias_name(AGGREGATE_EXPR_ALIAS_PREFIX@, #[trigger] ids[i]),
                )
            &&& forall|m: nat|
                m < next_step(steps) ==> steps.contains(m) || has_name(
                    fields,
                    #[trigger] alias_name(AGGREGATE_EXPR_ALIAS_PREFIX@, id_after(id, m)),
                )
        }),
    decreases count,
{
    if count > 0 {
        let before = free_steps(id, fields, (count - 1) as nat);
        let steps = free_steps(id, fields, count);
        let ids = free_ids(id, fields, count);
        let base = next_step(before);
        let start = id_after(id, base);
        let skipped = first_free(AGGREGATE_EXPR_ALIAS_PREFIX@, start, fields);
        lemma_free_steps(id, fields, (count - 1) as nat);
        lemma_steps_ascend(id, fields, (count - 1) as nat);
        lemma_steps_ascend(id, fields, count);
        lemma_first_free(AGGREGATE_EXPR_ALIAS_PREFIX@, start, fields);
        lemma_id_after_add(id, base, skipped);
        assert forall|i: int| 0 <= i < count implies !has_name(
            fields,
            alias_name(AGGREGATE_EXPR_ALIAS_PREFIX@, #[trigger] ids[i]),
        ) by {
            if i < count - 1 {
                assert(ids[i] == free_ids(id, fields, (count - 1) as nat)[i]);
            }
        }
        assert forall|m: nat| m < next_step(steps) implies steps.contains(m) || has_name(
            fields,
            #[trigger] alias_name(AGGREGATE_EXPR_ALIAS_PREFIX@, id_after(id, m)),
        ) by {
            if m < base {
                if before.contains(m) {
                    let k = choose|k: int| 0 <= k < before.len() && before[k] == m;
                    assert(steps[k] == m);
                }
            } else if m == base + skipped {
                assert(steps[count - 1] == m);
            } else {
                lemma_id_after_add(id, base, (m - base) as nat);
                assert(has_name(
                    fields,
                    alias_name(AGGREGATE_EXPR_ALIAS_PREFIX@, id_after(start, (m - base) as nat)),
                ));
            }
        }
    }
}

/// No more aliases are looked at than there are expressions and fields.
proof fn lemma_free_steps_bound(id: usize, fields: Seq<FieldView>, count: nat)
    requires
        fields.len() + count <= usize::MAX,
    ensures
        next_step(free_steps(id, fields, count)) <= fields.len() + count,
{
    let prefix = AGGREGATE_EXPR_ALIAS_PREFIX@;
    let steps = free_steps(id, fields, count);
    let total = fields.len() + count;
    lemma_steps_ascend(id, fields, count);
    lemma_free_steps(id, fields, count);
    if next_step(steps) > total {
        let place = |m: int|
            if steps.contains(m as nat) {
                choose|k: int| 0 <= k < steps.len() && steps[k] == m as nat
            } else {
                count + choose|i: int|
                    0 <= i < fields.len() && (#[trigger] fields[i]).name == alias_name(
                        prefix,
                        id_after(id, m as nat),
                    )
            };
        let places = Seq::new((total + 1) as nat, place);
        assert forall|m: int| 0 <= m <= total implies 0 <= #[trigger] places[m] < total && (
        steps.contains(m as nat) ==> places[m] < count && steps[places[m]] == m) && (
        !steps.contains(m as nat) ==> places[m] >= count && fields[places[m] - count].name
            == alias_name(prefix, id_after(id, m as nat))) by {
            assert(steps.contains(m as nat) || has_name(
                fields,
                alias_name(prefix, id_after(id, m as nat)),
            ));
        }
        assert forall|m: int, n: int| 0 <= m < n <= total implies places[m] != places[n] by {
            lemma_aliases_distinct(prefix, id, m as nat, n as nat);
        }
        assert(places.no_duplicates());
        places.unique_seq_to_set();
        let range = vstd::set_lib::set_int_range(0, total as int);
        vstd::set_lib::lemma_int_range(0, total as int);
        assert(places.to_set().subset_of(range));
        vstd::set_lib::lemma_len_subset(places.to_set(), range);
    }
}

/// The aliases of extracted expressions are not names of columns of the input, and differ from each
/// other.
pub proof fn law_aliases_fresh(aggregation: AggregationView, fields: Seq<FieldView>, id: usize)
    requires
        fields.len() + extracted(aggregation).len() <= usize::MAX,
    ensures
        ({
            let projection = aggregate_projection(aggregation, fields, id);
            let offset = still_needed(aggregation).len() as int;
            &&& forall|i: int|
                offset <= i < projection.len() ==> !has_name(
                    fields,
                    (#[trigger] projection[i]).alias,
                )
            &&& forall|i: int, j: int|
                offset <= i < j < projection.len() ==> (#[trigger] projection[i]).alias != (
                #[trigger] projection[j]).alias
        }),
{
    let projection = aggregate_projection(aggregation, fields, id);
    let offset = still_needed(aggregation).len() as int;
    let count = extracted(aggregation).len();
    let ids = free_ids(id, fields, count);
    let steps = free_steps(id, fields, count);
    lemma_sorted_len(still_needed(aggregation));
    lemma_steps_ascend(id, fields, count);
    lemma_free_steps(id, fields, count);
    lemma_free_steps_bound(id, fields, count);
    assert forall|i: int| offset <= i < projection.len() implies (
    #[trigger] projection[i]).alias == alias_name(
        AGGREGATE_EXPR_ALIAS_PREFIX@,
        ids[i - offset],
    ) by {}
    assert forall|i: int, j: int| offset <= i < j < projection.len() implies (
    #[trigger] projection[i]).alias != (#[trigger] projection[j]).alias by {
        assert(ids[i - offset] == id_after(id, steps[i - offset]));
        assert(ids[j - offset] == id_after(id, steps[j - offset]));
        assert(steps[i - offset] < steps[j - offset]);
        lemma_aliases_distinct(
            AGGREGATE_EXPR_ALIAS_PREFIX@,
            id,
            steps[i - offset],
            steps[j - offset],
        );
    }
}

} // verus!
