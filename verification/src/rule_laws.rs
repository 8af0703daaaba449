use crate::aggregate::AggregateView;
use crate::aggregate_laws::{
    accepted, free_steps, law_aggregate_stays, lemma_steps_ascend, next_step,
};
use crate::aggregate_push_down::{
    computed_columns, eligible, extracted, free_ids, leaf_of, lemma_sorted_len, propose,
    still_needed, AggregateProposalView, AGGREGATE_EXPR_ALIAS_PREFIX,
};
use crate::aliases::{
    alias_name, id_after, lemma_alias_injective, lemma_id_after_add, lemma_numbers_distinct,
};
use crate::join::{JoinFilterView, JoinSide, NestedLoopJoinView};
use crate::join_push_down::{
    push_count, push_down_joins, push_down_joins_all, push_left, push_right, push_side, supported,
    PushedSide,
};
use crate::plan::PlanView;
use crate::plan_laws::law_plan_stays;
use crate::projection::ProjectionExprView;
use crate::rewriter::{pushed, pushed_projections, JOIN_ALIAS_PREFIX};
use crate::rule::{all_with_replacements, plan_proposals, plans_proposals, with_replacements};
use crate::schema::FieldView;
use crate::semantics::Semantics;
use vstd::prelude::*;

verus! {

/// Nothing is proposed, and nothing replaced, below an aggregate that something is proposed for, so
/// that the proposals for a plan do not depend on which of them are carried out.
pub proof fn law_proposals_do_not_nest(
    aggregate: AggregateView,
    input: PlanView,
    id: usize,
    replacements: Seq<Option<PlanView>>,
    k: nat,
)
    requires
        eligible(aggregate, input),
    ensures
        plan_proposals(input, id) == (Seq::<AggregateProposalView>::empty(), id),
        with_replacements(input, replacements, k) == (input, k),
{
    lemma_chain(input, id, replacements, k);
}

proof fn lemma_chain(
    plan: PlanView,
    id: usize,
    replacements: Seq<Option<PlanView>>,
    k: nat,
)
    requires
        leaf_of(plan) is Some,
    ensures
        plan_proposals(plan, id) == (Seq::<AggregateProposalView>::empty(), id),
        with_replacements(plan, replacements, k) == (plan, k),
    decreases plan,
{
    match plan {
        PlanView::Cooperative { input, .. } => lemma_chain(*input, id, replacements, k),
        PlanView::Repartition { input, .. } => lemma_chain(*input, id, replacements, k),
        PlanView::Other { children, .. } => {
            assert(plans_proposals(children, id).0 =~= seq![]);
            assert(all_with_replacements(children, replacements, k).0 =~= children);
        },
        _ => {},
    }
}

/// The position of the replacement after `count` further ones.
pub open spec fn advanced(k: nat, count: nat, size: nat) -> nat {
    if k + count <= size {
        k + count
    } else {
        size
    }
}

/// Whether each of the replacements from position `k` on, one for each proposal, is an accepted
/// rewrite of the aggregate of its proposal.
pub open spec fn all_accepted<V>(
    semantics: Semantics<V>,
    proposals: Seq<AggregateProposalView>,
    replacements: Seq<Option<PlanView>>,
    k: nat,
) -> bool {
    forall|i: int|
        0 <= i < proposals.len() && k + i < replacements.len() ==> ((
        #[trigger] replacements[k + i]) matches Some(plan) ==> accepted(
            semantics,
            proposals[i],
            plan,
        ))
}

/// Carrying out any of the proposals for a plan keeps the columns of the plan and its rows, in the
/// same order, and there is a place for one replacement for each proposal.
pub proof fn law_replacements_stay<V>(
    semantics: Semantics<V>,
    plan: PlanView,
    id: usize,
    replacements: Seq<Option<PlanView>>,
    k: nat,
)
    requires
        k <= replacements.len(),
        all_accepted(semantics, plan_proposals(plan, id).0, replacements, k),
    ensures
        ({
            let (new, new_k) = with_replacements(plan, replacements, k);
            &&& new.fields() == plan.fields()
            &&& semantics.rows(new) == semantics.rows(plan)
            &&& new_k == advanced(k, plan_proposals(plan, id).0.len(), replacements.len())
        }),
    decreases plan, 0nat,
{
    match plan {
        PlanView::NestedLoopJoin { operator, join, left, right } => {
            let (from_left, left_id) = plan_proposals(*left, id);
            let (from_right, right_id) = plan_proposals(*right, left_id);
            lemma_all_accepted_parts(semantics, from_left, from_right, replacements, k);
            law_replacements_stay(semantics, *left, id, replacements, k);
            let left_k = with_replacements(*left, replacements, k).1;
            law_replacements_stay(semantics, *right, left_id, replacements, left_k);
        },
        PlanView::Projection { operator, exprs, input } => {
            law_replacements_stay(semantics, *input, id, replacements, k);
        },
        PlanView::Aggregate { operator, aggregate, input } => {
            let (from_input, input_id) = plan_proposals(*input, id);
            let all = plan_proposals(plan, id).0;
            if eligible(aggregate, *input) {
                law_proposals_do_not_nest(aggregate, *input, id, replacements, k);
                let proposal = propose(aggregate, *input, id)->0;
                assert(all =~= seq![proposal]);
                if k < replacements.len() {
                    if let Some(replacement) = replacements[k as int] {
                        assert(replacements[k + 0int] is Some);
                        law_aggregate_stays(semantics, aggregate, *input, id, replacement);
                    }
                }
            } else {
                law_replacements_stay(semantics, *input, id, replacements, k);
            }
        },
        PlanView::Cooperative { operator, input } => {
            law_replacements_stay(semantics, *input, id, replacements, k);
        },
        PlanView::Repartition { operator, partitioning, input } => {
            law_replacements_stay(semantics, *input, id, replacements, k);
        },
        PlanView::Other { operator, schema, children } => {
            lemma_all_replacements_stay(semantics, children, id, replacements, k);
        },
    }
}

proof fn lemma_all_accepted_parts<V>(
    semantics: Semantics<V>,
    left: Seq<AggregateProposalView>,
    right: Seq<AggregateProposalView>,
    replacements: Seq<Option<PlanView>>,
    k: nat,
)
    requires
        k <= replacements.len(),
        all_accepted(semantics, left + right, replacements, k),
    ensures
        all_accepted(semantics, left, replacements, k),
        all_accepted(
            semantics,
            right,
            replacements,
            advanced(k, left.len(), replacements.len()),
        ),
{
    let all = left + right;
    assert forall|i: int| 0 <= i < left.len() && k + i < replacements.len() implies ((
    #[trigger] replacements[k + i]) matches Some(plan) ==> accepted(semantics, left[i], plan)) by {
        assert(all[i] == left[i]);
    }
    let middle = advanced(k, left.len(), replacements.len());
    assert forall|i: int| 0 <= i < right.len() && middle + i < replacements.len() implies ((
    #[trigger] replacements[middle + i]) matches Some(plan) ==> accepted(
        semantics,
        right[i],
        plan,
    )) by {
        assert(all[left.len() + i] == right[i]);
        assert(replacements[k + (left.len() + i)] == replacements[middle + i]);
    }
}

proof fn lemma_all_replacements_stay<V>(
    semantics: Semantics<V>,
    plans: Seq<PlanView>,
    id: usize,
    replacements: Seq<Option<PlanView>>,
    k: nat,
)
    requires
        k <= replacements.len(),
        all_accepted(semantics, plans_proposals(plans, id).0, replacements, k),
    ensures
        ({
            let (new, new_k) = all_with_replacements(plans, replacements, k);
            &&& new.len() == plans.len()
            &&& semantics.rows_all(new) == semantics.rows_all(plans)
            &&& new_k == advanced(k, plans_proposals(plans, id).0.len(), replacements.len())
        }),
    decreases plans, plans.len(),
{
    let new = all_with_replacements(plans, replacements, k).0;
    if plans.len() > 0 {
        let rest = plans.drop_last();
        let (before, last_id) = plans_proposals(rest, id);
        let (from_last, new_id) = plan_proposals(plans.last(), last_id);
        lemma_all_accepted_parts(semantics, before, from_last, replacements, k);
        lemma_all_replacements_stay(semantics, rest, id, replacements, k);
        let (new_rest, last_k) = all_with_replacements(rest, replacements, k);
        law_replacements_stay(semantics, plans.last(), last_id, replacements, last_k);
        assert forall|i: int| 0 <= i < plans.len() implies semantics.rows(#[trigger] new[i])
            == semantics.rows(plans[i]) by {
            if i < rest.len() {
                assert(new[i] == new_rest[i]);
                assert(semantics.rows_all(new_rest)[i] == semantics.rows_all(rest)[i]);
            }
        }
    }
    assert(semantics.rows_all(new) =~= semantics.rows_all(plans));
}

/// The rule as a whole keeps the columns of a plan and its rows, in the same order, whichever of
/// its proposals are carried out, and fails only on joins with too many columns.
pub proof fn law_rule_stays<V>(
    semantics: Semantics<V>,
    plan: PlanView,
    replacements: Seq<Option<PlanView>>,
)
    requires
        plan.well_formed(),
        push_down_joins(plan, 1) matches (Ok(new), id) ==> all_accepted(
            semantics,
            plan_proposals(new, id).0,
            replacements,
            0,
        ),
    ensures
        match push_down_joins(plan, 1).0 {
            Ok(new) => {
                let finished = with_replacements(new, replacements, 0).0;
                finished.fields() == plan.fields() && semantics.rows(finished) == semantics.rows(
                    plan,
                )
            },
            Err(error) => error is TooManyColumns,
        },
{
    law_plan_stays(semantics, plan, 1);
    if let (Ok(new), id) = push_down_joins(plan, 1) {
        law_replacements_stay(semantics, new, id, replacements, 0);
    }
}

/// A plan stays as it is if no proposal is carried out.
pub proof fn law_declined_proposals_change_nothing(
    plan: PlanView,
    replacements: Seq<Option<PlanView>>,
    k: nat,
)
    requires
        forall|i: int| 0 <= i < replacements.len() ==> (#[trigger] replacements[i]) is None,
    ensures
        with_replacements(plan, replacements, k).0 == plan,
    decreases plan, 0nat,
{
    match plan {
        PlanView::NestedLoopJoin { left, right, .. } => {
            law_declined_proposals_change_nothing(*left, replacements, k);
            let left_k = with_replacements(*left, replacements, k).1;
            law_declined_proposals_change_nothing(*right, replacements, left_k);
        },
        PlanView::Projection { input, .. } => {
            law_declined_proposals_change_nothing(*input, replacements, k);
        },
        PlanView::Aggregate { input, .. } => {
            law_declined_proposals_change_nothing(*input, replacements, k);
        },
        PlanView::Cooperative { input, .. } => {
            law_declined_proposals_change_nothing(*input, replacements, k);
        },
        PlanView::Repartition { input, .. } => {
            law_declined_proposals_change_nothing(*input, replacements, k);
        },
        PlanView::Other { children, .. } => {
            lemma_declined_proposals_change_nothing(children, replacements, k);
        },
    }
}

proof fn lemma_declined_proposals_change_nothing(
    plans: Seq<PlanView>,
    replacements: Seq<Option<PlanView>>,
    k: nat,
)
    requires
        forall|i: int| 0 <= i < replacements.len() ==> (#[trigger] replacements[i]) is None,
    ensures
        all_with_replacements(plans, replacements, k).0 == plans,
    decreases plans, plans.len(),
{
    if plans.len() > 0 {
        lemma_declined_proposals_change_nothing(plans.drop_last(), replacements, k);
        let last_k = all_with_replacements(plans.drop_last(), replacements, k).1;
        law_declined_proposals_change_nothing(plans.last(), replacements, last_k);
        assert(plans.drop_last().push(plans.last()) =~= plans);
    } else {
        assert(all_with_replacements(plans, replacements, k).0 =~= plans);
    }
}

/// The columns that were added to a side of a join with `width` columns.
pub open spec fn added_columns(side: PushedSide, width: nat) -> Seq<ProjectionExprView> {
    if side.count > 0 {
        side.plan->exprs.skip(width as int)
    } else {
        seq![]
    }
}

/// The columns that are added to both sides of a join, those of the left side first.
pub open spec fn added_to_join(
    join: NestedLoopJoinView,
    left: PlanView,
    right: PlanView,
    id: usize,
) -> Seq<ProjectionExprView> {
    if supported(join) {
        added_columns(push_left(join.filter->0, left, right, id), left.fields().len())
            + added_columns(push_right(join.filter->0, left, right, id), right.fields().len())
    } else {
        seq![]
    }
}

/// The columns that are added to a plan when the filters of its joins are pushed down, in the order
/// in which they are made.
pub open spec fn added_to_plan(plan: PlanView, id: usize) -> Seq<ProjectionExprView>
    decreases plan, 0nat,
{
    match plan {
        PlanView::NestedLoopJoin { join, left, right, .. } => {
            let (new_left, left_id) = push_down_joins(*left, id);
            let (new_right, right_id) = push_down_joins(*right, left_id);
            added_to_plan(*left, id) + added_to_plan(*right, left_id) + added_to_join(
                join,
                new_left->Ok_0,
                new_right->Ok_0,
                right_id,
            )
        },
        PlanView::Projection { input, .. } => added_to_plan(*input, id),
        PlanView::Aggregate { input, .. } => added_to_plan(*input, id),
        PlanView::Cooperative { input, .. } => added_to_plan(*input, id),
        PlanView::Repartition { input, .. } => added_to_plan(*input, id),
        PlanView::Other { children, .. } => added_to_plans(children, id),
    }
}

/// The columns that are added to several plans, from left to right.
pub open spec fn added_to_plans(plans: Seq<PlanView>, id: usize) -> Seq<ProjectionExprView>
    decreases plans, plans.len(),
{
    if plans.len() == 0 {
        seq![]
    } else {
        added_to_plans(plans.drop_last(), id) + added_to_plan(
            plans.last(),
            push_down_joins_all(plans.drop_last(), id).1,
        )
    }
}

/// The columns that compute extracted expressions in the projections of several proposals.
pub open spec fn extracted_columns(proposals: Seq<AggregateProposalView>) -> Seq<ProjectionExprView>
    decreases proposals.len(),
{
    if proposals.len() == 0 {
        seq![]
    } else {
        extracted_columns(proposals.drop_last()) + proposals.last().projection.skip(
            proposals.last().extracted_offset,
        )
    }
}

/// How many numbers are used up for the proposals for a plan, those of aliases that were not free
/// among them.
pub open spec fn numbers_used(plan: PlanView, id: usize) -> nat
    decreases plan, 0nat,
{
    match plan {
        PlanView::NestedLoopJoin { left, right, .. } => numbers_used(*left, id) + numbers_used(
            *right,
            plan_proposals(*left, id).1,
        ),
        PlanView::Projection { input, .. } => numbers_used(*input, id),
        PlanView::Aggregate { aggregate, input, .. } => {
            let input_id = plan_proposals(*input, id).1;
            numbers_used(*input, id) + (if eligible(aggregate, *input) {
                next_step(
                    free_steps(
                        input_id,
                        input.fields(),
                        extracted(aggregate.aggregation).len(),
                    ),
                )
            } else {
                0
            })
        },
        PlanView::Cooperative { input, .. } => numbers_used(*input, id),
        PlanView::Repartition { input, .. } => numbers_used(*input, id),
        PlanView::Other { children, .. } => numbers_used_by_all(children, id),
    }
}

/// How many numbers are used up for the proposals for several plans.
pub open spec fn numbers_used_by_all(plans: Seq<PlanView>, id: usize) -> nat
    decreases plans, plans.len(),
{
    if plans.len() == 0 {
        0
    } else {
        numbers_used_by_all(plans.drop_last(), id) + numbers_used(
            plans.last(),
            plans_proposals(plans.drop_last(), id).1,
        )
    }
}

/// Whether the columns have the aliases with the given prefix whose numbers come `steps` after
/// `id`, in ascending order, and all before the step `end`.
pub open spec fn numbered(
    columns: Seq<ProjectionExprView>,
    prefix: Seq<char>,
    id: usize,
    steps: Seq<nat>,
    end: nat,
) -> bool {
    &&& columns.len() == steps.len()
    &&& forall|i: int|
        0 <= i < columns.len() ==> (#[trigger] columns[i]).alias == alias_name(
            prefix,
            id_after(id, steps[i]),
        )
    &&& forall|i: int| 0 <= i < steps.len() ==> #[trigger] steps[i] < end
    &&& forall|i: int, j: int|
        0 <= i < j < steps.len() ==> #[trigger] steps[i] < #[trigger] steps[j]
}

/// Steps that were counted from a later number, counted from the first.
pub open spec fn moved_on(steps: Seq<nat>, start: nat) -> Seq<nat> {
    steps.map_values(|step: nat| start + step)
}

/// Columns that are numbered one after the other are numbered together.
proof fn lemma_numbered_add(
    left: Seq<ProjectionExprView>,
    right: Seq<ProjectionExprView>,
    prefix: Seq<char>,
    id: usize,
    left_steps: Seq<nat>,
    right_steps: Seq<nat>,
    left_end: nat,
    right_end: nat,
)
    requires
        numbered(left, prefix, id, left_steps, left_end),
        numbered(right, prefix, id_after(id, left_end), right_steps, right_end),
    ensures
        numbered(
            left + right,
            prefix,
            id,
            left_steps + moved_on(right_steps, left_end),
            left_end + right_end,
        ),
{
    let columns = left + right;
    let moved = moved_on(right_steps, left_end);
    let steps = left_steps + moved;
    assert forall|i: int| 0 <= i < columns.len() implies (#[trigger] columns[i]).alias
        == alias_name(prefix, id_after(id, steps[i])) by {
        if i < left.len() {
            assert(left[i].alias == alias_name(prefix, id_after(id, left_steps[i])));
        } else {
            let j = i - left.len();
            assert(right[j].alias == alias_name(
                prefix,
                id_after(id_after(id, left_end), right_steps[j]),
            ));
            lemma_id_after_add(id, left_end, right_steps[j]);
            assert(steps[i] == left_end + right_steps[j]);
        }
    }
    assert forall|i: int| 0 <= i < steps.len() implies #[trigger] steps[i] < left_end
        + right_end by {
        if i < left_steps.len() {
            assert(steps[i] == left_steps[i]);
        } else {
            assert(steps[i] == left_end + right_steps[i - left_steps.len()]);
        }
    }
    assert forall|i: int, j: int| 0 <= i < j < steps.len() implies #[trigger] steps[i]
        < #[trigger] steps[j] by {
        if j < left_steps.len() {
            assert(left_steps[i] < left_steps[j]);
        } else if i < left_steps.len() {
            assert(steps[i] == left_steps[i] && left_steps[i] < left_end);
            assert(steps[j] == left_end + right_steps[j - left_steps.len()]);
        } else {
            assert(right_steps[i - left_steps.len()] < right_steps[j - left_steps.len()]);
        }
    }
}

/// The first `count` steps.
pub open spec fn first_steps(count: nat) -> Seq<nat> {
    Seq::new(count, |i: int| i as nat)
}

/// Columns with consecutive numbers that follow each other.
proof fn lemma_consecutive_add(
    left: Seq<ProjectionExprView>,
    right: Seq<ProjectionExprView>,
    prefix: Seq<char>,
    id: usize,
)
    requires
        numbered(left, prefix, id, first_steps(left.len()), left.len()),
        numbered(
            right,
            prefix,
            id_after(id, left.len()),
            first_steps(right.len()),
            right.len(),
        ),
    ensures
        numbered(
            left + right,
            prefix,
            id,
            first_steps((left + right).len()),
            (left + right).len(),
        ),
{
    lemma_numbered_add(
        left,
        right,
        prefix,
        id,
        first_steps(left.len()),
        first_steps(right.len()),
        left.len(),
        right.len(),
    );
    assert(first_steps(left.len()) + moved_on(first_steps(right.len()), left.len())
        =~= first_steps((left + right).len()));
}

/// The columns that are added to a side of a join are numbered consecutively.
proof fn lemma_added_columns(
    side: JoinSide,
    plan: PlanView,
    other: Seq<FieldView>,
    filter: JoinFilterView,
    id: usize,
)
    ensures
        ({
            let new = push_side(side, plan, other, filter, id);
            let columns = added_columns(new, plan.fields().len());
            &&& columns.len() == new.count
            &&& numbered(columns, JOIN_ALIAS_PREFIX@, id, first_steps(new.count), new.count)
        }),
{
    let new = push_side(side, plan, other, filter, id);
    let columns = added_columns(new, plan.fields().len());
    if new.count > 0 {
        let exprs = pushed(filter.expression, filter.column_indices, side);
        assert(columns =~= pushed_projections(
            exprs,
            filter.column_indices,
            plan.fields(),
            id,
        ));
    }
}

/// The columns that are added to a plan are numbered consecutively.
proof fn lemma_added_to_plan(plan: PlanView, id: usize)
    requires
        push_down_joins(plan, id).0 is Ok,
    ensures
        ({
            let columns = added_to_plan(plan, id);
            &&& numbered(
                columns,
                JOIN_ALIAS_PREFIX@,
                id,
                first_steps(columns.len()),
                columns.len(),
            )
            &&& push_down_joins(plan, id).1 == id_after(id, columns.len())
        }),
    decreases plan, 0nat,
{
    match plan {
        PlanView::NestedLoopJoin { operator, join, left, right } => {
            let (new_left, left_id) = push_down_joins(*left, id);
            let (new_right, right_id) = push_down_joins(*right, left_id);
            lemma_added_to_plan(*left, id);
            lemma_added_to_plan(*right, left_id);
            lemma_added_to_join(join, new_left->Ok_0, new_right->Ok_0, right_id);
            let from_left = added_to_plan(*left, id);
            let from_right = added_to_plan(*right, left_id);
            let own = added_to_join(join, new_left->Ok_0, new_right->Ok_0, right_id);
            lemma_consecutive_add(from_left, from_right, JOIN_ALIAS_PREFIX@, id);
            lemma_id_after_add(id, from_left.len(), from_right.len());
            lemma_consecutive_add(from_left + from_right, own, JOIN_ALIAS_PREFIX@, id);
            lemma_id_after_add(id, (from_left + from_right).len(), own.len());
        },
        PlanView::Projection { operator, exprs, input } => lemma_added_to_plan(*input, id),
        PlanView::Aggregate { operator, aggregate, input } => lemma_added_to_plan(*input, id),
        PlanView::Cooperative { operator, input } => lemma_added_to_plan(*input, id),
        PlanView::Repartition { operator, partitioning, input } => lemma_added_to_plan(
            *input,
            id,
        ),
        PlanView::Other { operator, schema, children } => lemma_added_to_plans(children, id),
    }
}

proof fn lemma_added_to_join(
    join: NestedLoopJoinView,
    left: PlanView,
    right: PlanView,
    id: usize,
)
    ensures
        ({
            let columns = added_to_join(join, left, right, id);
            &&& columns.len() == push_count(join, left, right, id)
            &&& numbered(
                columns,
                JOIN_ALIAS_PREFIX@,
                id,
                first_steps(columns.len()),
                columns.len(),
            )
        }),
{
    if supported(join) {
        let filter = join.filter->0;
        let new_left = push_left(filter, left, right, id);
        let new_right = push_right(filter, left, right, id);
        lemma_added_columns(JoinSide::Left, left, right.fields(), filter, id);
        lemma_added_columns(
            JoinSide::Right,
            right,
            new_left.plan.fields(),
            new_left.filter,
            id_after(id, new_left.count),
        );
        lemma_consecutive_add(
            added_columns(new_left, left.fields().len()),
            added_columns(new_right, right.fields().len()),
            JOIN_ALIAS_PREFIX@,
            id,
        );
    }
}

proof fn lemma_added_to_plans(plans: Seq<PlanView>, id: usize)
    requires
        push_down_joins_all(plans, id).0 is Ok,
    ensures
        ({
            let columns = added_to_plans(plans, id);
            &&& numbered(
                columns,
                JOIN_ALIAS_PREFIX@,
                id,
                first_steps(columns.len()),
                columns.len(),
            )
            &&& push_down_joins_all(plans, id).1 == id_after(id, columns.len())
        }),
    decreases plans, plans.len(),
{
    if plans.len() > 0 {
        let rest = plans.drop_last();
        let last_id = push_down_joins_all(rest, id).1;
        lemma_added_to_plans(rest, id);
        lemma_added_to_plan(plans.last(), last_id);
        let before = added_to_plans(rest, id);
        let from_last = added_to_plan(plans.last(), last_id);
        lemma_consecutive_add(before, from_last, JOIN_ALIAS_PREFIX@, id);
        lemma_id_after_add(id, before.len(), from_last.len());
    }
}

proof fn lemma_extracted_columns_add(
    left: Seq<AggregateProposalView>,
    right: Seq<AggregateProposalView>,
)
    ensures
        extracted_columns(left + right) == extracted_columns(left) + extracted_columns(right),
    decreases right.len(),
{
    if right.len() == 0 {
        assert(left + right =~= left);
        assert(extracted_columns(left) + extracted_columns(right) =~= extracted_columns(left));
    } else {
        lemma_extracted_columns_add(left, right.drop_last());
        assert((left + right).drop_last() =~= left + right.drop_last());
        assert(extracted_columns(left + right) =~= extracted_columns(left) + extracted_columns(
            right,
        ));
    }
}

/// The columns of the proposals for a plan have ascending numbers.
proof fn lemma_extracted_from_plan(plan: PlanView, id: usize) -> (steps: Seq<nat>)
    ensures
        numbered(
            extracted_columns(plan_proposals(plan, id).0),
            AGGREGATE_EXPR_ALIAS_PREFIX@,
            id,
            steps,
            numbers_used(plan, id),
        ),
        plan_proposals(plan, id).1 == id_after(id, numbers_used(plan, id)),
    decreases plan, 0nat,
{
    match plan {
        PlanView::NestedLoopJoin { operator, join, left, right } => {
            let (from_left, left_id) = plan_proposals(*left, id);
            let (from_right, right_id) = plan_proposals(*right, left_id);
            let left_steps = lemma_extracted_from_plan(*left, id);
            let right_steps = lemma_extracted_from_plan(*right, left_id);
            let left_end = numbers_used(*left, id);
            let right_end = numbers_used(*right, left_id);
            lemma_extracted_columns_add(from_left, from_right);
            lemma_numbered_add(
                extracted_columns(from_left),
                extracted_columns(from_right),
                AGGREGATE_EXPR_ALIAS_PREFIX@,
                id,
                left_steps,
                right_steps,
                left_end,
                right_end,
            );
            lemma_id_after_add(id, left_end, right_end);
            left_steps + moved_on(right_steps, left_end)
        },
        PlanView::Projection { operator, exprs, input } => lemma_extracted_from_plan(*input, id),
        PlanView::Aggregate { operator, aggregate, input } => {
            let (from_input, input_id) = plan_proposals(*input, id);
            let input_steps = lemma_extracted_from_plan(*input, id);
            if eligible(aggregate, *input) {
                let proposal = propose(aggregate, *input, input_id)->0;
                let count = extracted(aggregate.aggregation).len();
                let own_steps = free_steps(input_id, input.fields(), count);
                let own = proposal.projection.skip(proposal.extracted_offset);
                let input_end = numbers_used(*input, id);
                lemma_steps_ascend(input_id, input.fields(), count);
                lemma_sorted_len(still_needed(aggregate.aggregation));
                assert(own =~= computed_columns(
                    extracted(aggregate.aggregation),
                    free_ids(input_id, input.fields(), count),
                ));
                assert(numbered(
                    own,
                    AGGREGATE_EXPR_ALIAS_PREFIX@,
                    input_id,
                    own_steps,
                    next_step(own_steps),
                ));
                lemma_numbered_add(
                    extracted_columns(from_input),
                    own,
                    AGGREGATE_EXPR_ALIAS_PREFIX@,
                    id,
                    input_steps,
                    own_steps,
                    input_end,
                    next_step(own_steps),
                );
                lemma_id_after_add(id, input_end, next_step(own_steps));
                assert(from_input.push(proposal).drop_last() =~= from_input);
                input_steps + moved_on(own_steps, input_end)
            } else {
                input_steps
            }
        },
        PlanView::Cooperative { operator, input } => lemma_extracted_from_plan(*input, id),
        PlanView::Repartition { operator, partitioning, input } => lemma_extracted_from_plan(
            *input,
            id,
        ),
        PlanView::Other { operator, schema, children } => lemma_extracted_from_plans(
            children,
            id,
        ),
    }
}

proof fn lemma_extracted_from_plans(plans: Seq<PlanView>, id: usize) -> (steps: Seq<nat>)
    ensures
        numbered(
            extracted_columns(plans_proposals(plans, id).0),
            AGGREGATE_EXPR_ALIAS_PREFIX@,
            id,
            steps,
            numbers_used_by_all(plans, id),
        ),
        plans_proposals(plans, id).1 == id_after(id, numbers_used_by_all(plans, id)),
    decreases plans, plans.len(),
{
    if plans.len() == 0 {
        seq![]
    } else {
        let rest = plans.drop_last();
        let (before, last_id) = plans_proposals(rest, id);
        let from_last = plan_proposals(plans.last(), last_id).0;
        let rest_steps = lemma_extracted_from_plans(rest, id);
        let last_steps = lemma_extracted_from_plan(plans.last(), last_id);
        let rest_end = numbers_used_by_all(rest, id);
        let last_end = numbers_used(plans.last(), last_id);
        lemma_extracted_columns_add(before, from_last);
        lemma_numbered_add(
            extracted_columns(before),
            extracted_columns(from_last),
            AGGREGATE_EXPR_ALIAS_PREFIX@,
            id,
            rest_steps,
            last_steps,
            rest_end,
            last_end,
        );
        lemma_id_after_add(id, rest_end, last_end);
        rest_steps + moved_on(last_steps, rest_end)
    }
}

/// The rule numbers all columns that it adds to a plan, for joins and for aggregates, from one
/// sequence: each has the alias with its own number, the numbers differ from each other, and so do
/// the aliases, as long as no more numbers are used up than a `usize` can tell apart.
pub proof fn law_new_columns_distinct(plan: PlanView) -> (ids: Seq<usize>)
    requires
        push_down_joins(plan, 1) matches (Ok(new), id) && added_to_plan(plan, 1).len()
            + numbers_used(new, id) <= usize::MAX + 1,
    ensures
        ({
            let (new, id) = (push_down_joins(plan, 1).0->Ok_0, push_down_joins(plan, 1).1);
            let from_joins = added_to_plan(plan, 1);
            let from_aggregates = extracted_columns(plan_proposals(new, id).0);
            let all = from_joins + from_aggregates;
            &&& ids.len() == all.len()
            &&& ids.no_duplicates()
            &&& forall|i: int|
                0 <= i < all.len() ==> (#[trigger] all[i]).alias == alias_name(
                    if i < from_joins.len() {
                        JOIN_ALIAS_PREFIX@
                    } else {
                        AGGREGATE_EXPR_ALIAS_PREFIX@
                    },
                    ids[i],
                )
            &&& forall|i: int, j: int|
                0 <= i < j < all.len() ==> (#[trigger] all[i]).alias != (#[trigger] all[j]).alias
        }),
{
    let (new, id) = (push_down_joins(plan, 1).0->Ok_0, push_down_joins(plan, 1).1);
    let from_joins = added_to_plan(plan, 1);
    let from_aggregates = extracted_columns(plan_proposals(new, id).0);
    let all = from_joins + from_aggregates;
    let count = from_joins.len();
    lemma_added_to_plan(plan, 1);
    let later = lemma_extracted_from_plan(new, id);
    let steps = first_steps(count) + moved_on(later, count);
    let ids = steps.map_values(|step: nat| id_after(1, step));
    let total = count + numbers_used(new, id);
    assert forall|i: int| 0 <= i < all.len() implies (#[trigger] all[i]).alias == alias_name(
        if i < count {
            JOIN_ALIAS_PREFIX@
        } else {
            AGGREGATE_EXPR_ALIAS_PREFIX@
        },
        ids[i],
    ) && steps[i] < total by {
        if i < count {
            assert(from_joins[i].alias == alias_name(
                JOIN_ALIAS_PREFIX@,
                id_after(1, first_steps(count)[i]),
            ));
        } else {
            let j = i - count;
            assert(from_aggregates[j].alias == alias_name(
                AGGREGATE_EXPR_ALIAS_PREFIX@,
                id_after(id, later[j]),
            ));
            assert(later[j] < numbers_used(new, id));
            lemma_id_after_add(1, count, later[j]);
        }
    }
    assert forall|i: int, j: int| 0 <= i < j < ids.len() implies ids[i] != ids[j] by {
        assert(all[i].alias == all[i].alias && all[j].alias == all[j].alias);
        assert(steps[i] < steps[j]) by {
            if i >= count {
                assert(later[i - count] < later[j - count]);
            }
        }
        lemma_numbers_distinct(1, steps[i], steps[j]);
    }
    assert forall|i: int, j: int| 0 <= i < j < all.len() implies (#[trigger] all[i]).alias != (
    #[trigger] all[j]).alias by {
        assert(ids[i] != ids[j]);
        if i < count && j >= count {
            reveal_strlit("join_proj_push_down");
            reveal_strlit("__datafusion_agg_expr");
            assert(all[i].alias[0] == JOIN_ALIAS_PREFIX@[0]);
            assert(all[j].alias[0] == AGGREGATE_EXPR_ALIAS_PREFIX@[0]);
        } else if all[i].alias == all[j].alias {
            if i < count {
                lemma_alias_injective(JOIN_ALIAS_PREFIX@, ids[i], ids[j]);
            } else {
                lemma_alias_injective(AGGREGATE_EXPR_ALIAS_PREFIX@, ids[i], ids[j]);
            }
        }
    }
    ids
}

} // verus!
