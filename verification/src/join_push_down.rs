use crate::aliases::{id_after, lemma_id_after_add, Aliases};
use crate::join::{
    join_fields, projection_fits, JoinFilterView, JoinSide, JoinType, NestedLoopJoin,
    NestedLoopJoinView,
};
use crate::join_filter::{
    filter_fits, lemma_minimized_fits, lemma_side_push_down, minimize_join_filter, minimized,
    side_filter, side_projection, try_push_down_projection,
};
use crate::join_tree_laws::{fully_pushed_down, joins_pushed_down, law_every_join_pushed_down};
use crate::plan::{group_plan_trees, plan_trees, Plan, PlanView};
use crate::projection::projected;
use crate::rewriter::{pushed, Transformed};
use crate::schema::FieldView;
use std::sync::Arc;
use vstd::prelude::*;

verus! {

/// Why a plan could not be rewritten.
#[derive(Clone, Copy, Debug, PartialEq, Eq, Structural)]
pub enum PlanError {
    /// The position of a column does not fit into a `usize`.
    TooManyColumns,
}

/// One side of a join, and the filter, after parts of the filter were pushed down into that side.
pub struct PushedSide {
    pub plan: PlanView,
    pub filter: JoinFilterView,
    pub count: nat,
}

/// Pushes the parts of the filter that depend on one side alone down into that side.
pub open spec fn push_side(
    side: JoinSide,
    plan: PlanView,
    other: Seq<FieldView>,
    filter: JoinFilterView,
    id: usize,
) -> PushedSide {
    let count = pushed(filter.expression, filter.column_indices, side).len();
    if count == 0 {
        PushedSide { plan, filter, count }
    } else {
        PushedSide {
            plan: PlanView::Projection {
                operator: None,
                exprs: side_projection(side, plan.fields(), filter, id),
                input: Box::new(plan),
            },
            filter: side_filter(side, plan.fields(), other, filter, id),
            count,
        }
    }
}

/// The left side after the push-down.
pub open spec fn push_left(
    filter: JoinFilterView,
    left: PlanView,
    right: PlanView,
    id: usize,
) -> PushedSide {
    push_side(JoinSide::Left, left, right.fields(), filter, id)
}

/// The right side after the push-down, which comes after that of the left side.
pub open spec fn push_right(
    filter: JoinFilterView,
    left: PlanView,
    right: PlanView,
    id: usize,
) -> PushedSide {
    let pushed_left = push_left(filter, left, right, id);
    push_side(
        JoinSide::Right,
        right,
        pushed_left.plan.fields(),
        pushed_left.filter,
        id_after(id, pushed_left.count),
    )
}

/// The integers from `from` up to, but not including, `to`.
pub open spec fn range(from: int, to: int) -> Seq<int> {
    Seq::new((to - from) as nat, |i: int| from + i)
}

/// Which columns the join keeps after its left input got wider: `left` and `right` are the numbers
/// of columns of the inputs before, and `new_left` that of the left input afterwards. The columns
/// of the right input move behind the new columns of the left input, unless the join returns no
/// columns of the left input at all.
pub open spec fn kept_positions(
    join_type: JoinType,
    projection: Option<Seq<usize>>,
    left: int,
    new_left: int,
    right: int,
) -> Seq<int> {
    match projection {
        Some(projection) => projection.map_values(
            |i: usize|
                if i >= left && !(join_type is RightSemi) && !(join_type is RightAnti) {
                    i + (new_left - left)
                } else {
                    i as int
                },
        ),
        None => match join_type {
            JoinType::Inner | JoinType::Left | JoinType::Right | JoinType::Full => range(0, left)
                + range(new_left, new_left + right),
            JoinType::LeftSemi | JoinType::LeftAnti => range(0, left),
            JoinType::RightSemi | JoinType::RightAnti => range(0, right),
            JoinType::LeftMark | JoinType::RightMark => seq![],
        },
    }
}

/// Whether all positions fit into a `usize`.
pub open spec fn fit_usize(positions: Seq<int>) -> bool {
    forall|i: int| 0 <= i < positions.len() ==> #[trigger] positions[i] <= usize::MAX
}

/// The positions as machine integers.
pub open spec fn as_usize(positions: Seq<int>) -> Seq<usize> {
    positions.map_values(|i: int| i as usize)
}

/// Whether parts of the filter of such a join may be pushed down.
pub open spec fn supported(join: NestedLoopJoinView) -> bool {
    join.filter is Some && !(join.join_type is LeftMark) && !(join.join_type is RightMark)
}

/// How many expressions are pushed down.
pub open spec fn push_count(
    join: NestedLoopJoinView,
    left: PlanView,
    right: PlanView,
    id: usize,
) -> nat {
    if supported(join) {
        push_left(join.filter->0, left, right, id).count + push_right(
            join.filter->0,
            left,
            right,
            id,
        ).count
    } else {
        0
    }
}

/// The join after the push-down, or nothing if it stays as it is.
pub open spec fn push_down_join(
    join: NestedLoopJoinView,
    left: PlanView,
    right: PlanView,
    id: usize,
) -> Result<Option<PlanView>, PlanError> {
    if push_count(join, left, right, id) == 0 {
        Ok(None)
    } else {
        let filter = join.filter->0;
        let new_left = push_left(filter, left, right, id).plan;
        let new_right = push_right(filter, left, right, id).plan;
        let new_filter = push_right(filter, left, right, id).filter;
        let positions = kept_positions(
            join.join_type,
            join.projection,
            left.fields().len() as int,
            new_left.fields().len() as int,
            right.fields().len() as int,
        );
        if new_left.fields().len() > usize::MAX || new_right.fields().len() > usize::MAX
            || !fit_usize(positions) {
            Err(PlanError::TooManyColumns)
        } else {
            Ok(
                Some(
                    PlanView::NestedLoopJoin {
                        operator: None,
                        join: NestedLoopJoinView {
                            filter: Some(
                                minimized(
                                    new_filter.expression,
                                    new_filter.column_indices,
                                    new_left.fields(),
                                    new_right.fields(),
                                ),
                            ),
                            join_type: join.join_type,
                            projection: Some(as_usize(positions)),
                        },
                        left: Box::new(new_left),
                        right: Box::new(new_right),
                    },
                ),
            )
        }
    }
}

/// Appends the positions from `from` on, `count` of them.
fn append_range(positions: &mut Vec<usize>, from: usize, count: usize) -> (fits: bool)
    ensures
        fits == fit_usize(range(from as int, from + count)),
        fits ==> final(positions)@ == old(positions)@ + as_usize(range(from as int, from + count)),
{
    let ghost added = range(from as int, from + count);
    assert(positions@ =~= old(positions)@ + as_usize(added.take(0)));
    for i in 0..count
        invariant
            added == range(from as int, from + count),
            fit_usize(added.take(i as int)),
            positions@ == old(positions)@ + as_usize(added.take(i as int)),
    {
        assert(added[i as int] == from + i);
        match from.checked_add(i) {
            Some(position) => {
                positions.push(position);
                assert(added.take(i + 1) =~= added.take(i as int).push(position as int));
                assert(positions@ =~= old(positions)@ + as_usize(added.take(i + 1)));
            },
            None => {
                return false;
            },
        }
    }
    assert(added.take(count as int) =~= added);
    true
}

/// Which columns the join keeps after its left input got wider.
fn shift_projection(
    join: &NestedLoopJoin,
    left: usize,
    new_left: usize,
    right: usize,
) -> (result: Option<Vec<usize>>)
    requires
        left <= new_left,
    ensures
        ({
            let positions = kept_positions(
                join.join_type,
                join@.projection,
                left as int,
                new_left as int,
                right as int,
            );
            match result {
                Some(projection) => fit_usize(positions) && projection@ == as_usize(positions),
                None => !fit_usize(positions),
            }
        }),
{
    let mut positions: Vec<usize> = Vec::new();
    let ghost expected = kept_positions(
        join.join_type,
        join@.projection,
        left as int,
        new_left as int,
        right as int,
    );
    match &join.projection {
        Some(projection) => {
            let offset = match join.join_type {
                // Only columns of the right input are returned.
                JoinType::RightSemi | JoinType::RightAnti => 0,
                _ => new_left - left,
            };
            assert(positions@ =~= as_usize(expected.take(0)));
            for i in 0..projection.len()
                invariant
                    left <= new_left,
                    offset == (if join.join_type is RightSemi || join.join_type is RightAnti {
                        0
                    } else {
                        new_left - left
                    }),
                    join@.projection == Some(projection@),
                    expected == kept_positions(
                        join.join_type,
                        join@.projection,
                        left as int,
                        new_left as int,
                        right as int,
                    ),
                    fit_usize(expected.take(i as int)),
                    positions@ == as_usize(expected.take(i as int)),
            {
                let index = projection[i];
                let position = if index >= left {
                    index.checked_add(offset)
                } else {
                    Some(index)
                };
                match position {
                    Some(position) => {
                        positions.push(position);
                        assert(expected.take(i + 1) =~= expected.take(i as int).push(
                            position as int,
                        ));
                        assert(positions@ =~= as_usize(expected.take(i + 1)));
                    },
                    None => {
                        assert(expected[i as int] > usize::MAX);
                        return None;
                    },
                }
            }
            assert(expected.take(projection.len() as int) =~= expected);
        },
        None => {
            let fits = match join.join_type {
                JoinType::Inner | JoinType::Left | JoinType::Right | JoinType::Full => {
                    // The newly projected columns of the left input are left out.
                    let fits_left = append_range(&mut positions, 0, left);
                    let fits_right = append_range(&mut positions, new_left, right);
                    proof {
                        let from_left = range(0, left as int);
                        let from_right = range(new_left as int, new_left + right);
                        assert forall|i: int| 0 <= i < from_right.len() implies
                            expected[from_left.len() + i] == #[trigger] from_right[i] by {}
                        assert forall|i: int| 0 <= i < expected.len() implies
                            #[trigger] expected[i] == (if i < from_left.len() {
                                from_left[i]
                            } else {
                                from_right[i - from_left.len()]
                            }) by {}
                        if fits_left && fits_right {
                            assert(positions@ =~= as_usize(expected));
                        }
                    }
                    fits_left && fits_right
                },
                JoinType::LeftSemi | JoinType::LeftAnti => {
                    let fits = append_range(&mut positions, 0, left);
                    assert(fits ==> positions@ =~= as_usize(expected));
                    fits
                },
                JoinType::RightSemi | JoinType::RightAnti => {
                    let fits = append_range(&mut positions, 0, right);
                    assert(fits ==> positions@ =~= as_usize(expected));
                    fits
                },
                JoinType::LeftMark | JoinType::RightMark => {
                    assert(positions@ =~= as_usize(expected));
                    true
                },
            };
            if !fits {
                return None;
            }
        },
    }
    Some(positions)
}

/// Tries to push down parts of the filter of the join `original_plan`, which has the inputs `left`
/// and `right`.
///
/// See [`JoinFilterRewriter`](crate::rewriter::JoinFilterRewriter) for details.
pub fn try_push_down_join_filter(
    original_plan: &Arc<Plan>,
    join: &NestedLoopJoin,
    left: &Arc<Plan>,
    right: &Arc<Plan>,
    aliases: &mut Aliases,
) -> (result: Result<Transformed<Arc<Plan>>, PlanError>)
    requires
        left@.well_formed(),
        right@.well_formed(),
        join@.fits(left@.fields(), right@.fields()),
    ensures
        match push_down_join(join@, left@, right@, old(aliases).counter()) {
            Ok(Some(plan)) => result matches Ok(new) && new.transformed && new.data@ == plan,
            Ok(None) => result matches Ok(new) && !new.transformed && new.data == *original_plan,
            Err(error) => result matches Err(e) && e == error,
        },
        result is Ok ==> final(aliases).counter() == id_after(
            old(aliases).counter(),
            push_count(join@, left@, right@, old(aliases).counter()),
        ),
{
    let ghost id = aliases.counter();
    // Mark joins are not supported.
    if matches!(join.join_type, JoinType::LeftMark | JoinType::RightMark) {
        return Ok(Transformed { data: Arc::clone(original_plan), transformed: false });
    }
    let filter = match &join.filter {
        Some(filter) => filter.clone(),
        None => {
            return Ok(Transformed { data: Arc::clone(original_plan), transformed: false });
        },
    };
    let ghost old_filter = filter@;
    let left_schema = left.schema();
    let right_schema = right.schema();

    let lhs = try_push_down_projection(&right_schema, left, JoinSide::Left, filter, aliases);
    let lhs_transformed = lhs.transformed;
    let (new_left, filter) = lhs.data;
    assert(left_schema@.len() == left_schema.fields.len());
    assert(right_schema@.len() == right_schema.fields.len());
    proof {
        lemma_push_side(JoinSide::Left, left@, right@.fields(), old_filter, id);
    }
    let new_left_schema = new_left.schema();
    assert(new_left_schema@.len() == new_left_schema.fields.len());
    let ghost middle_filter = filter@;
    let ghost middle_id = aliases.counter();
    let rhs = try_push_down_projection(&new_left_schema, right, JoinSide::Right, filter, aliases);
    let rhs_transformed = rhs.transformed;
    let (new_right, filter) = rhs.data;
    proof {
        lemma_push_side(
            JoinSide::Right,
            right@,
            new_left@.fields(),
            middle_filter,
            middle_id,
        );
        lemma_id_after_add(
            id,
            push_left(old_filter, left@, right@, id).count,
            push_right(old_filter, left@, right@, id).count,
        );
    }
    if !lhs_transformed && !rhs_transformed {
        return Ok(Transformed { data: Arc::clone(original_plan), transformed: false });
    }
    let new_right_schema = new_right.schema();
    assert(new_right_schema@.len() == new_right_schema.fields.len());

    let join_filter = minimize_join_filter(
        &filter.expression,
        &filter.column_indices,
        &new_left_schema,
        &new_right_schema,
    );

    let projection = match shift_projection(
        join,
        left_schema.fields.len(),
        new_left_schema.fields.len(),
        right_schema.fields.len(),
    ) {
        Some(projection) => projection,
        None => {
            return Err(PlanError::TooManyColumns);
        },
    };
    let new_join = NestedLoopJoin {
        filter: Some(join_filter),
        join_type: join.join_type,
        projection: Some(projection),
    };
    let plan = Plan::NestedLoopJoin {
        operator: None,
        join: Arc::new(new_join),
        left: new_left,
        right: new_right,
    };
    Ok(Transformed { data: Arc::new(plan), transformed: true })
}

/// A side stays well formed and keeps its columns when expressions are pushed down into it.
pub proof fn lemma_push_side(
    side: JoinSide,
    plan: PlanView,
    other: Seq<FieldView>,
    filter: JoinFilterView,
    id: usize,
)
    requires
        plan.well_formed(),
        filter_fits(filter, side, plan.fields().len() as int, other.len() as int),
        push_side(side, plan, other, filter, id).plan.fields().len() <= usize::MAX,
    ensures
        ({
            let new = push_side(side, plan, other, filter, id);
            &&& new.plan.well_formed()
            &&& new.plan.fields().len() == plan.fields().len() + new.count
            &&& new.plan.fields().take(plan.fields().len() as int) == plan.fields()
            &&& filter_fits(
                new.filter,
                side,
                new.plan.fields().len() as int,
                other.len() as int,
            )
        }),
{
    if pushed(filter.expression, filter.column_indices, side).len() > 0 {
        lemma_side_push_down(side, plan.fields(), other, filter, id);
    } else {
        assert(plan.fields().take(plan.fields().len() as int) =~= plan.fields());
    }
}

/// The number of columns of a join depends only on the numbers of columns of its inputs.
pub proof fn lemma_join_fields_len(
    join_type: JoinType,
    left: Seq<FieldView>,
    right: Seq<FieldView>,
    new_left: Seq<FieldView>,
    new_right: Seq<FieldView>,
)
    requires
        left.len() == new_left.len(),
        right.len() == new_right.len(),
    ensures
        join_fields(join_type, left, right).len() == join_fields(
            join_type,
            new_left,
            new_right,
        ).len(),
{
}

/// The columns of a row of a join that is no mark join.
pub open spec fn combined<A>(join_type: JoinType, left: Seq<A>, right: Seq<A>) -> Seq<A> {
    match join_type {
        JoinType::Inner | JoinType::Left | JoinType::Right | JoinType::Full => left + right,
        JoinType::LeftSemi | JoinType::LeftAnti | JoinType::LeftMark => left,
        JoinType::RightSemi | JoinType::RightAnti | JoinType::RightMark => right,
    }
}

/// The columns that are kept after both inputs got wider are those that were kept before.
pub proof fn lemma_kept_columns<A>(
    join_type: JoinType,
    projection: Option<Seq<usize>>,
    left: Seq<A>,
    right: Seq<A>,
    new_left: Seq<A>,
    new_right: Seq<A>,
)
    requires
        !(join_type is LeftMark) && !(join_type is RightMark),
        left.len() <= new_left.len() && new_left.take(left.len() as int) == left,
        right.len() <= new_right.len() && new_right.take(right.len() as int) == right,
        projection matches Some(p) ==> projection_fits(
            p,
            combined(join_type, left, right).len() as int,
        ),
        fit_usize(
            kept_positions(
                join_type,
                projection,
                left.len() as int,
                new_left.len() as int,
                right.len() as int,
            ),
        ),
    ensures
        ({
            let positions = as_usize(
                kept_positions(
                    join_type,
                    projection,
                    left.len() as int,
                    new_left.len() as int,
                    right.len() as int,
                ),
            );
            let all = combined(join_type, left, right);
            let new_all = combined(join_type, new_left, new_right);
            &&& projection_fits(positions, new_all.len() as int)
            &&& positions.map_values(|i: usize| new_all[i as int]) == match projection {
                Some(p) => p.map_values(|i: usize| all[i as int]),
                None => all,
            }
        }),
{
    let kept = kept_positions(
        join_type,
        projection,
        left.len() as int,
        new_left.len() as int,
        right.len() as int,
    );
    let positions = as_usize(kept);
    let all = combined(join_type, left, right);
    let new_all = combined(join_type, new_left, new_right);
    assert forall|i: int| 0 <= i < left.len() implies #[trigger] new_left[i] == left[i] by {
        assert(new_left.take(left.len() as int)[i] == left[i]);
    }
    assert forall|i: int| 0 <= i < right.len() implies #[trigger] new_right[i] == right[i] by {
        assert(new_right.take(right.len() as int)[i] == right[i]);
    }
    assert forall|i: int| 0 <= i < positions.len() implies positions[i] == #[trigger] kept[i] by {
        assert(kept[i] <= usize::MAX);
    }
    match projection {
        Some(p) => {
            assert forall|i: int| 0 <= i < p.len() implies positions[i] < new_all.len()
                && new_all[positions[i] as int] == all[(#[trigger] p[i]) as int] by {
                assert(positions[i] == kept[i]);
                assert(p[i] < all.len());
            }
            assert forall|i: int| 0 <= i < positions.len() implies #[trigger] positions[i]
                < new_all.len() by {
                assert(p[i] < all.len());
            }
            assert(positions.map_values(|i: usize| new_all[i as int]) =~= p.map_values(
                |i: usize| all[i as int],
            ));
        },
        None => {
            assert forall|i: int| 0 <= i < positions.len() implies #[trigger] positions[i]
                < new_all.len() && new_all[positions[i] as int] == all[i] by {
                assert(positions[i] == kept[i]);
            }
            assert(positions.map_values(|i: usize| new_all[i as int]) =~= all);
        },
    }
}

/// The push-down keeps a join well formed, and keeps the number of its columns.
pub proof fn lemma_push_down_join(
    join: NestedLoopJoinView,
    left: PlanView,
    right: PlanView,
    id: usize,
)
    requires
        left.well_formed(),
        right.well_formed(),
        join.fits(left.fields(), right.fields()),
        push_down_join(join, left, right, id) matches Ok(new) && new is Some,
    ensures
        ({
            let plan = push_down_join(join, left, right, id)->Ok_0->0;
            &&& plan.well_formed()
            &&& plan.fields().len() == join.fields(left.fields(), right.fields()).len()
        }),
{
    let filter = join.filter->0;
    let pushed_left = push_left(filter, left, right, id);
    let pushed_right = push_right(filter, left, right, id);
    lemma_push_side(JoinSide::Left, left, right.fields(), filter, id);
    lemma_push_side(
        JoinSide::Right,
        right,
        pushed_left.plan.fields(),
        pushed_left.filter,
        id_after(id, pushed_left.count),
    );
    lemma_minimized_fits(
        pushed_right.filter.expression,
        pushed_right.filter.column_indices,
        pushed_left.plan.fields(),
        pushed_right.plan.fields(),
    );
    lemma_kept_columns(
        join.join_type,
        join.projection,
        left.fields(),
        right.fields(),
        pushed_left.plan.fields(),
        pushed_right.plan.fields(),
    );
}

/// The plan with parts of the filters of its joins pushed down, from the bottom up and from left
/// to right, and the number of the next alias afterwards.
pub open spec fn push_down_joins(
    plan: PlanView,
    id: usize,
) -> (Result<PlanView, PlanError>, usize)
    decreases plan, 0nat,
{
    match plan {
        PlanView::NestedLoopJoin { operator, join, left, right } => {
            let (new_left, left_id) = push_down_joins(*left, id);
            let (new_right, right_id) = push_down_joins(*right, left_id);
            match (new_left, new_right) {
                (Err(error), _) => (Err(error), left_id),
                (Ok(_), Err(error)) => (Err(error), right_id),
                (Ok(new_left), Ok(new_right)) => {
                    let count = push_count(join, new_left, new_right, right_id);
                    match push_down_join(join, new_left, new_right, right_id) {
                        Err(error) => (Err(error), right_id),
                        Ok(None) => (
                            Ok(
                                PlanView::NestedLoopJoin {
                                    operator,
                                    join,
                                    left: Box::new(new_left),
                                    right: Box::new(new_right),
                                },
                            ),
                            right_id,
                        ),
                        Ok(Some(new)) => (Ok(new), id_after(right_id, count)),
                    }
                },
            }
        },
        PlanView::Projection { operator, exprs, input } => match push_down_joins(*input, id) {
            (Err(error), id) => (Err(error), id),
            (Ok(input), id) => (
                Ok(PlanView::Projection { operator, exprs, input: Box::new(input) }),
                id,
            ),
        },
        PlanView::Aggregate { operator, aggregate, input } => match push_down_joins(*input, id) {
            (Err(error), id) => (Err(error), id),
            (Ok(input), id) => (
                Ok(PlanView::Aggregate { operator, aggregate, input: Box::new(input) }),
                id,
            ),
        },
        PlanView::Cooperative { operator, input } => match push_down_joins(*input, id) {
            (Err(error), id) => (Err(error), id),
            (Ok(input), id) => (Ok(PlanView::Cooperative { operator, input: Box::new(input) }), id),
        },
        PlanView::Repartition { operator, partitioning, input } => match push_down_joins(
            *input,
            id,
        ) {
            (Err(error), id) => (Err(error), id),
            (Ok(input), id) => (
                Ok(PlanView::Repartition { operator, partitioning, input: Box::new(input) }),
                id,
            ),
        },
        PlanView::Other { operator, schema, children } => match push_down_joins_all(children, id) {
            (Err(error), id) => (Err(error), id),
            (Ok(children), id) => (Ok(PlanView::Other { operator, schema, children }), id),
        },
    }
}

/// Several plans with parts of the filters of their joins pushed down, from left to right.
pub open spec fn push_down_joins_all(
    plans: Seq<PlanView>,
    id: usize,
) -> (Result<Seq<PlanView>, PlanError>, usize)
    decreases plans, plans.len(),
{
    if plans.len() == 0 {
        (Ok(seq![]), id)
    } else {
        match push_down_joins_all(plans.drop_last(), id) {
            (Err(error), id) => (Err(error), id),
            (Ok(before), id) => match push_down_joins(plans.last(), id) {
                (Err(error), id) => (Err(error), id),
                (Ok(plan), id) => (Ok(before.push(plan)), id),
            },
        }
    }
}

/// The push-down keeps a plan well formed, and keeps the number of its columns.
pub proof fn lemma_push_down_joins(plan: PlanView, id: usize)
    requires
        plan.well_formed(),
        push_down_joins(plan, id).0 is Ok,
    ensures
        push_down_joins(plan, id).0->Ok_0.well_formed(),
        push_down_joins(plan, id).0->Ok_0.fields().len() == plan.fields().len(),
    decreases plan, 0nat,
{
    match plan {
        PlanView::NestedLoopJoin { operator, join, left, right } => {
            let (new_left, left_id) = push_down_joins(*left, id);
            let (new_right, right_id) = push_down_joins(*right, left_id);
            lemma_push_down_joins(*left, id);
            lemma_push_down_joins(*right, left_id);
            lemma_join_fields_len(
                join.join_type,
                left.fields(),
                right.fields(),
                new_left->Ok_0.fields(),
                new_right->Ok_0.fields(),
            );
            assert(join.fits(new_left->Ok_0.fields(), new_right->Ok_0.fields()));
            if push_down_join(join, new_left->Ok_0, new_right->Ok_0, right_id)->Ok_0 is Some {
                lemma_push_down_join(join, new_left->Ok_0, new_right->Ok_0, right_id);
            }
        },
        PlanView::Projection { operator, exprs, input } => {
            lemma_push_down_joins(*input, id);
        },
        PlanView::Aggregate { operator, aggregate, input } => {
            lemma_push_down_joins(*input, id);
        },
        PlanView::Cooperative { operator, input } => {
            lemma_push_down_joins(*input, id);
        },
        PlanView::Repartition { operator, partitioning, input } => {
            lemma_push_down_joins(*input, id);
        },
        PlanView::Other { operator, schema, children } => {
            lemma_push_down_joins_all(children, id);
        },
    }
}

/// The push-down keeps several plans well formed.
pub proof fn lemma_push_down_joins_all(plans: Seq<PlanView>, id: usize)
    requires
        forall|i: int| 0 <= i < plans.len() ==> (#[trigger] plans[i]).well_formed(),
        push_down_joins_all(plans, id).0 is Ok,
    ensures
        ({
            let new = push_down_joins_all(plans, id).0->Ok_0;
            &&& new.len() == plans.len()
            &&& forall|i: int| 0 <= i < new.len() ==> (#[trigger] new[i]).well_formed()
        }),
    decreases plans, plans.len(),
{
    if plans.len() > 0 {
        assert forall|i: int| 0 <= i < plans.drop_last().len() implies (
        #[trigger] plans.drop_last()[i]).well_formed() by {
            assert(plans[i].well_formed());
        }
        assert(plans[plans.len() - 1].well_formed());
        lemma_push_down_joins_all(plans.drop_last(), id);
        lemma_push_down_joins(plans.last(), push_down_joins_all(plans.drop_last(), id).1);
    }
}

/// What it means to push parts of the filters of all joins of a plan down. A plan that was not
/// transformed is the same plan.
spec fn pushes_down_joins(
    plan: Arc<Plan>,
    id: usize,
    result: Result<Transformed<Arc<Plan>>, PlanError>,
    id_afterwards: usize,
) -> bool {
    match push_down_joins(plan@, id) {
        (Ok(new), new_id) => {
            &&& result matches Ok(t) && t.data@ == new && (!t.transformed ==> t.data == plan)
            &&& id_afterwards == new_id
        },
        (Err(error), _) => result matches Err(e) && e == error,
    }
}

/// Pushes parts of the filters of all joins of the plan down, from the bottom up and from left to
/// right.
pub fn push_down_join_filters(plan: &Arc<Plan>, aliases: &mut Aliases) -> (result: Result<
    Arc<Plan>,
    PlanError,
>)
    requires
        plan@.well_formed(),
    ensures
        match push_down_joins(plan@, old(aliases).counter()) {
            (Ok(new), id) => {
                &&& result matches Ok(new_plan) && new_plan@ == new
                &&& final(aliases).counter() == id
            },
            (Err(error), _) => result matches Err(e) && e == error,
        },
        result matches Ok(new_plan) ==> joins_pushed_down(plan@, new_plan@) && fully_pushed_down(
            new_plan@,
        ),
{
    proof {
        law_every_join_pushed_down(plan@, aliases.counter());
    }
    let new = push_down_in_plan(plan, aliases)?;
    Ok(new.data)
}

/// Pushes parts of the filters of all joins of the plan down, and tells whether there were any.
fn push_down_in_plan(plan: &Arc<Plan>, aliases: &mut Aliases) -> (result: Result<
    Transformed<Arc<Plan>>,
    PlanError,
>)
    requires
        plan@.well_formed(),
    ensures
        pushes_down_joins(*plan, old(aliases).counter(), result, final(aliases).counter()),
    decreases plan, 1nat,
{
    let new_plan = match &**plan {
        Plan::NestedLoopJoin { .. } => {
            return push_down_in_join(plan, aliases);
        },
        Plan::Projection { operator, exprs, input } => {
            let new_input = push_down_in_plan(input, aliases)?;
            if !new_input.transformed {
                return Ok(Transformed { data: Arc::clone(plan), transformed: false });
            }
            Arc::new(
                Plan::Projection {
                    operator: *operator,
                    exprs: Arc::clone(exprs),
                    input: new_input.data,
                },
            )
        },
        Plan::Aggregate { operator, aggregate, input } => {
            let new_input = push_down_in_plan(input, aliases)?;
            if !new_input.transformed {
                return Ok(Transformed { data: Arc::clone(plan), transformed: false });
            }
            Arc::new(
                Plan::Aggregate {
                    operator: *operator,
                    aggregate: Arc::clone(aggregate),
                    input: new_input.data,
                },
            )
        },
        Plan::Cooperative { operator, input } => {
            let new_input = push_down_in_plan(input, aliases)?;
            if !new_input.transformed {
                return Ok(Transformed { data: Arc::clone(plan), transformed: false });
            }
            Arc::new(Plan::Cooperative { operator: *operator, input: new_input.data })
        },
        Plan::Repartition { operator, partitioning, input } => {
            let new_input = push_down_in_plan(input, aliases)?;
            if !new_input.transformed {
                return Ok(Transformed { data: Arc::clone(plan), transformed: false });
            }
            Arc::new(
                Plan::Repartition {
                    operator: *operator,
                    partitioning: *partitioning,
                    input: new_input.data,
                },
            )
        },
        Plan::Other { operator, schema, children } => {
            let new_children = push_down_in_all(children, aliases)?;
            if !new_children.transformed {
                return Ok(Transformed { data: Arc::clone(plan), transformed: false });
            }
            Arc::new(
                Plan::Other {
                    operator: *operator,
                    schema: Arc::clone(schema),
                    children: new_children.data,
                },
            )
        },
    };
    Ok(Transformed { data: new_plan, transformed: true })
}

/// Pushes parts of the filters of all joins of a plan with a join at the top down.
fn push_down_in_join(plan: &Arc<Plan>, aliases: &mut Aliases) -> (result: Result<
    Transformed<Arc<Plan>>,
    PlanError,
>)
    requires
        plan@.well_formed(),
        **plan is NestedLoopJoin,
    ensures
        pushes_down_joins(*plan, old(aliases).counter(), result, final(aliases).counter()),
    decreases plan, 0nat,
{
    let ghost id = aliases.counter();
    if let Plan::NestedLoopJoin { operator, join, left, right } = &**plan {
        let new_left = push_down_in_plan(left, aliases)?;
        let ghost left_id = aliases.counter();
        let new_right = push_down_in_plan(right, aliases)?;
        let new_plan = if new_left.transformed || new_right.transformed {
            Arc::new(
                Plan::NestedLoopJoin {
                    operator: *operator,
                    join: Arc::clone(join),
                    left: Arc::clone(&new_left.data),
                    right: Arc::clone(&new_right.data),
                },
            )
        } else {
            Arc::clone(plan)
        };
        proof {
            lemma_push_down_joins(left@, id);
            lemma_push_down_joins(right@, left_id);
            lemma_join_fields_len(
                join.join_type,
                left@.fields(),
                right@.fields(),
                new_left.data@.fields(),
                new_right.data@.fields(),
            );
            assert(id_after(aliases.counter(), 0) == aliases.counter());
        }
        let new = try_push_down_join_filter(
            &new_plan,
            join,
            &new_left.data,
            &new_right.data,
            aliases,
        )?;
        let transformed = new.transformed || new_left.transformed || new_right.transformed;
        return Ok(Transformed { data: new.data, transformed });
    }
    Ok(Transformed { data: Arc::clone(plan), transformed: false })
}

/// Pushes parts of the filters of all joins of several plans down.
fn push_down_in_all(plans: &Vec<Arc<Plan>>, aliases: &mut Aliases) -> (result: Result<
    Transformed<Vec<Arc<Plan>>>,
    PlanError,
>)
    requires
        forall|i: int| 0 <= i < plans.len() ==> (#[trigger] plan_trees(plans@)[i]).well_formed(),
    ensures
        match push_down_joins_all(plan_trees(plans@), old(aliases).counter()) {
            (Ok(new), id) => {
                &&& result matches Ok(t) && plan_trees(t.data@) == new && (!t.transformed
                    ==> t.data@ == plans@)
                &&& final(aliases).counter() == id
            },
            (Err(error), _) => result matches Err(e) && e == error,
        },
    decreases plans, 0nat,
{
    broadcast use group_plan_trees;

    let ghost id = aliases.counter();
    let ghost all = plan_trees(plans@);
    let mut new_plans: Vec<Arc<Plan>> = Vec::new();
    let mut transformed = false;
    assert(all.take(0) =~= seq![]);
    assert(plan_trees(new_plans@) =~= seq![]);
    for i in 0..plans.len()
        invariant
            all == plan_trees(plans@),
            all.len() == plans.len(),
            forall|i: int| 0 <= i < plans.len() ==> (#[trigger] all[i]).well_formed(),
            id == old(aliases).counter(),
            push_down_joins_all(all.take(i as int), id) == (
                Ok::<Seq<PlanView>, PlanError>(plan_trees(new_plans@)),
                aliases.counter(),
            ),
            new_plans.len() == i,
            !transformed ==> new_plans@ == plans@.take(i as int),
    {
        let ghost before = new_plans@;
        proof {
            assert(all.take(i + 1).drop_last() =~= all.take(i as int));
            assert(all.take(i + 1).last() == all[i as int]);
        }
        match push_down_in_plan(&plans[i], aliases) {
            Ok(new) => {
                transformed = transformed || new.transformed;
                new_plans.push(new.data);
                assert(plan_trees(new_plans@) =~= plan_trees(before).push(new.data@));
            },
            Err(error) => {
                proof {
                    lemma_push_down_joins_all_error(all, id, i as int, error);
                }
                return Err(error);
            },
        }
    }
    assert(all.take(plans.len() as int) =~= all);
    assert(!transformed ==> new_plans@ =~= plans@);
    Ok(Transformed { data: new_plans, transformed })
}

/// The first plan that cannot be rewritten decides about the whole.
proof fn lemma_push_down_joins_all_error(
    plans: Seq<PlanView>,
    id: usize,
    i: int,
    error: PlanError,
)
    requires
        0 <= i < plans.len(),
        push_down_joins_all(plans.take(i + 1), id).0 == Err::<Seq<PlanView>, PlanError>(error),
    ensures
        push_down_joins_all(plans, id).0 == Err::<Seq<PlanView>, PlanError>(error),
    decreases plans.len(),
{
    if i + 1 == plans.len() {
        assert(plans.take(i + 1) =~= plans);
    } else {
        assert(plans.drop_last().take(i + 1) =~= plans.take(i + 1));
        lemma_push_down_joins_all_error(plans.drop_last(), id, i, error);
    }
}

} // verus!
