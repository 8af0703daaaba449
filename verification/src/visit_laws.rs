use crate::aggregate_choice_laws::{has_work, law_proposal, law_proposed_if_work, passes_rows};
use crate::aggregate_push_down::{id_after_proposal, propose, AggregateProposalView};
use crate::plan::PlanView;
use crate::rule::{all_with_replacements, plan_proposals, plans_proposals, with_replacements};
use crate::rule_laws::{advanced, law_proposals_do_not_nest};
use vstd::prelude::*;

verus! {

/// Whether a node is an aggregate that something is to be extracted out of.
pub open spec fn is_candidate(node: PlanView) -> bool {
    node matches PlanView::Aggregate { aggregate, input, .. } && has_work(aggregate, *input)
}

/// Whether a path leads to an aggregate that something is to be extracted out of.
pub open spec fn leads_to_candidate(plan: PlanView, path: Seq<int>) -> bool {
    plan.at(path) is Some && is_candidate(plan.at(path)->0)
}

/// Whether the node at a path comes before the node at another when a plan is visited from the
/// bottom up and from left to right.
pub open spec fn visited_before(path: Seq<int>, other: Seq<int>) -> bool
    decreases path.len(),
{
    if path.len() == 0 {
        false
    } else if other.len() == 0 {
        true
    } else if path[0] == other[0] {
        visited_before(path.drop_first(), other.drop_first())
    } else {
        path[0] < other[0]
    }
}

/// Whether the paths are those to the aggregates of a plan that something is to be extracted out
/// of, at any depth, each once, from the bottom up and from left to right.
pub open spec fn is_visit(plan: PlanView, paths: Seq<Seq<int>>) -> bool {
    &&& forall|path: Seq<int>|
            #![trigger paths.contains(path)]
            #![trigger leads_to_candidate(plan, path)]
            paths.contains(path) <==> leads_to_candidate(plan, path)
    &&& forall|i: int, j: int|
        0 <= i < j < paths.len() ==> visited_before(#[trigger] paths[i], #[trigger] paths[j])
}

/// The nodes that paths lead to.
pub open spec fn nodes_at(plan: PlanView, paths: Seq<Seq<int>>) -> Seq<PlanView> {
    Seq::new(paths.len(), |i: int| plan.at(paths[i])->0)
}

/// What is proposed for aggregates one after the other, with aliases numbered from `id` on, and the
/// number of the next alias afterwards.
pub open spec fn proposed_in_turn(nodes: Seq<PlanView>, id: usize) -> (
    Seq<AggregateProposalView>,
    usize,
)
    decreases nodes.len(),
{
    if nodes.len() == 0 {
        (seq![], id)
    } else {
        let (before, last_id) = proposed_in_turn(nodes.drop_last(), id);
        let aggregate = nodes.last()->aggregate;
        let input = *nodes.last()->Aggregate_input;
        (
            before.push(propose(aggregate, input, last_id)->0),
            id_after_proposal(aggregate, input, last_id),
        )
    }
}

/// Whether there is one proposal for each of the aggregates at the paths, in their order.
pub open spec fn proposed_for(
    plan: PlanView,
    paths: Seq<Seq<int>>,
    proposals: Seq<AggregateProposalView>,
) -> bool {
    &&& proposals.len() == paths.len()
    &&& forall|i: int|
        0 <= i < paths.len() ==> {
            let node = plan.at(#[trigger] paths[i])->0;
            &&& proposals[i].aggregate == node->aggregate
            &&& proposals[i].input == *node->Aggregate_input
        }
}

/// Whether a node is, or stands below, an aggregate that something is to be extracted out of.
pub open spec fn below_candidate(plan: PlanView, path: Seq<int>) -> bool
    decreases path.len(),
{
    ||| is_candidate(plan)
    ||| path.len() > 0 && below_candidate(plan.inputs()[path[0]], path.drop_first())
}

/// What stands for a node after it was given the replacement at a position: the replacement if
/// there is one, and else the node.
pub open spec fn replaced_by(
    node: Option<PlanView>,
    replacements: Seq<Option<PlanView>>,
    position: int,
) -> Option<PlanView> {
    if position < replacements.len() && replacements[position] is Some {
        replacements[position]
    } else {
        node
    }
}

/// Whether the nodes at the paths were given the replacements from position `k` on, one after the
/// other, and all nodes that are not below one of them are as they were.
pub open spec fn placed(
    plan: PlanView,
    new: PlanView,
    paths: Seq<Seq<int>>,
    replacements: Seq<Option<PlanView>>,
    k: nat,
) -> bool {
    &&& forall|i: int|
        0 <= i < paths.len() ==> new.at(#[trigger] paths[i]) == replaced_by(
            plan.at(paths[i]),
            replacements,
            k + i,
        )
    &&& forall|path: Seq<int>|
        (#[trigger] plan.at(path)) is Some && !below_candidate(plan, path) ==> new.at(path) is Some
            && plan.at(path)->0.same_node(new.at(path)->0)
}

spec fn prefixed(paths: Seq<Seq<int>>, i: int) -> Seq<Seq<int>> {
    Seq::new(paths.len(), |j: int| seq![i] + paths[j])
}

spec fn visited(plan: PlanView) -> Seq<Seq<int>>
    decreases plan, 0nat,
{
    match plan {
        PlanView::NestedLoopJoin { left, right, .. } => prefixed(visited(*left), 0) + prefixed(
            visited(*right),
            1,
        ),
        PlanView::Projection { input, .. } => prefixed(visited(*input), 0),
        PlanView::Aggregate { aggregate, input, .. } => {
            let below = prefixed(visited(*input), 0);
            if has_work(aggregate, *input) {
                below.push(seq![])
            } else {
                below
            }
        },
        PlanView::Cooperative { input, .. } => prefixed(visited(*input), 0),
        PlanView::Repartition { input, .. } => prefixed(visited(*input), 0),
        PlanView::Other { children, .. } => visited_all(children),
    }
}

spec fn visited_all(plans: Seq<PlanView>) -> Seq<Seq<int>>
    decreases plans, plans.len(),
{
    if plans.len() == 0 {
        seq![]
    } else {
        visited_all(plans.drop_last()) + prefixed(visited(plans.last()), plans.len() - 1)
    }
}

spec fn in_list(plans: Seq<PlanView>, path: Seq<int>) -> bool {
    path.len() > 0 && 0 <= path[0] < plans.len()
}

spec fn leads_to_candidate_in(plans: Seq<PlanView>, path: Seq<int>) -> bool {
    in_list(plans, path) && leads_to_candidate(plans[path[0]], path.drop_first())
}

spec fn is_visit_all(plans: Seq<PlanView>, paths: Seq<Seq<int>>) -> bool {
    &&& forall|path: Seq<int>|
            #![trigger paths.contains(path)]
            #![trigger leads_to_candidate_in(plans, path)]
            paths.contains(path) <==> leads_to_candidate_in(plans, path)
    &&& forall|i: int, j: int|
        0 <= i < j < paths.len() ==> visited_before(#[trigger] paths[i], #[trigger] paths[j])
}

proof fn lemma_prefix(i: int, path: Seq<int>)
    ensures
        (seq![i] + path).drop_first() == path,
        (seq![i] + path)[0] == i,
{
    assert((seq![i] + path).drop_first() =~= path);
}

proof fn lemma_visit_append(
    plans: Seq<PlanView>,
    before: Seq<Seq<int>>,
    paths: Seq<Seq<int>>,
)
    requires
        plans.len() > 0,
        is_visit_all(plans.drop_last(), before),
        is_visit(plans.last(), paths),
    ensures
        is_visit_all(plans, before + prefixed(paths, plans.len() - 1)),
{
    let n = plans.len() - 1;
    let rest = plans.drop_last();
    let last = prefixed(paths, n);
    let all = before + last;
    assert forall|path: Seq<int>|
            #![trigger all.contains(path)]
            #![trigger leads_to_candidate_in(plans, path)]
            all.contains(path) <==> leads_to_candidate_in(plans, path) by {
        if all.contains(path) {
            let i = choose|i: int| 0 <= i < all.len() && all[i] == path;
            if i < before.len() {
                assert(before[i] == path);
                assert(before.contains(path));
                assert(leads_to_candidate_in(rest, path));
            } else {
                let j = i - before.len();
                lemma_prefix(n, paths[j]);
                assert(paths.contains(paths[j]));
                assert(leads_to_candidate(plans.last(), paths[j]));
            }
        }
        if leads_to_candidate_in(plans, path) {
            if path[0] < n {
                assert(leads_to_candidate_in(rest, path));
                assert(before.contains(path));
                let i = choose|i: int| 0 <= i < before.len() && before[i] == path;
                assert(all[i] == path);
            } else {
                let shorter = path.drop_first();
                assert(leads_to_candidate(plans.last(), shorter));
                assert(paths.contains(shorter));
                let j = choose|j: int| 0 <= j < paths.len() && paths[j] == shorter;
                assert(path =~= seq![n] + shorter);
                assert(all[before.len() + j] == path);
            }
        }
    }
    assert forall|i: int, j: int| 0 <= i < j < all.len() implies visited_before(
        #[trigger] all[i],
        #[trigger] all[j],
    ) by {
        if j < before.len() {
            assert(visited_before(before[i], before[j]));
        } else {
            lemma_prefix(n, paths[j - before.len()]);
            if i < before.len() {
                assert(before.contains(before[i]));
                assert(leads_to_candidate_in(rest, before[i]));
            } else {
                lemma_prefix(n, paths[i - before.len()]);
                assert(visited_before(paths[i - before.len()], paths[j - before.len()]));
            }
        }
    }
}

proof fn lemma_visit_top(plan: PlanView, below: Seq<Seq<int>>)
    requires
        is_visit_all(plan.inputs(), below),
    ensures
        is_visit(
            plan,
            if is_candidate(plan) {
                below.push(seq![])
            } else {
                below
            },
        ),
{
    let paths = if is_candidate(plan) {
        below.push(seq![])
    } else {
        below
    };
    assert forall|path: Seq<int>|
            #![trigger paths.contains(path)]
            #![trigger leads_to_candidate(plan, path)]
            paths.contains(path) <==> leads_to_candidate(plan, path) by {
        if paths.contains(path) {
            let i = choose|i: int| 0 <= i < paths.len() && paths[i] == path;
            if i < below.len() {
                assert(below[i] == path);
                assert(below.contains(path));
                assert(leads_to_candidate_in(plan.inputs(), path));
            }
        }
        if leads_to_candidate(plan, path) {
            if path.len() == 0 {
                assert(path =~= seq![]);
                assert(paths[paths.len() - 1] == path);
            } else {
                assert(leads_to_candidate_in(plan.inputs(), path));
                assert(below.contains(path));
                let i = choose|i: int| 0 <= i < below.len() && below[i] == path;
                assert(paths[i] == path);
            }
        }
    }
    assert forall|i: int, j: int| 0 <= i < j < paths.len() implies visited_before(
        #[trigger] paths[i],
        #[trigger] paths[j],
    ) by {
        assert(below.contains(below[i]));
        assert(leads_to_candidate_in(plan.inputs(), below[i]));
        if j < below.len() {
            assert(visited_before(below[i], below[j]));
        }
    }
}

proof fn lemma_visit_one(plan: PlanView, input: PlanView)
    requires
        plan.inputs() =~= seq![input],
        is_visit(input, visited(input)),
    ensures
        is_visit_all(plan.inputs(), prefixed(visited(input), 0)),
{
    let none = Seq::<Seq<int>>::empty();
    assert(plan.inputs().drop_last() =~= seq![]);
    assert(is_visit_all(plan.inputs().drop_last(), none));
    lemma_visit_append(plan.inputs(), none, visited(input));
    assert(none + prefixed(visited(input), 0) =~= prefixed(visited(input), 0));
}

proof fn lemma_visited(plan: PlanView)
    ensures
        is_visit(plan, visited(plan)),
    decreases plan, 0nat,
{
    match plan {
        PlanView::NestedLoopJoin { left, right, .. } => {
            let none = Seq::<Seq<int>>::empty();
            let from_left = prefixed(visited(*left), 0);
            let plans = plan.inputs();
            lemma_visited(*left);
            lemma_visited(*right);
            assert(plans.drop_last() =~= seq![*left]);
            assert(plans.drop_last().drop_last() =~= seq![]);
            assert(is_visit_all(plans.drop_last().drop_last(), none));
            lemma_visit_append(plans.drop_last(), none, visited(*left));
            assert(none + from_left =~= from_left);
            lemma_visit_append(plans, from_left, visited(*right));
            lemma_visit_top(plan, visited(plan));
        },
        PlanView::Projection { input, .. } => {
            lemma_visited(*input);
            lemma_visit_one(plan, *input);
            lemma_visit_top(plan, visited(plan));
        },
        PlanView::Aggregate { aggregate, input, .. } => {
            lemma_visited(*input);
            lemma_visit_one(plan, *input);
            lemma_visit_top(plan, prefixed(visited(*input), 0));
        },
        PlanView::Cooperative { input, .. } => {
            lemma_visited(*input);
            lemma_visit_one(plan, *input);
            lemma_visit_top(plan, visited(plan));
        },
        PlanView::Repartition { input, .. } => {
            lemma_visited(*input);
            lemma_visit_one(plan, *input);
            lemma_visit_top(plan, visited(plan));
        },
        PlanView::Other { children, .. } => {
            lemma_visited_all(children);
            lemma_visit_top(plan, visited(plan));
        },
    }
}

proof fn lemma_visited_all(plans: Seq<PlanView>)
    ensures
        is_visit_all(plans, visited_all(plans)),
    decreases plans, plans.len(),
{
    if plans.len() > 0 {
        lemma_visited_all(plans.drop_last());
        lemma_visited(plans.last());
        lemma_visit_append(plans, visited_all(plans.drop_last()), visited(plans.last()));
    }
}

proof fn lemma_proposed_add(left: Seq<PlanView>, right: Seq<PlanView>, id: usize)
    ensures
        proposed_in_turn(left + right, id) == ({
            let (from_left, left_id) = proposed_in_turn(left, id);
            let (from_right, right_id) = proposed_in_turn(right, left_id);
            (from_left + from_right, right_id)
        }),
    decreases right.len(),
{
    let (from_left, left_id) = proposed_in_turn(left, id);
    let from_right = proposed_in_turn(right, left_id).0;
    if right.len() == 0 {
        assert(left + right =~= left);
        assert(from_left + from_right =~= from_left);
    } else {
        let rest = right.drop_last();
        lemma_proposed_add(left, rest, id);
        assert((left + right).drop_last() =~= left + rest);
        assert((left + right).last() == right.last());
        assert(proposed_in_turn(left + right, id).0 =~= from_left + from_right);
    }
}

proof fn lemma_nodes_prefixed(plan: PlanView, i: int, paths: Seq<Seq<int>>)
    requires
        0 <= i < plan.inputs().len(),
    ensures
        nodes_at(plan, prefixed(paths, i)) == nodes_at(plan.inputs()[i], paths),
{
    assert forall|j: int| 0 <= j < paths.len() implies #[trigger] nodes_at(
        plan,
        prefixed(paths, i),
    )[j] == nodes_at(plan.inputs()[i], paths)[j] by {
        lemma_prefix(i, paths[j]);
    }
    assert(nodes_at(plan, prefixed(paths, i)) =~= nodes_at(plan.inputs()[i], paths));
}

proof fn lemma_visit_proposals(plan: PlanView, id: usize)
    ensures
        plan_proposals(plan, id) == proposed_in_turn(nodes_at(plan, visited(plan)), id),
    decreases plan, 0nat,
{
    match plan {
        PlanView::NestedLoopJoin { left, right, .. } => {
            let from_left = nodes_at(*left, visited(*left));
            let from_right = nodes_at(*right, visited(*right));
            lemma_visit_proposals(*left, id);
            lemma_visit_proposals(*right, plan_proposals(*left, id).1);
            lemma_nodes_prefixed(plan, 0, visited(*left));
            lemma_nodes_prefixed(plan, 1, visited(*right));
            assert(nodes_at(plan, visited(plan)) =~= nodes_at(plan, prefixed(visited(*left), 0))
                + nodes_at(plan, prefixed(visited(*right), 1)));
            lemma_proposed_add(from_left, from_right, id);
        },
        PlanView::Projection { input, .. } => {
            lemma_visit_proposals(*input, id);
            lemma_nodes_prefixed(plan, 0, visited(*input));
        },
        PlanView::Aggregate { aggregate, input, .. } => {
            let below = prefixed(visited(*input), 0);
            lemma_visit_proposals(*input, id);
            lemma_nodes_prefixed(plan, 0, visited(*input));
            law_proposed_if_work(aggregate, *input, plan_proposals(*input, id).1);
            if has_work(aggregate, *input) {
                let nodes = nodes_at(plan, visited(plan));
                assert(visited(plan).last() =~= seq![]);
                assert(nodes.last() == plan);
                assert(nodes.drop_last() =~= nodes_at(plan, below));
            }
        },
        PlanView::Cooperative { input, .. } => {
            lemma_visit_proposals(*input, id);
            lemma_nodes_prefixed(plan, 0, visited(*input));
        },
        PlanView::Repartition { input, .. } => {
            lemma_visit_proposals(*input, id);
            lemma_nodes_prefixed(plan, 0, visited(*input));
        },
        PlanView::Other { operator, schema, children } => {
            assert(children.take(children.len() as int) =~= children);
            lemma_visit_all_proposals(plan, children, id);
        },
    }
}

proof fn lemma_visit_all_proposals(plan: PlanView, plans: Seq<PlanView>, id: usize)
    requires
        plans.len() <= plan.inputs().len(),
        plans == plan.inputs().take(plans.len() as int),
    ensures
        plans_proposals(plans, id) == proposed_in_turn(nodes_at(plan, visited_all(plans)), id),
    decreases plans, plans.len(),
{
    if plans.len() > 0 {
        let rest = plans.drop_last();
        let n = plans.len() - 1;
        let last = prefixed(visited(plans.last()), n);
        assert(rest =~= plan.inputs().take(rest.len() as int));
        lemma_visit_all_proposals(plan, rest, id);
        lemma_visit_proposals(plans.last(), plans_proposals(rest, id).1);
        lemma_nodes_prefixed(plan, n, visited(plans.last()));
        assert(nodes_at(plan, visited_all(plans)) =~= nodes_at(plan, visited_all(rest)) + nodes_at(
            plan,
            last,
        ));
        lemma_proposed_add(nodes_at(plan, visited_all(rest)), nodes_at(plan, last), id);
    }
}

spec fn placed_all(
    plans: Seq<PlanView>,
    new: Seq<PlanView>,
    paths: Seq<Seq<int>>,
    replacements: Seq<Option<PlanView>>,
    k: nat,
) -> bool {
    &&& new.len() == plans.len()
    &&& forall|i: int|
        0 <= i < paths.len() ==> {
            let path = #[trigger] paths[i];
            &&& in_list(plans, path)
            &&& new[path[0]].at(path.drop_first()) == replaced_by(
                plans[path[0]].at(path.drop_first()),
                replacements,
                k + i,
            )
        }
    &&& forall|n: int, path: Seq<int>|
        0 <= n < plans.len() && (#[trigger] plans[n].at(path)) is Some && !below_candidate(
            plans[n],
            path,
        ) ==> new[n].at(path) is Some && plans[n].at(path)->0.same_node(new[n].at(path)->0)
}

proof fn lemma_placed_append(
    plans: Seq<PlanView>,
    new: Seq<PlanView>,
    before: Seq<Seq<int>>,
    paths: Seq<Seq<int>>,
    replacements: Seq<Option<PlanView>>,
    k: nat,
)
    requires
        plans.len() > 0,
        new.len() == plans.len(),
        placed_all(plans.drop_last(), new.drop_last(), before, replacements, k),
        placed(
            plans.last(),
            new.last(),
            paths,
            replacements,
            advanced(k, before.len(), replacements.len()),
        ),
    ensures
        placed_all(plans, new, before + prefixed(paths, plans.len() - 1), replacements, k),
{
    let n = plans.len() - 1;
    let last = prefixed(paths, n);
    let all = before + last;
    let rest = plans.drop_last();
    assert forall|i: int| 0 <= i < all.len() implies {
        let path = #[trigger] all[i];
        &&& in_list(plans, path)
        &&& new[path[0]].at(path.drop_first()) == replaced_by(
            plans[path[0]].at(path.drop_first()),
            replacements,
            k + i,
        )
    } by {
        if i < before.len() {
            assert(in_list(rest, before[i]));
            assert(rest[before[i][0]] == plans[before[i][0]]);
            assert(new.drop_last()[before[i][0]] == new[before[i][0]]);
        } else {
            let j = i - before.len();
            lemma_prefix(n, paths[j]);
            assert(new.last().at(paths[j]) == replaced_by(
                plans.last().at(paths[j]),
                replacements,
                advanced(k, before.len(), replacements.len()) + j,
            ));
        }
    }
    assert forall|m: int, path: Seq<int>|
        0 <= m < plans.len() && (#[trigger] plans[m].at(path)) is Some && !below_candidate(
            plans[m],
            path,
        ) implies new[m].at(path) is Some && plans[m].at(path)->0.same_node(
        new[m].at(path)->0,
    ) by {
        if m < n {
            assert(rest[m].at(path) is Some);
            assert(new.drop_last()[m] == new[m]);
        } else {
            assert(plans.last().at(path) is Some);
        }
    }
}

proof fn lemma_placed_top(
    plan: PlanView,
    new: PlanView,
    paths: Seq<Seq<int>>,
    replacements: Seq<Option<PlanView>>,
    k: nat,
)
    requires
        plan.same_node(new),
        placed_all(plan.inputs(), new.inputs(), paths, replacements, k),
    ensures
        placed(plan, new, paths, replacements, k),
{
    let plans = plan.inputs();
    assert forall|i: int| 0 <= i < paths.len() implies new.at(#[trigger] paths[i]) == replaced_by(
        plan.at(paths[i]),
        replacements,
        k + i,
    ) by {
        assert(in_list(plans, paths[i]));
    }
    assert forall|path: Seq<int>|
        (#[trigger] plan.at(path)) is Some && !below_candidate(plan, path) implies new.at(
        path,
    ) is Some && plan.at(path)->0.same_node(new.at(path)->0) by {
        if path.len() > 0 {
            assert(plans[path[0]].at(path.drop_first()) is Some);
        }
    }
}

proof fn lemma_placed_one(
    plan: PlanView,
    new: PlanView,
    input: PlanView,
    replacements: Seq<Option<PlanView>>,
    k: nat,
)
    requires
        k <= replacements.len(),
        plan.same_node(new),
        plan.inputs() =~= seq![input],
        new.inputs() =~= seq![with_replacements(input, replacements, k).0],
        placed(
            input,
            with_replacements(input, replacements, k).0,
            visited(input),
            replacements,
            k,
        ),
    ensures
        placed(plan, new, prefixed(visited(input), 0), replacements, k),
{
    let none = Seq::<Seq<int>>::empty();
    assert(plan.inputs().drop_last() =~= seq![]);
    assert(placed_all(plan.inputs().drop_last(), new.inputs().drop_last(), none, replacements, k));
    lemma_placed_append(plan.inputs(), new.inputs(), none, visited(input), replacements, k);
    assert(none + prefixed(visited(input), 0) =~= prefixed(visited(input), 0));
    lemma_placed_top(plan, new, prefixed(visited(input), 0), replacements, k);
}

proof fn lemma_placed(plan: PlanView, replacements: Seq<Option<PlanView>>, k: nat)
    requires
        k <= replacements.len(),
    ensures
        placed(
            plan,
            with_replacements(plan, replacements, k).0,
            visited(plan),
            replacements,
            k,
        ),
        with_replacements(plan, replacements, k).1 == advanced(
            k,
            visited(plan).len(),
            replacements.len(),
        ),
    decreases plan, 0nat,
{
    let new = with_replacements(plan, replacements, k).0;
    match plan {
        PlanView::NestedLoopJoin { left, right, .. } => {
            let none = Seq::<Seq<int>>::empty();
            let from_left = prefixed(visited(*left), 0);
            let plans = plan.inputs();
            let left_k = with_replacements(*left, replacements, k).1;
            lemma_placed(*left, replacements, k);
            lemma_placed(*right, replacements, left_k);
            assert(plans.drop_last() =~= seq![*left]);
            assert(plans.drop_last().drop_last() =~= seq![]);
            assert(placed_all(
                plans.drop_last().drop_last(),
                new.inputs().drop_last().drop_last(),
                none,
                replacements,
                k,
            ));
            lemma_placed_append(
                plans.drop_last(),
                new.inputs().drop_last(),
                none,
                visited(*left),
                replacements,
                k,
            );
            assert(none + from_left =~= from_left);
            lemma_placed_append(plans, new.inputs(), from_left, visited(*right), replacements, k);
            lemma_placed_top(plan, new, visited(plan), replacements, k);
        },
        PlanView::Projection { input, .. } => {
            lemma_placed(*input, replacements, k);
            lemma_placed_one(plan, new, *input, replacements, k);
        },
        PlanView::Aggregate { aggregate, input, .. } => {
            law_proposed_if_work(aggregate, *input, 0);
            lemma_placed(*input, replacements, k);
            if has_work(aggregate, *input) {
                law_proposals_do_not_nest(aggregate, *input, 0, replacements, k);
                lemma_nothing_below(*input);
                assert(visited(plan) =~= seq![seq![]]);
                assert(new == replaced_by(Some(plan), replacements, k as int)->0);
            } else {
                lemma_placed_one(plan, new, *input, replacements, k);
            }
        },
        PlanView::Cooperative { input, .. } => {
            lemma_placed(*input, replacements, k);
            lemma_placed_one(plan, new, *input, replacements, k);
        },
        PlanView::Repartition { input, .. } => {
            lemma_placed(*input, replacements, k);
            lemma_placed_one(plan, new, *input, replacements, k);
        },
        PlanView::Other { children, .. } => {
            lemma_placed_all(children, replacements, k);
            lemma_placed_top(plan, new, visited(plan), replacements, k);
        },
    }
}

proof fn lemma_nothing_below(input: PlanView)
    requires
        input.everywhere(|node: PlanView| passes_rows(node)),
    ensures
        visited(input).len() == 0,
{
    lemma_visited(input);
    if visited(input).len() > 0 {
        let path = visited(input)[0];
        assert(visited(input).contains(path));
        assert(leads_to_candidate(input, path));
        assert(passes_rows(input.at(path)->0));
    }
}

proof fn lemma_placed_all(plans: Seq<PlanView>, replacements: Seq<Option<PlanView>>, k: nat)
    requires
        k <= replacements.len(),
    ensures
        placed_all(
            plans,
            all_with_replacements(plans, replacements, k).0,
            visited_all(plans),
            replacements,
            k,
        ),
        all_with_replacements(plans, replacements, k).1 == advanced(
            k,
            visited_all(plans).len(),
            replacements.len(),
        ),
    decreases plans, plans.len(),
{
    if plans.len() > 0 {
        let new = all_with_replacements(plans, replacements, k).0;
        let rest = plans.drop_last();
        let (new_rest, last_k) = all_with_replacements(rest, replacements, k);
        lemma_placed_all(rest, replacements, k);
        lemma_placed(plans.last(), replacements, last_k);
        assert(new.drop_last() =~= new_rest);
        lemma_placed_append(
            plans,
            new,
            visited_all(rest),
            visited(plans.last()),
            replacements,
            k,
        );
    }
}

/// There is one proposal for every aggregate that something is to be extracted out of, wherever it
/// stands in the plan, and none for any other node. The proposals come in the order in which the
/// plan is visited from the bottom up and from left to right, with aliases numbered on from one to
/// the next.
pub proof fn law_every_aggregate_proposed(plan: PlanView, id: usize) -> (paths: Seq<Seq<int>>)
    ensures
        is_visit(plan, paths),
        proposed_for(plan, paths, plan_proposals(plan, id).0),
        plan_proposals(plan, id) == proposed_in_turn(nodes_at(plan, paths), id),
{
    let paths = visited(plan);
    lemma_visited(plan);
    lemma_visit_proposals(plan, id);
    let nodes = nodes_at(plan, paths);
    assert forall|i: int| 0 <= i < nodes.len() implies is_candidate(#[trigger] nodes[i]) by {
        assert(paths.contains(paths[i]));
        assert(leads_to_candidate(plan, paths[i]));
    }
    lemma_proposed_nodes(nodes, id);
    let proposals = plan_proposals(plan, id).0;
    assert forall|i: int| 0 <= i < paths.len() implies {
        let node = plan.at(#[trigger] paths[i])->0;
        &&& proposals[i].aggregate == node->aggregate
        &&& proposals[i].input == *node->Aggregate_input
    } by {
        assert(nodes[i] == plan.at(paths[i])->0);
    }
    paths
}

proof fn lemma_proposed_nodes(nodes: Seq<PlanView>, id: usize)
    requires
        forall|i: int| 0 <= i < nodes.len() ==> is_candidate(#[trigger] nodes[i]),
    ensures
        proposed_in_turn(nodes, id).0.len() == nodes.len(),
        forall|i: int|
            0 <= i < nodes.len() ==> {
                let proposal = proposed_in_turn(nodes, id).0[i];
                &&& proposal.aggregate == (#[trigger] nodes[i])->aggregate
                &&& proposal.input == *nodes[i]->Aggregate_input
            },
    decreases nodes.len(),
{
    if nodes.len() > 0 {
        let rest = nodes.drop_last();
        let last = nodes[nodes.len() - 1];
        let last_id = proposed_in_turn(rest, id).1;
        assert forall|i: int| 0 <= i < rest.len() implies is_candidate(#[trigger] rest[i]) by {
            assert(is_candidate(nodes[i]));
        }
        lemma_proposed_nodes(rest, id);
        assert(is_candidate(last));
        law_proposed_if_work(last->aggregate, *last->Aggregate_input, last_id);
        law_proposal(last->aggregate, *last->Aggregate_input, last_id);
        assert forall|i: int| 0 <= i < nodes.len() implies {
            let proposal = proposed_in_turn(nodes, id).0[i];
            &&& proposal.aggregate == (#[trigger] nodes[i])->aggregate
            &&& proposal.input == *nodes[i]->Aggregate_input
        } by {
            if i < rest.len() {
                assert(rest[i] == nodes[i]);
            }
        }
    }
}

/// Carrying out proposals puts each replacement in the place of the aggregate that the proposal was
/// for, wherever it stands in the plan: the first replacement in the place of the first of these
/// aggregates, and so on. All other nodes stay where and as they are.
pub proof fn law_every_replacement_placed(
    plan: PlanView,
    replacements: Seq<Option<PlanView>>,
    paths: Seq<Seq<int>>,
)
    requires
        is_visit(plan, paths),
    ensures
        placed(plan, with_replacements(plan, replacements, 0).0, paths, replacements, 0),
{
    lemma_visited(plan);
    lemma_placed(plan, replacements, 0);
    lemma_visit_unique(plan, paths, visited(plan));
}

proof fn lemma_before_asymmetric(path: Seq<int>, other: Seq<int>)
    requires
        visited_before(path, other),
    ensures
        !visited_before(other, path),
        path != other,
    decreases path.len(),
{
    if path.len() > 0 && other.len() > 0 && path[0] == other[0] {
        lemma_before_asymmetric(path.drop_first(), other.drop_first());
    }
}

proof fn lemma_visit_unique(plan: PlanView, paths: Seq<Seq<int>>, other: Seq<Seq<int>>)
    requires
        is_visit(plan, paths),
        is_visit(plan, other),
    ensures
        paths == other,
{
    lemma_same_order(paths, other);
}

proof fn lemma_same_order(paths: Seq<Seq<int>>, other: Seq<Seq<int>>)
    requires
        forall|path: Seq<int>|
            #![trigger paths.contains(path)]
            #![trigger other.contains(path)]
            paths.contains(path) <==> other.contains(path),
        forall|i: int, j: int|
            0 <= i < j < paths.len() ==> visited_before(#[trigger] paths[i], #[trigger] paths[j]),
        forall|i: int, j: int|
            0 <= i < j < other.len() ==> visited_before(#[trigger] other[i], #[trigger] other[j]),
    ensures
        paths == other,
    decreases paths.len(),
{
    if paths.len() == 0 {
        if other.len() > 0 {
            assert(other.contains(other[0]));
            assert(paths.contains(other[0]));
        }
        assert(paths =~= other);
    } else {
        let last = paths[paths.len() - 1];
        assert(paths.contains(last));
        assert(other.contains(last));
        let other_last = other[other.len() - 1];
        assert(other.contains(other_last));
        assert(paths.contains(other_last));
        let i = choose|i: int| 0 <= i < paths.len() && paths[i] == other_last;
        let j = choose|j: int| 0 <= j < other.len() && other[j] == last;
        if i < paths.len() - 1 {
            assert(visited_before(other_last, last));
            lemma_before_asymmetric(other_last, last);
            if j < other.len() - 1 {
                assert(visited_before(last, other_last));
            }
        }
        assert(last == other_last);
        let rest = paths.drop_last();
        let other_rest = other.drop_last();
        assert forall|path: Seq<int>|
            #![trigger rest.contains(path)]
            #![trigger other_rest.contains(path)]
            rest.contains(path) <==> other_rest.contains(path) by {
            if rest.contains(path) {
                let m = choose|m: int| 0 <= m < rest.len() && rest[m] == path;
                assert(paths[m] == path);
                assert(paths.contains(path));
                assert(visited_before(path, last));
                lemma_before_asymmetric(path, last);
                let n = choose|n: int| 0 <= n < other.len() && other[n] == path;
                assert(other_rest[n] == path);
            }
            if other_rest.contains(path) {
                let m = choose|m: int| 0 <= m < other_rest.len() && other_rest[m] == path;
                assert(other[m] == path);
                assert(other.contains(path));
                assert(visited_before(path, last));
                lemma_before_asymmetric(path, last);
                let n = choose|n: int| 0 <= n < paths.len() && paths[n] == path;
                assert(rest[n] == path);
            }
        }
        lemma_same_order(rest, other_rest);
        assert(paths =~= rest.push(last));
        assert(other =~= other_rest.push(last));
    }
}

} // verus!
