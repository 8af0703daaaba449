use crate::aggregate::{AggregateExprView, AggregateView, AggregationView};
use crate::aggregate_choice_laws::{exprs_from, leads_inside, lemma_with_distinct};
use crate::aggregate_laws::law_kept_columns_in_order;
use crate::aggregate_push_down::{
    all_call_exprs, column_exprs, evaluated, extracted, inserted, lemma_sorted_len, present,
    propose, remaining, remaining_all, sort_exprs, sorted, still_needed, with_distinct,
};
use crate::expr::{ColumnView, ExprView};
use crate::plan::PlanView;
use vstd::prelude::*;

verus! {

/// Where a column stands in an aggregation: in which call, where -1 is for the group by keys and
/// the number of calls for the filters; whether in its arguments, 0, or in its sort keys, 1; in
/// which of these; and where in that expression.
pub struct ColumnPlace {
    pub call: int,
    pub kind: int,
    pub j: int,
    pub path: Seq<int>,
}

/// Whether an aggregation evaluates an expression at a place.
pub open spec fn evaluates_at(aggregation: AggregationView, call: int, kind: int, j: int) -> bool {
    if call == -1 {
        kind == 0 && 0 <= j < aggregation.group_by.len()
    } else if call == aggregation.aggr_exprs.len() {
        kind == 0 && 0 <= j < aggregation.filters.len() && aggregation.filters[j] is Some
    } else {
        0 <= call < aggregation.aggr_exprs.len() && (kind == 0 && 0 <= j
            < aggregation.aggr_exprs[call].args.len() || kind == 1 && 0 <= j
            < aggregation.aggr_exprs[call].order_bys.len())
    }
}

/// The expression that an aggregation evaluates at a place.
pub open spec fn expr_at(
    aggregation: AggregationView,
    call: int,
    kind: int,
    j: int,
) -> ExprView {
    if call == -1 {
        aggregation.group_by[j].expr
    } else if call == aggregation.aggr_exprs.len() {
        aggregation.filters[j]->0
    } else if kind == 0 {
        aggregation.aggr_exprs[call].args[j]
    } else {
        aggregation.aggr_exprs[call].order_bys[j].expr
    }
}

/// Whether a path leads to the column, outside of the given parts of the expression.
pub open spec fn leads_to_column(
    expr: ExprView,
    path: Seq<int>,
    column: ColumnView,
    parts: Seq<ExprView>,
) -> bool {
    &&& expr.at(path) == Some(ExprView::Column(column))
    &&& !leads_inside(expr, path, parts)
    &&& !parts.contains(ExprView::Column(column))
}

/// Whether a column stands at a place of an aggregation, outside of the given parts.
pub open spec fn stands_at(
    aggregation: AggregationView,
    place: ColumnPlace,
    column: ColumnView,
    parts: Seq<ExprView>,
) -> bool {
    &&& evaluates_at(aggregation, place.call, place.kind, place.j)
    &&& leads_to_column(
        expr_at(aggregation, place.call, place.kind, place.j),
        place.path,
        column,
        parts,
    )
}

/// Whether a part of an expression stands to the left of another.
pub open spec fn path_before(path: Seq<int>, other: Seq<int>) -> bool
    decreases path.len(),
{
    if other.len() == 0 {
        false
    } else if path.len() == 0 {
        true
    } else if path[0] == other[0] {
        path_before(path.drop_first(), other.drop_first())
    } else {
        path[0] < other[0]
    }
}

/// Whether a place comes before another: group by keys first, then call by call the arguments and
/// the sort keys, then the filters, and each expression from left to right.
pub open spec fn place_before(place: ColumnPlace, other: ColumnPlace) -> bool {
    if place.call != other.call {
        place.call < other.call
    } else if place.kind != other.kind {
        place.kind < other.kind
    } else if place.j != other.j {
        place.j < other.j
    } else {
        path_before(place.path, other.path)
    }
}

/// Whether a column is needed at some place before all places where another is needed.
pub open spec fn needed_before(
    aggregation: AggregationView,
    column: ColumnView,
    other: ColumnView,
    parts: Seq<ExprView>,
) -> bool {
    exists|place: ColumnPlace|
        {
            &&& #[trigger] stands_at(aggregation, place, column, parts)
            &&& forall|other_place: ColumnPlace| #[trigger]
                stands_at(aggregation, other_place, other, parts) ==> place_before(
                    place,
                    other_place,
                )
        }
}

spec fn concat<T>(lists: Seq<Seq<T>>) -> Seq<T>
    decreases lists.len(),
{
    if lists.len() == 0 {
        seq![]
    } else {
        concat(lists.drop_last()) + lists.last()
    }
}

spec fn start<T>(lists: Seq<Seq<T>>, k: int) -> int {
    concat(lists.take(k)).len() as int
}

proof fn lemma_concat_step<T>(lists: Seq<Seq<T>>, k: int, n: int)
    requires
        0 <= k < n <= lists.len(),
    ensures
        start(lists, k) + lists[k].len() <= start(lists, n),
        forall|q: int|
            0 <= q < lists[k].len() ==> #[trigger] lists[k][q] == concat(lists.take(n))[start(
                lists,
                k,
            ) + q],
    decreases n,
{
    assert(lists.take(n).drop_last() =~= lists.take(n - 1));
    assert(lists.take(n).last() == lists[n - 1]);
    if k < n - 1 {
        lemma_concat_step(lists, k, n - 1);
    }
}

proof fn lemma_concat_find<T>(lists: Seq<Seq<T>>, n: int, p: int) -> (found: (int, int))
    requires
        0 <= n <= lists.len(),
        0 <= p < concat(lists.take(n)).len(),
    ensures
        0 <= found.0 < n,
        0 <= found.1 < lists[found.0].len(),
        p == start(lists, found.0) + found.1,
    decreases n,
{
    if n == 0 {
        assert(lists.take(0) =~= seq![]);
        (0, 0)
    } else {
        assert(lists.take(n).drop_last() =~= lists.take(n - 1));
        assert(lists.take(n).last() == lists[n - 1]);
        let before = concat(lists.take(n - 1)).len() as int;
        if p < before {
            lemma_concat_find(lists, n - 1, p)
        } else {
            (n - 1, p - before)
        }
    }
}

proof fn lemma_concat_add<T>(left: Seq<Seq<T>>, right: Seq<Seq<T>>)
    ensures
        concat(left + right) == concat(left) + concat(right),
    decreases right.len(),
{
    if right.len() == 0 {
        assert(left + right =~= left);
        assert(concat(left) + concat(right) =~= concat(left));
    } else {
        lemma_concat_add(left, right.drop_last());
        assert((left + right).drop_last() =~= left + right.drop_last());
        assert(concat(left + right) =~= concat(left) + concat(right));
    }
}

spec fn call_lists(calls: Seq<AggregateExprView>) -> Seq<Seq<ExprView>> {
    calls.map_values(|call: AggregateExprView| call.args + sort_exprs(call.order_bys))
}

spec fn filter_lists(filters: Seq<Option<ExprView>>) -> Seq<Seq<ExprView>> {
    filters.map_values(
        |filter: Option<ExprView>|
            match filter {
                Some(filter) => seq![filter],
                None => seq![],
            },
    )
}

spec fn lists_of(aggregation: AggregationView) -> Seq<Seq<ExprView>> {
    seq![column_exprs(aggregation.group_by)] + call_lists(aggregation.aggr_exprs) + filter_lists(
        aggregation.filters,
    )
}

proof fn lemma_call_lists(calls: Seq<AggregateExprView>)
    ensures
        concat(call_lists(calls)) == all_call_exprs(calls),
    decreases calls.len(),
{
    if calls.len() > 0 {
        lemma_call_lists(calls.drop_last());
        assert(call_lists(calls).drop_last() =~= call_lists(calls.drop_last()));
        assert(concat(call_lists(calls)) =~= all_call_exprs(calls));
    }
}

proof fn lemma_filter_lists(filters: Seq<Option<ExprView>>)
    ensures
        concat(filter_lists(filters)) == present(filters),
    decreases filters.len(),
{
    if filters.len() > 0 {
        lemma_filter_lists(filters.drop_last());
        assert(filter_lists(filters).drop_last() =~= filter_lists(filters.drop_last()));
        assert(concat(filter_lists(filters)) =~= present(filters));
    }
}

proof fn lemma_lists_of(aggregation: AggregationView)
    ensures
        concat(lists_of(aggregation)) == evaluated(aggregation),
{
    let keys = seq![column_exprs(aggregation.group_by)];
    let calls = call_lists(aggregation.aggr_exprs);
    let filters = filter_lists(aggregation.filters);
    lemma_call_lists(aggregation.aggr_exprs);
    lemma_filter_lists(aggregation.filters);
    lemma_concat_add(keys, calls);
    lemma_concat_add(keys + calls, filters);
    assert(keys.drop_last() =~= seq![]);
    assert(concat(keys.drop_last()) =~= seq![]);
    assert(keys.last() == column_exprs(aggregation.group_by));
    assert(concat(keys) =~= column_exprs(aggregation.group_by));
}

/// Which list the expression at a place is in, and where.
spec fn in_list(
    aggregation: AggregationView,
    call: int,
    kind: int,
    j: int,
) -> (int, int) {
    let n = aggregation.aggr_exprs.len();
    if call == -1 {
        (0, j)
    } else if call == n {
        (1 + n + j, 0)
    } else if kind == 0 {
        (call + 1, j)
    } else {
        (call + 1, aggregation.aggr_exprs[call].args.len() + j)
    }
}

proof fn lemma_in_list(aggregation: AggregationView, call: int, kind: int, j: int)
    requires
        evaluates_at(aggregation, call, kind, j),
    ensures
        ({
            let lists = lists_of(aggregation);
            let (k, q) = in_list(aggregation, call, kind, j);
            &&& 0 <= k < lists.len()
            &&& 0 <= q < lists[k].len()
            &&& lists[k][q] == expr_at(aggregation, call, kind, j)
        }),
{
    let lists = lists_of(aggregation);
    let n = aggregation.aggr_exprs.len();
    if call == -1 {
        assert(lists[0] == column_exprs(aggregation.group_by));
    } else if call == n {
        assert(lists[1 + n + j] == filter_lists(aggregation.filters)[j]);
    } else {
        assert(lists[call + 1] == call_lists(aggregation.aggr_exprs)[call]);
    }
}

proof fn lemma_from_list(aggregation: AggregationView, k: int, q: int) -> (place: (int, int, int))
    requires
        0 <= k < lists_of(aggregation).len(),
        0 <= q < lists_of(aggregation)[k].len(),
    ensures
        evaluates_at(aggregation, place.0, place.1, place.2),
        in_list(aggregation, place.0, place.1, place.2) == (k, q),
{
    let lists = lists_of(aggregation);
    let n = aggregation.aggr_exprs.len();
    if k == 0 {
        assert(lists[0] == column_exprs(aggregation.group_by));
        (-1, 0, q)
    } else if k <= n {
        let call = aggregation.aggr_exprs[k - 1];
        assert(lists[k] == call_lists(aggregation.aggr_exprs)[k - 1]);
        if q < call.args.len() {
            (k - 1, 0, q)
        } else {
            (k - 1, 1, q - call.args.len())
        }
    } else {
        assert(lists[k] == filter_lists(aggregation.filters)[k - 1 - n]);
        (n as int, 0, k - 1 - n)
    }
}

spec fn prefixed(paths: Seq<Seq<int>>, i: int) -> Seq<Seq<int>> {
    Seq::new(paths.len(), |j: int| seq![i] + paths[j])
}

spec fn column_paths(expr: ExprView, parts: Seq<ExprView>) -> Seq<Seq<int>>
    decreases expr, 0nat,
{
    if parts.contains(expr) {
        seq![]
    } else {
        match expr {
            ExprView::Column(_) => seq![seq![]],
            ExprView::Literal(_) => seq![],
            ExprView::Call { args, .. } => column_paths_all(args, parts),
        }
    }
}

spec fn column_paths_all(exprs: Seq<ExprView>, parts: Seq<ExprView>) -> Seq<Seq<int>>
    decreases exprs, exprs.len(),
{
    if exprs.len() == 0 {
        seq![]
    } else {
        column_paths_all(exprs.drop_last(), parts) + prefixed(
            column_paths(exprs.last(), parts),
            exprs.len() - 1,
        )
    }
}

spec fn leads_to_column_in(
    exprs: Seq<ExprView>,
    path: Seq<int>,
    column: ColumnView,
    parts: Seq<ExprView>,
) -> bool {
    path.len() > 0 && 0 <= path[0] < exprs.len() && leads_to_column(
        exprs[path[0]],
        path.drop_first(),
        column,
        parts,
    )
}

proof fn lemma_prefix(i: int, path: Seq<int>)
    ensures
        (seq![i] + path).drop_first() == path,
        (seq![i] + path)[0] == i,
        (seq![i] + path).len() > 0,
{
    assert((seq![i] + path).drop_first() =~= path);
}

proof fn lemma_column_paths(expr: ExprView, parts: Seq<ExprView>)
    ensures
        column_paths(expr, parts).len() == remaining(expr, parts).len(),
        forall|p: int|
            0 <= p < column_paths(expr, parts).len() ==> leads_to_column(
                expr,
                #[trigger] column_paths(expr, parts)[p],
                remaining(expr, parts)[p],
                parts,
            ),
        forall|path: Seq<int>, column: ColumnView| #[trigger]
            leads_to_column(expr, path, column, parts) ==> column_paths(expr, parts).contains(path),
        forall|p: int, q: int|
            0 <= p < q < column_paths(expr, parts).len() ==> path_before(
                #[trigger] column_paths(expr, parts)[p],
                #[trigger] column_paths(expr, parts)[q],
            ),
    decreases expr, 0nat,
{
    let paths = column_paths(expr, parts);
    if !parts.contains(expr) {
        match expr {
            ExprView::Column(column) => {
                assert forall|path: Seq<int>, c: ColumnView| #[trigger]
                    leads_to_column(expr, path, c, parts) implies paths.contains(path) by {
                    assert(path =~= seq![]);
                    assert(paths[0] == path);
                }
            },
            ExprView::Literal(_) => {},
            ExprView::Call { function, args } => {
                lemma_column_paths_all(args, parts);
                assert(remaining(expr, parts) == remaining_all(args, parts));
                assert forall|p: int| 0 <= p < paths.len() implies leads_to_column(
                    expr,
                    #[trigger] paths[p],
                    remaining(expr, parts)[p],
                    parts,
                ) by {
                    assert(leads_to_column_in(
                        args,
                        paths[p],
                        remaining_all(args, parts)[p],
                        parts,
                    ));
                }
                assert forall|path: Seq<int>, column: ColumnView| #[trigger]
                    leads_to_column(expr, path, column, parts) implies paths.contains(path) by {
                    assert(leads_to_column_in(args, path, column, parts));
                }
            },
        }
    }
}

proof fn lemma_column_paths_all(exprs: Seq<ExprView>, parts: Seq<ExprView>)
    ensures
        column_paths_all(exprs, parts).len() == remaining_all(exprs, parts).len(),
        forall|p: int|
            0 <= p < column_paths_all(exprs, parts).len() ==> leads_to_column_in(
                exprs,
                #[trigger] column_paths_all(exprs, parts)[p],
                remaining_all(exprs, parts)[p],
                parts,
            ),
        forall|path: Seq<int>, column: ColumnView| #[trigger]
            leads_to_column_in(exprs, path, column, parts) ==> column_paths_all(
                exprs,
                parts,
            ).contains(path),
        forall|p: int, q: int|
            0 <= p < q < column_paths_all(exprs, parts).len() ==> path_before(
                #[trigger] column_paths_all(exprs, parts)[p],
                #[trigger] column_paths_all(exprs, parts)[q],
            ),
    decreases exprs, exprs.len(),
{
    if exprs.len() > 0 {
        let n = exprs.len() - 1;
        let rest = exprs.drop_last();
        let before = column_paths_all(rest, parts);
        let own = column_paths(exprs.last(), parts);
        let all = column_paths_all(exprs, parts);
        let columns = remaining_all(exprs, parts);
        lemma_column_paths_all(rest, parts);
        lemma_column_paths(exprs.last(), parts);
        assert forall|p: int| 0 <= p < all.len() implies leads_to_column_in(
            exprs,
            #[trigger] all[p],
            columns[p],
            parts,
        ) by {
            if p < before.len() {
                assert(leads_to_column_in(rest, before[p], remaining_all(rest, parts)[p], parts));
            } else {
                lemma_prefix(n, own[p - before.len()]);
                assert(leads_to_column(
                    exprs.last(),
                    own[p - before.len()],
                    remaining(exprs.last(), parts)[p - before.len()],
                    parts,
                ));
            }
        }
        assert forall|path: Seq<int>, column: ColumnView| #[trigger]
            leads_to_column_in(exprs, path, column, parts) implies all.contains(path) by {
            if path[0] < n {
                assert(leads_to_column_in(rest, path, column, parts));
                let p = choose|p: int| 0 <= p < before.len() && before[p] == path;
                assert(all[p] == path);
            } else {
                let shorter = path.drop_first();
                assert(leads_to_column(exprs.last(), shorter, column, parts));
                let p = choose|p: int| 0 <= p < own.len() && own[p] == shorter;
                assert(path =~= seq![n] + shorter);
                assert(all[before.len() + p] == path);
            }
        }
        assert forall|p: int, q: int| 0 <= p < q < all.len() implies path_before(
            #[trigger] all[p],
            #[trigger] all[q],
        ) by {
            if q < before.len() {
                assert(path_before(before[p], before[q]));
            } else {
                lemma_prefix(n, own[q - before.len()]);
                if p < before.len() {
                    assert(leads_to_column_in(
                        rest,
                        before[p],
                        remaining_all(rest, parts)[p],
                        parts,
                    ));
                } else {
                    lemma_prefix(n, own[p - before.len()]);
                    assert(path_before(own[p - before.len()], own[q - before.len()]));
                }
            }
        }
    }
}

spec fn remaining_lists(exprs: Seq<ExprView>, parts: Seq<ExprView>) -> Seq<Seq<ColumnView>> {
    exprs.map_values(|expr: ExprView| remaining(expr, parts))
}

proof fn lemma_remaining_lists(exprs: Seq<ExprView>, parts: Seq<ExprView>)
    ensures
        concat(remaining_lists(exprs, parts)) == remaining_all(exprs, parts),
    decreases exprs.len(),
{
    if exprs.len() > 0 {
        lemma_remaining_lists(exprs.drop_last(), parts);
        assert(remaining_lists(exprs, parts).drop_last() =~= remaining_lists(
            exprs.drop_last(),
            parts,
        ));
    }
}

/// The place of a column among all that are needed.
proof fn lemma_place_of_column(
    aggregation: AggregationView,
    parts: Seq<ExprView>,
    p: int,
) -> (place: ColumnPlace)
    requires
        0 <= p < remaining_all(evaluated(aggregation), parts).len(),
    ensures
        stands_at(
            aggregation,
            place,
            remaining_all(evaluated(aggregation), parts)[p],
            parts,
        ),
        number_of(aggregation, parts, place) == p,
{
    let all = evaluated(aggregation);
    let lists = lists_of(aggregation);
    let columns = remaining_lists(all, parts);
    lemma_lists_of(aggregation);
    lemma_remaining_lists(all, parts);
    assert(columns.take(columns.len() as int) =~= columns);
    assert(lists.take(lists.len() as int) =~= lists);
    let (e, q) = lemma_concat_find(columns, columns.len() as int, p);
    let (k, m) = lemma_concat_find(lists, lists.len() as int, e);
    let (call, kind, j) = lemma_from_list(aggregation, k, m);
    lemma_in_list(aggregation, call, kind, j);
    lemma_concat_step(lists, k, lists.len() as int);
    lemma_concat_step(columns, e, columns.len() as int);
    assert(lists[k][m] == all[e]);
    lemma_column_paths(all[e], parts);
    let paths = column_paths(all[e], parts);
    let place = ColumnPlace { call, kind, j, path: paths[q] };
    assert(columns[e][q] == remaining_all(all, parts)[p]);
    lemma_index_of_path(all[e], parts, q);
    place
}

/// The number of a place among all places where columns are needed.
spec fn number_of(
    aggregation: AggregationView,
    parts: Seq<ExprView>,
    place: ColumnPlace,
) -> int {
    let (k, m) = in_list(aggregation, place.call, place.kind, place.j);
    let e = start(lists_of(aggregation), k) + m;
    let expr = expr_at(aggregation, place.call, place.kind, place.j);
    start(remaining_lists(evaluated(aggregation), parts), e) + column_paths(expr, parts).index_of(
        place.path,
    )
}

proof fn lemma_index_of_path(expr: ExprView, parts: Seq<ExprView>, q: int)
    requires
        0 <= q < column_paths(expr, parts).len(),
    ensures
        column_paths(expr, parts).index_of(column_paths(expr, parts)[q]) == q,
{
    let paths = column_paths(expr, parts);
    lemma_column_paths(expr, parts);
    let i = paths.index_of(paths[q]);
    assert(0 <= i < paths.len() && paths[i] == paths[q]);
    if i < q {
        assert(path_before(paths[i], paths[q]));
        lemma_path_not_before_itself(paths[q]);
    }
    if q < i {
        assert(path_before(paths[q], paths[i]));
        lemma_path_not_before_itself(paths[q]);
    }
}

proof fn lemma_path_not_before_itself(path: Seq<int>)
    ensures
        !path_before(path, path),
    decreases path.len(),
{
    if path.len() > 0 {
        lemma_path_not_before_itself(path.drop_first());
    }
}

/// A place where a column is needed has a number, and the column has it too.
proof fn lemma_column_of_place(
    aggregation: AggregationView,
    parts: Seq<ExprView>,
    place: ColumnPlace,
    column: ColumnView,
)
    requires
        stands_at(aggregation, place, column, parts),
    ensures
        0 <= number_of(aggregation, parts, place) < remaining_all(
            evaluated(aggregation),
            parts,
        ).len(),
        remaining_all(evaluated(aggregation), parts)[number_of(aggregation, parts, place)]
            == column,
{
    let all = evaluated(aggregation);
    let lists = lists_of(aggregation);
    let columns = remaining_lists(all, parts);
    lemma_lists_of(aggregation);
    lemma_remaining_lists(all, parts);
    assert(columns.take(columns.len() as int) =~= columns);
    assert(lists.take(lists.len() as int) =~= lists);
    lemma_in_list(aggregation, place.call, place.kind, place.j);
    let (k, m) = in_list(aggregation, place.call, place.kind, place.j);
    let e = start(lists, k) + m;
    let expr = expr_at(aggregation, place.call, place.kind, place.j);
    lemma_concat_step(lists, k, lists.len() as int);
    assert(lists[k][m] == all[e]);
    lemma_column_paths(expr, parts);
    let paths = column_paths(expr, parts);
    assert(paths.contains(place.path));
    let q = paths.index_of(place.path);
    assert(0 <= q < paths.len() && paths[q] == place.path);
    assert(leads_to_column(expr, paths[q], remaining(expr, parts)[q], parts));
    lemma_concat_step(columns, e, columns.len() as int);
    assert(columns[e][q] == remaining(expr, parts)[q]);
}

/// Places come in the order of their numbers.
proof fn lemma_number_order(
    aggregation: AggregationView,
    parts: Seq<ExprView>,
    place: ColumnPlace,
    column: ColumnView,
    other: ColumnPlace,
    other_column: ColumnView,
)
    requires
        stands_at(aggregation, place, column, parts),
        stands_at(aggregation, other, other_column, parts),
        number_of(aggregation, parts, place) < number_of(aggregation, parts, other),
    ensures
        place_before(place, other),
{
    let all = evaluated(aggregation);
    let lists = lists_of(aggregation);
    let columns = remaining_lists(all, parts);
    lemma_lists_of(aggregation);
    assert(lists.take(lists.len() as int) =~= lists);
    let (k, m) = in_list(aggregation, place.call, place.kind, place.j);
    let (other_k, other_m) = in_list(aggregation, other.call, other.kind, other.j);
    lemma_in_list(aggregation, place.call, place.kind, place.j);
    lemma_in_list(aggregation, other.call, other.kind, other.j);
    lemma_concat_step(lists, k, lists.len() as int);
    lemma_concat_step(lists, other_k, lists.len() as int);
    let e = start(lists, k) + m;
    let other_e = start(lists, other_k) + other_m;
    let expr = expr_at(aggregation, place.call, place.kind, place.j);
    let other_expr = expr_at(aggregation, other.call, other.kind, other.j);
    assert(lists[k][m] == all[e]);
    assert(lists[other_k][other_m] == all[other_e]);
    lemma_column_paths(expr, parts);
    lemma_column_paths(other_expr, parts);
    let q = column_paths(expr, parts).index_of(place.path);
    let other_q = column_paths(other_expr, parts).index_of(other.path);
    assert(column_paths(expr, parts).contains(place.path));
    assert(column_paths(other_expr, parts).contains(other.path));
    if other_e < e {
        lemma_concat_step(columns, other_e, e);
        assert(columns[other_e] == remaining(other_expr, parts));
    }
    assert(e <= other_e);
    if k > other_k {
        lemma_concat_step(lists, other_k, k);
    }
    assert(k < other_k || (k == other_k && m <= other_m));
    if e == other_e {
        if k < other_k {
            lemma_concat_step(lists, k, other_k);
        }
        assert(path_before(
            column_paths(expr, parts)[q],
            column_paths(other_expr, parts)[other_q],
        ));
    }
}

proof fn lemma_distinct_order(columns: Seq<ColumnView>, i: int, j: int) -> (p: int)
    requires
        0 <= i < j < with_distinct(seq![], columns).len(),
    ensures
        0 <= p < columns.len(),
        columns[p] == with_distinct(seq![], columns)[i],
        forall|q: int|
            0 <= q < columns.len() && #[trigger] columns[q] == with_distinct(seq![], columns)[j]
                ==> p < q,
    decreases columns.len(),
{
    let rest = columns.drop_last();
    let last = columns.last();
    let before = with_distinct(seq![], rest);
    let found = with_distinct(seq![], columns);
    lemma_with_distinct(rest);
    if j < before.len() {
        let p = lemma_distinct_order(rest, i, j);
        assert forall|q: int| 0 <= q < columns.len() && #[trigger] columns[q] == found[j] implies p
            < q by {
            if q < rest.len() {
                assert(rest[q] == before[j]);
            }
        }
        p
    } else {
        assert(before.contains(before[i]));
        assert(rest.contains(found[i]));
        let p = choose|p: int| 0 <= p < rest.len() && rest[p] == found[i];
        assert forall|q: int| 0 <= q < columns.len() && #[trigger] columns[q] == found[j] implies p
            < q by {
            if q < rest.len() {
                assert(rest[q] == last);
                assert(rest.contains(last));
                assert(before.contains(last));
            }
        }
        p
    }
}

proof fn lemma_insert_position(columns: Seq<ColumnView>, column: ColumnView) -> (i: int)
    requires
        forall|i: int, j: int|
            0 <= i <= j < columns.len() ==> (#[trigger] columns[i]).index <= (
            #[trigger] columns[j]).index,
    ensures
        0 <= i <= columns.len(),
        inserted(columns, column) == columns.insert(i, column),
        forall|j: int| i <= j < columns.len() ==> (#[trigger] columns[j]).index > column.index,
    decreases columns.len(),
{
    if columns.len() == 0 || columns.last().index <= column.index {
        assert(columns.push(column) =~= columns.insert(columns.len() as int, column));
        columns.len() as int
    } else {
        let rest = columns.drop_last();
        let i = lemma_insert_position(rest, column);
        assert forall|j: int| i <= j < columns.len() implies (#[trigger] columns[j]).index
            > column.index by {
            if j < rest.len() {
                assert(rest[j] == columns[j]);
            }
        }
        assert(inserted(columns, column) =~= columns.insert(i, column));
        i
    }
}

/// Sorting keeps columns with the same position in their order.
proof fn lemma_sorted_stable(columns: Seq<ColumnView>, i: int, j: int) -> (origins: (int, int))
    requires
        0 <= i < j < sorted(columns).len(),
        sorted(columns)[i].index == sorted(columns)[j].index,
    ensures
        0 <= origins.0 < origins.1 < columns.len(),
        columns[origins.0] == sorted(columns)[i],
        columns[origins.1] == sorted(columns)[j],
    decreases columns.len(),
{
    if columns.len() == 0 {
        (0, 0)
    } else {
        let rest = columns.drop_last();
        let last = columns.last();
        let before = sorted(rest);
        let n = rest.len() as int;
        law_kept_columns_in_order(rest);
        let at = lemma_insert_position(before, last);
        assert(sorted(columns) == before.insert(at, last));
        let from_i = if i < at {
            i
        } else {
            i - 1
        };
        let from_j = if j < at {
            j
        } else {
            j - 1
        };
        if i == at {
            assert(before[from_j].index > last.index);
            (0, 0)
        } else if j == at {
            let m = lemma_sorted_origin(rest, from_i);
            (m, n)
        } else {
            lemma_sorted_stable(rest, from_i, from_j)
        }
    }
}

proof fn lemma_sorted_origin(columns: Seq<ColumnView>, i: int) -> (origin: int)
    requires
        0 <= i < sorted(columns).len(),
    ensures
        0 <= origin < columns.len(),
        columns[origin] == sorted(columns)[i],
    decreases columns.len(),
{
    if columns.len() == 0 {
        0
    } else {
        let rest = columns.drop_last();
        law_kept_columns_in_order(rest);
        let at = lemma_insert_position(sorted(rest), columns.last());
        if i == at {
            columns.len() - 1
        } else {
            lemma_sorted_origin(
                rest,
                if i < at {
                    i
                } else {
                    i - 1
                },
            )
        }
    }
}

/// Columns with the same position but different names are passed through in the order in which the
/// aggregate first needs them.
pub proof fn law_kept_columns_by_first_use(
    aggregate: AggregateView,
    input: PlanView,
    id: usize,
    i: int,
    j: int,
)
    requires
        propose(aggregate, input, id) is Some,
        0 <= i < j < propose(aggregate, input, id)->0.extracted_offset,
        ({
            let projection = propose(aggregate, input, id)->0.projection;
            projection[i].expr->Column_0.index == projection[j].expr->Column_0.index
        }),
    ensures
        ({
            let proposal = propose(aggregate, input, id)->0;
            needed_before(
                aggregate.aggregation,
                proposal.projection[i].expr->Column_0,
                proposal.projection[j].expr->Column_0,
                exprs_from(proposal.projection, proposal.extracted_offset),
            )
        }),
{
    let aggregation = aggregate.aggregation;
    let proposal = propose(aggregate, input, id)->0;
    let parts = extracted(aggregation);
    let needed = still_needed(aggregation);
    let columns = sorted(needed);
    let all = remaining_all(evaluated(aggregation), parts);
    lemma_sorted_len(needed);
    assert(exprs_from(proposal.projection, proposal.extracted_offset) =~= parts);
    assert(proposal.projection[i].expr == ExprView::Column(columns[i]));
    assert(proposal.projection[j].expr == ExprView::Column(columns[j]));
    let (from_i, from_j) = lemma_sorted_stable(needed, i, j);
    let p = lemma_distinct_order(all, from_i, from_j);
    let place = lemma_place_of_column(aggregation, parts, p);
    assert(stands_at(aggregation, place, columns[i], parts));
    assert forall|other_place: ColumnPlace| #[trigger]
        stands_at(aggregation, other_place, columns[j], parts) implies place_before(
        place,
        other_place,
    ) by {
        lemma_column_of_place(aggregation, parts, other_place, columns[j]);
        let q = number_of(aggregation, parts, other_place);
        assert(all[q] == columns[j]);
        lemma_number_order(aggregation, parts, place, columns[i], other_place, columns[j]);
    }
}

} // verus!
