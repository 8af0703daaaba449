# projection_pushdown

A verified optimizer rule for physical query plans. The rule moves computations closer to where
their input comes from:

* Parts of the filter of a nested loop join that depend on one side of the join alone are computed
  in a projection of that side, and no longer for every pair of rows.
* Scalar expressions that an aggregate evaluates on its input are extracted into a projection that
  the source below the aggregate is asked to absorb. The rewrite is kept only if it does.

## Layout

* `src/` is the library, verified with Verus.
  * `expr`, `schema`, `projection`, `join`, `aggregate`, `plan`: what plans are made of.
  * `aliases`: fresh names for columns, from DataFusion's alias generator.
  * `rewriter`, `join_filter`, `join_push_down`: the push-down of join filters.
  * `aggregate_push_down`, `aggregate_rewrite`: the extraction out of aggregates.
  * `rule`: the rule as a whole.
  * `semantics`: the rows that a plan returns, whatever its functions and sources mean.
  * `join_laws`, `plan_laws`, `aggregate_laws`, `rule_laws`: what the rewrites keep.
* `app/` runs the rule on DataFusion's plans.
* `tests/` runs the library.

The library knows functions, literals, types and operators by numbers that the owner of a plan
chooses. It proposes projections for aggregates; the owner lets the source absorb them, builds the
new aggregates, and reports back.
