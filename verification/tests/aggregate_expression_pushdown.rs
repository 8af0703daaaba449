//! The extraction of expressions out of aggregates, with an owner of the plan that knows two
//! sources: one absorbs arbitrary projections, the other plain columns alone.

use projection_pushdown::aggregate::{
    Aggregate, AggregateCall, AggregateExpr, AggregateMode, Aggregation, GroupingSets,
    InputOrderMode, LimitOptions, SortExpr, SortOptions,
};
use projection_pushdown::aggregate_push_down::{
    cardinality_preserving_leaf, is_eligible, is_extractable_aggregate_input,
    try_push_down_aggregate_expressions, AggregateProposal,
};
use projection_pushdown::aggregate_rewrite::BuiltAggregate;
use projection_pushdown::aliases::Aliases;
use projection_pushdown::expr::{Column, Expr, Function, Literal};
use projection_pushdown::join::{
    ColumnIndex, JoinFilter, JoinSide, JoinType, NestedLoopJoin,
};
use projection_pushdown::plan::{Partitioning, Plan};
use projection_pushdown::projection::{project_schema, ProjectionExpr};
use projection_pushdown::rule::{OptimizerOptions, ProjectionPushdown};
use projection_pushdown::schema::{DataType, Field, Schema};
use std::sync::Arc;

const INT64: DataType = DataType::Other(64);
const FLOAT64: DataType = DataType::Other(65);

const PLUS: u64 = 1;
const MULTIPLY: u64 = 2;
const GT: u64 = 3;
const RANDOM: u64 = 4;

const SUM: u64 = 1;
const COUNT: u64 = 2;

const CSV: u64 = 10;
const MEMORY: u64 = 11;
const COOPERATIVE: u64 = 12;
const REPARTITION: u64 = 13;
const FILTER: u64 = 14;
const AGGREGATE: u64 = 15;
const UNION: u64 = 16;
/// The first of the sources that have absorbed a projection.
const ABSORBED: u64 = 100;

fn schema() -> Schema {
    Schema::new(vec![
        Field::new("a", INT64, true),
        Field::new("b", INT64, true),
        Field::new("c", INT64, true),
    ])
}

fn leaf(operator: u64, schema: Schema) -> Arc<Plan> {
    Arc::new(Plan::Other { operator, schema: Arc::new(schema), children: vec![] })
}

/// A source that absorbs arbitrary projection expressions.
fn csv_exec() -> Arc<Plan> {
    leaf(CSV, schema())
}

/// A source that only absorbs plain column projections.
fn memory_exec() -> Arc<Plan> {
    leaf(MEMORY, schema())
}

fn cooperative(input: Arc<Plan>) -> Arc<Plan> {
    Arc::new(Plan::Cooperative { operator: COOPERATIVE, input })
}

fn repartition(partitioning: Partitioning, input: Arc<Plan>) -> Arc<Plan> {
    Arc::new(Plan::Repartition { operator: REPARTITION, partitioning, input })
}

fn col(name: &str) -> Arc<Expr> {
    let index = schema().fields.iter().position(|field| field.name == name).unwrap();
    Arc::new(Expr::Column(Column::new(name, index)))
}

fn lit(value: u64) -> Arc<Expr> {
    Arc::new(Expr::Literal(Literal { value, data_type: INT64, nullable: false }))
}

fn call(id: u64, data_type: DataType, args: Vec<Arc<Expr>>) -> Arc<Expr> {
    let function = Function { id, volatile: id == RANDOM, data_type, nullable: true };
    Arc::new(Expr::Call { function, args })
}

fn plus(left: Arc<Expr>, right: Arc<Expr>) -> Arc<Expr> {
    call(PLUS, INT64, vec![left, right])
}

fn gt(left: Arc<Expr>, right: Arc<Expr>) -> Arc<Expr> {
    call(GT, DataType::Boolean, vec![left, right])
}

/// `a + 1`
fn a_plus_one() -> Arc<Expr> {
    plus(col("a"), lit(1))
}

/// `b * 2`
fn b_times_two() -> Arc<Expr> {
    call(MULTIPLY, INT64, vec![col("b"), lit(2)])
}

fn random() -> Arc<Expr> {
    call(RANDOM, FLOAT64, vec![])
}

fn aggregate_of(function: u64, expr: Arc<Expr>, name: &str) -> AggregateExpr {
    AggregateExpr {
        call: Arc::new(AggregateCall {
            function,
            name: name.to_string(),
            ignore_nulls: false,
            is_distinct: false,
            is_reversed: false,
            human_display: None,
            human_display_alias: None,
        }),
        args: vec![expr],
        order_bys: vec![],
    }
}

fn group_by(keys: Vec<(Arc<Expr>, &str)>) -> Vec<ProjectionExpr> {
    keys.into_iter().map(|(expr, name)| ProjectionExpr { expr, alias: name.to_string() }).collect()
}

fn aggregation(
    mode: AggregateMode,
    group_by: Vec<ProjectionExpr>,
    aggr_exprs: Vec<AggregateExpr>,
    filters: Vec<Option<Arc<Expr>>>,
) -> Aggregation {
    let groups = vec![vec![false; group_by.len()]];
    Aggregation {
        mode,
        group_by,
        grouping_sets: Arc::new(GroupingSets {
            null_exprs: vec![],
            groups,
            has_grouping_set: false,
        }),
        aggr_exprs,
        filters,
        limit_options: None,
    }
}

/// The columns that an aggregate has.
fn aggregate_schema(aggregation: &Aggregation, input: &Schema) -> Schema {
    let mut fields = project_schema(&aggregation.group_by, input).fields;
    for call in &aggregation.aggr_exprs {
        fields.push(Field::new(&call.call.name, INT64, call.call.function == SUM));
    }
    Schema::new(fields)
}

fn aggregate_exec(aggregation: Aggregation, input: Arc<Plan>) -> Arc<Plan> {
    let schema = aggregate_schema(&aggregation, &input.schema());
    Arc::new(Plan::Aggregate {
        operator: Some(AGGREGATE),
        aggregate: Arc::new(Aggregate {
            aggregation,
            schema,
            input_order_mode: InputOrderMode::Linear,
            produces_dynamic_filter: false,
        }),
        input,
    })
}

/// `AggregateExec: gby=[a + 1 as k], aggr=[sum(b * 2), count(c)]`
fn aggregate(mode: AggregateMode, input: Arc<Plan>, filter: Option<Arc<Expr>>) -> Arc<Plan> {
    let aggr_exprs = vec![
        aggregate_of(SUM, b_times_two(), "sum(b * 2)"),
        aggregate_of(COUNT, col("c"), "count(c)"),
    ];
    let keys = group_by(vec![(a_plus_one(), "k")]);
    aggregate_exec(aggregation(mode, keys, aggr_exprs, vec![filter, None]), input)
}

/// The owner of a plan: carries out what the rule proposes.
struct Host {
    /// What the sources with operators from `ABSORBED` on compute.
    absorbed: Vec<String>,
    config: OptimizerOptions,
}

impl Host {
    fn new(enabled: bool) -> Host {
        let config = OptimizerOptions { enable_aggregate_expression_pushdown: enabled };
        Host { absorbed: vec![], config }
    }

    /// Pushes a projection into a source, or leaves it above the source.
    fn push_into(&mut self, projection: &[ProjectionExpr], source: &Arc<Plan>) -> Arc<Plan> {
        let columns: Vec<ProjectionExpr> = projection
            .iter()
            .map(|e| ProjectionExpr { expr: Arc::clone(&e.expr), alias: e.alias.clone() })
            .collect();
        let new_schema = project_schema(&columns, &source.schema());
        let plain = columns.iter().all(|e| matches!(&*e.expr, Expr::Column(_)));
        match &**source {
            Plan::Other { operator, .. } if *operator == CSV || plain => {
                let shown: Vec<String> = columns
                    .iter()
                    .map(|e| match &*e.expr {
                        Expr::Column(column) if column.name == e.alias => e.alias.clone(),
                        expr => format!("{} as {}", show(expr), e.alias),
                    })
                    .collect();
                self.absorbed.push(shown.join(", "));
                leaf(ABSORBED + self.absorbed.len() as u64 - 1, new_schema)
            }
            _ => Arc::new(Plan::Projection {
                operator: None,
                exprs: Arc::new(columns),
                input: Arc::clone(source),
            }),
        }
    }

    fn carry_out(&mut self, proposal: &AggregateProposal) -> Option<Arc<Plan>> {
        let new_leaf = self.push_into(&proposal.projection, &proposal.leaf);
        let rewritten = proposal.rewrite(&new_leaf)?;
        let built = BuiltAggregate {
            schema: aggregate_schema(&rewritten.aggregation, &new_leaf.schema()),
            input_order_mode: InputOrderMode::Linear,
            produces_dynamic_filter: false,
        };
        proposal.accept(rewritten, built)
    }

    fn optimize(&mut self, plan: &Arc<Plan>) -> Arc<Plan> {
        assert!(plan.is_well_formed());
        let optimization = ProjectionPushdown::new().optimize(plan, &self.config).unwrap();
        let replacements =
            optimization.proposals.iter().map(|proposal| self.carry_out(proposal)).collect();
        optimization.finish(&replacements)
    }

    fn displayed(&self, plan: &Plan) -> String {
        let mut out = Vec::new();
        self.show_plan(plan, 0, &mut out);
        out.join("\n")
    }

    fn show_plan(&self, plan: &Plan, indent: usize, out: &mut Vec<String>) {
        let start = " ".repeat(indent);
        match plan {
            Plan::Aggregate { aggregate, input, .. } => {
                let aggregation = &aggregate.aggregation;
                let keys: Vec<String> = aggregation
                    .group_by
                    .iter()
                    .map(|key| format!("{} as {}", show(&key.expr), key.alias))
                    .collect();
                let calls: Vec<String> =
                    aggregation.aggr_exprs.iter().map(|call| call.call.name.clone()).collect();
                out.push(format!(
                    "{start}AggregateExec: mode={:?}, gby=[{}], aggr=[{}]",
                    aggregation.mode,
                    keys.join(", "),
                    calls.join(", ")
                ));
                self.show_plan(input, indent + 2, out);
            }
            Plan::Cooperative { input, .. } => {
                out.push(format!("{start}CooperativeExec"));
                self.show_plan(input, indent + 2, out);
            }
            Plan::Repartition { partitioning, input, .. } => {
                let partitioning = match partitioning {
                    Partitioning::RoundRobinBatch(n) => format!("RoundRobinBatch({n})"),
                    Partitioning::Other(n) => format!("Hash([a@0], {n})"),
                };
                out.push(format!(
                    "{start}RepartitionExec: partitioning={partitioning}, input_partitions=1"
                ));
                self.show_plan(input, indent + 2, out);
            }
            Plan::Other { operator, schema, children } => {
                out.push(match *operator {
                    MEMORY => format!("{start}DataSourceExec: partitions=0, partition_sizes=[]"),
                    FILTER => format!("{start}FilterExec: c@2 > 0"),
                    UNION => format!("{start}UnionExec"),
                    _ => {
                        let projection = if *operator == CSV {
                            let names: Vec<&str> =
                                schema.fields.iter().map(|field| field.name.as_str()).collect();
                            names.join(", ")
                        } else {
                            self.absorbed[(*operator - ABSORBED) as usize].clone()
                        };
                        format!("{start}DataSourceExec: file_groups={{1 group: [[x]]}}, projection=[{projection}], file_type=csv, has_header=false")
                    }
                });
                for child in children {
                    self.show_plan(child, indent + 2, out);
                }
            }
            other => panic!("unexpected operator {other:?}"),
        }
    }
}

fn show(expr: &Expr) -> String {
    match expr {
        Expr::Column(column) => format!("{}@{}", column.name, column.index),
        Expr::Literal(literal) => format!("{}", literal.value),
        Expr::Call { function, args } => {
            let operator = match function.id {
                PLUS => "+",
                MULTIPLY => "*",
                GT => ">",
                _ => return "random()".to_string(),
            };
            format!("{} {} {}", show(&args[0]), operator, show(&args[1]))
        }
    }
}

fn optimize(plan: &Arc<Plan>, enabled: bool) -> String {
    let mut host = Host::new(enabled);
    let optimized = host.optimize(plan);
    host.displayed(&optimized)
}

fn aggregate_of_plan(plan: &Plan) -> &Arc<Aggregate> {
    match plan {
        Plan::Aggregate { aggregate, .. } => aggregate,
        other => panic!("unexpected operator {other:?}"),
    }
}

#[test]
fn partial_aggregate_over_absorbing_source() {
    let plan = aggregate(AggregateMode::Partial, csv_exec(), None);
    let original_schema = plan.schema();

    assert_eq!(
        optimize(&plan, false),
        [
            "AggregateExec: mode=Partial, gby=[a@0 + 1 as k], aggr=[sum(b * 2), count(c)]",
            "  DataSourceExec: file_groups={1 group: [[x]]}, projection=[a, b, c], file_type=csv, has_header=false",
        ]
        .join("\n")
    );

    let mut host = Host::new(true);
    let optimized = host.optimize(&plan);
    assert!(optimized.schema().same_schema(&original_schema));
    assert_eq!(
        host.displayed(&optimized),
        [
            "AggregateExec: mode=Partial, gby=[__datafusion_agg_expr_1@1 as k], aggr=[sum(b * 2), count(c)]",
            "  DataSourceExec: file_groups={1 group: [[x]]}, projection=[c, a@0 + 1 as __datafusion_agg_expr_1, b@1 * 2 as __datafusion_agg_expr_2], file_type=csv, has_header=false",
        ]
        .join("\n")
    );
}

#[test]
fn single_aggregate_with_filter_and_cooperative_exec() {
    let input = cooperative(csv_exec());
    // FILTER (WHERE c > 0) references a pass-through column that changes index.
    let filter = gt(col("c"), lit(0));
    let plan = aggregate(AggregateMode::Single, input, Some(filter));

    assert_eq!(
        optimize(&plan, false),
        [
            "AggregateExec: mode=Single, gby=[a@0 + 1 as k], aggr=[sum(b * 2), count(c)]",
            "  CooperativeExec",
            "    DataSourceExec: file_groups={1 group: [[x]]}, projection=[a, b, c], file_type=csv, has_header=false",
        ]
        .join("\n")
    );
    assert_eq!(
        optimize(&plan, true),
        [
            "AggregateExec: mode=Single, gby=[__datafusion_agg_expr_1@1 as k], aggr=[sum(b * 2), count(c)]",
            "  CooperativeExec",
            "    DataSourceExec: file_groups={1 group: [[x]]}, projection=[c, a@0 + 1 as __datafusion_agg_expr_1, b@1 * 2 as __datafusion_agg_expr_2], file_type=csv, has_header=false",
        ]
        .join("\n")
    );
    let optimized = Host::new(true).optimize(&plan);
    let aggregation = &aggregate_of_plan(&optimized).aggregation;
    assert_eq!(show(aggregation.filters[0].as_ref().unwrap()), "c@0 > 0");
    assert!(aggregation.filters[1].is_none());
}

#[test]
fn round_robin_repartition_between_aggregate_and_source_is_crossed() {
    let input = repartition(Partitioning::RoundRobinBatch(4), csv_exec());
    let plan = aggregate(AggregateMode::Partial, input, None);
    assert_eq!(
        optimize(&plan, true),
        [
            "AggregateExec: mode=Partial, gby=[__datafusion_agg_expr_1@1 as k], aggr=[sum(b * 2), count(c)]",
            "  RepartitionExec: partitioning=RoundRobinBatch(4), input_partitions=1",
            "    DataSourceExec: file_groups={1 group: [[x]]}, projection=[c, a@0 + 1 as __datafusion_agg_expr_1, b@1 * 2 as __datafusion_agg_expr_2], file_type=csv, has_header=false",
        ]
        .join("\n")
    );
}

#[test]
fn hash_repartition_between_aggregate_and_source_blocks_pushdown() {
    let input = repartition(Partitioning::Other(4), csv_exec());
    let plan = aggregate(AggregateMode::Partial, input, None);
    assert_eq!(
        optimize(&plan, true),
        [
            "AggregateExec: mode=Partial, gby=[a@0 + 1 as k], aggr=[sum(b * 2), count(c)]",
            "  RepartitionExec: partitioning=Hash([a@0], 4), input_partitions=1",
            "    DataSourceExec: file_groups={1 group: [[x]]}, projection=[a, b, c], file_type=csv, has_header=false",
        ]
        .join("\n")
    );
}

#[test]
fn source_that_does_not_absorb_expressions_is_left_alone() {
    let plan = aggregate(AggregateMode::Partial, memory_exec(), None);
    assert_eq!(
        optimize(&plan, true),
        [
            "AggregateExec: mode=Partial, gby=[a@0 + 1 as k], aggr=[sum(b * 2), count(c)]",
            "  DataSourceExec: partitions=0, partition_sizes=[]",
        ]
        .join("\n")
    );
}

#[test]
fn filter_between_aggregate_and_source_blocks_pushdown() {
    let input = Arc::new(Plan::Other {
        operator: FILTER,
        schema: Arc::new(schema()),
        children: vec![csv_exec()],
    });
    let plan = aggregate(AggregateMode::Partial, input, None);
    assert_eq!(
        optimize(&plan, true),
        [
            "AggregateExec: mode=Partial, gby=[a@0 + 1 as k], aggr=[sum(b * 2), count(c)]",
            "  FilterExec: c@2 > 0",
            "    DataSourceExec: file_groups={1 group: [[x]]}, projection=[a, b, c], file_type=csv, has_header=false",
        ]
        .join("\n")
    );
}

#[test]
fn final_aggregate_is_left_alone() {
    let plan = aggregate(AggregateMode::Final, csv_exec(), None);
    assert_eq!(
        optimize(&plan, true),
        [
            "AggregateExec: mode=Final, gby=[a@0 + 1 as k], aggr=[sum(b * 2), count(c)]",
            "  DataSourceExec: file_groups={1 group: [[x]]}, projection=[a, b, c], file_type=csv, has_header=false",
        ]
        .join("\n")
    );
}

#[test]
fn volatile_and_column_only_arguments_are_left_alone() {
    let a_plus_random = plus(col("a"), random());
    let aggr_exprs = vec![
        aggregate_of(SUM, a_plus_random, "sum(a + random())"),
        aggregate_of(SUM, col("b"), "sum(b)"),
        aggregate_of(COUNT, lit(1), "count(1)"),
    ];
    let plan = aggregate_exec(
        aggregation(AggregateMode::Partial, vec![], aggr_exprs, vec![None, None, None]),
        csv_exec(),
    );
    assert_eq!(
        optimize(&plan, true),
        [
            "AggregateExec: mode=Partial, gby=[], aggr=[sum(a + random()), sum(b), count(1)]",
            "  DataSourceExec: file_groups={1 group: [[x]]}, projection=[a, b, c], file_type=csv, has_header=false",
        ]
        .join("\n")
    );
}

#[test]
fn only_modes_that_evaluate_arguments_are_rewritten() {
    for (mode, rewritten) in [
        (AggregateMode::Partial, true),
        (AggregateMode::Single, true),
        (AggregateMode::SinglePartitioned, true),
        (AggregateMode::Final, false),
        (AggregateMode::FinalPartitioned, false),
        (AggregateMode::PartialReduce, false),
    ] {
        let plan = aggregate(mode, csv_exec(), None);
        assert_eq!(is_eligible(aggregate_of_plan(&plan), &csv_exec()), rewritten);
    }
}

#[test]
fn aggregate_that_feeds_a_filter_is_left_alone() {
    let plan = aggregate(AggregateMode::Partial, csv_exec(), None);
    let original = aggregate_of_plan(&plan);
    let aggregate = Arc::new(Aggregate {
        aggregation: aggregation(
            AggregateMode::Partial,
            group_by(vec![(a_plus_one(), "k")]),
            vec![],
            vec![],
        ),
        schema: original.schema.clone(),
        input_order_mode: InputOrderMode::Linear,
        produces_dynamic_filter: true,
    });
    let mut aliases = Aliases::new();
    assert!(try_push_down_aggregate_expressions(&aggregate, &csv_exec(), &mut aliases).is_none());
    assert_eq!(aliases.next("next"), "next_1");
}

#[test]
fn equal_expressions_are_extracted_once() {
    let aggr_exprs = vec![
        aggregate_of(SUM, a_plus_one(), "sum(a + 1)"),
        aggregate_of(COUNT, a_plus_one(), "count(a + 1)"),
    ];
    let keys = group_by(vec![(a_plus_one(), "k"), (col("a"), "a")]);
    let plan = aggregate_exec(
        aggregation(AggregateMode::Single, keys, aggr_exprs, vec![None, None]),
        csv_exec(),
    );
    assert_eq!(
        optimize(&plan, true),
        [
            "AggregateExec: mode=Single, gby=[__datafusion_agg_expr_1@1 as k, a@0 as a], aggr=[sum(a + 1), count(a + 1)]",
            "  DataSourceExec: file_groups={1 group: [[x]]}, projection=[a, a@0 + 1 as __datafusion_agg_expr_1], file_type=csv, has_header=false",
        ]
        .join("\n")
    );
}

#[test]
fn extracted_parts_of_filters_and_sort_keys_become_columns() {
    let mut sum = aggregate_of(SUM, a_plus_one(), "sum(a + 1)");
    let options = SortOptions { descending: true, nulls_first: false };
    sum.order_bys.push(SortExpr { expr: plus(a_plus_one(), col("c")), options });
    let filter = gt(a_plus_one(), col("b"));
    let mut aggregation =
        aggregation(AggregateMode::Single, vec![], vec![sum], vec![Some(filter)]);
    aggregation.limit_options = Some(LimitOptions { limit: 7, descending: Some(true) });
    let plan = aggregate_exec(aggregation, csv_exec());
    let optimized = Host::new(true).optimize(&plan);
    let aggregation = &aggregate_of_plan(&optimized).aggregation;
    let call = &aggregation.aggr_exprs[0];
    assert_eq!(show(&call.args[0]), "__datafusion_agg_expr_1@2");
    assert_eq!(show(&call.order_bys[0].expr), "__datafusion_agg_expr_1@2 + c@1");
    assert_eq!(call.order_bys[0].options, options);
    assert_eq!(
        show(aggregation.filters[0].as_ref().unwrap()),
        "__datafusion_agg_expr_1@2 > b@0"
    );
    assert_eq!(
        aggregation.limit_options,
        Some(LimitOptions { limit: 7, descending: Some(true) })
    );
}

#[test]
fn needed_columns_are_in_order_and_aliases_avoid_the_input() {
    let source = leaf(
        CSV,
        Schema::new(vec![
            Field::new("a", INT64, true),
            Field::new("__datafusion_agg_expr_2", INT64, true),
            Field::new("c", INT64, true),
        ]),
    );
    let aggr_exprs = vec![
        aggregate_of(COUNT, col("c"), "count(c)"),
        aggregate_of(SUM, a_plus_one(), "sum(a + 1)"),
        aggregate_of(SUM, plus(col("c"), lit(1)), "sum(c + 1)"),
        aggregate_of(COUNT, col("a"), "count(a)"),
    ];
    let plan = aggregate_exec(
        aggregation(AggregateMode::Single, vec![], aggr_exprs, vec![None, None, None, None]),
        source,
    );
    let mut aliases = Aliases::new();
    let aggregate = aggregate_of_plan(&plan);
    let proposal = match &*plan {
        Plan::Aggregate { input, .. } => {
            try_push_down_aggregate_expressions(aggregate, input, &mut aliases).unwrap()
        }
        _ => panic!(),
    };
    let shown: Vec<String> = proposal
        .projection
        .iter()
        .map(|column| format!("{} as {}", show(&column.expr), column.alias))
        .collect();
    assert_eq!(
        shown,
        vec![
            "a@0 as a",
            "c@2 as c",
            "a@0 + 1 as __datafusion_agg_expr_1",
            "c@2 + 1 as __datafusion_agg_expr_3",
        ]
    );
    assert_eq!(proposal.extracted_offset, 2);
    assert_eq!(aliases.next("next"), "next_4");
}

fn proposal() -> AggregateProposal {
    let plan = aggregate(AggregateMode::Partial, csv_exec(), None);
    let mut aliases = Aliases::new();
    try_push_down_aggregate_expressions(aggregate_of_plan(&plan), &csv_exec(), &mut aliases)
        .unwrap()
}

#[test]
fn leaf_that_is_a_projection_has_declined() {
    let proposal = proposal();
    let declined = Arc::new(Plan::Projection {
        operator: None,
        exprs: Arc::new(vec![]),
        input: csv_exec(),
    });
    assert!(proposal.rewrite(&declined).is_none());
}

#[test]
fn aggregate_with_other_columns_is_not_accepted() {
    let proposal = proposal();
    let new_leaf = Host::new(true).push_into(&proposal.projection, &proposal.leaf);
    let build = |nullable: bool, input_order_mode: InputOrderMode| {
        let rewritten = proposal.rewrite(&new_leaf).unwrap();
        let mut schema = aggregate_schema(&rewritten.aggregation, &new_leaf.schema());
        schema.fields[0].nullable = nullable;
        let built = BuiltAggregate { schema, input_order_mode, produces_dynamic_filter: false };
        proposal.accept(rewritten, built)
    };
    assert!(build(true, InputOrderMode::Linear).is_some());
    assert!(build(false, InputOrderMode::Linear).is_none());
    assert!(build(true, InputOrderMode::Sorted).is_none());
    assert!(build(true, InputOrderMode::PartiallySorted(vec![0])).is_none());
}

#[test]
fn order_modes_are_told_apart() {
    let partially = |indices: Vec<usize>| InputOrderMode::PartiallySorted(indices);
    assert!(InputOrderMode::Sorted.same_mode(&InputOrderMode::Sorted));
    assert!(!InputOrderMode::Sorted.same_mode(&InputOrderMode::Linear));
    assert!(partially(vec![0, 2]).same_mode(&partially(vec![0, 2])));
    assert!(!partially(vec![0, 2]).same_mode(&partially(vec![2, 0])));
    assert!(!partially(vec![0]).same_mode(&partially(vec![0, 2])));
}

#[test]
fn extractable_inputs_compute_something_over_columns() {
    assert!(is_extractable_aggregate_input(&a_plus_one()));
    assert!(!is_extractable_aggregate_input(&col("a")));
    assert!(!is_extractable_aggregate_input(&lit(1)));
    assert!(!is_extractable_aggregate_input(&plus(lit(1), lit(2))));
    assert!(!is_extractable_aggregate_input(&plus(col("a"), random())));
}

#[test]
fn leaf_below_operators_that_pass_rows_through() {
    let source = csv_exec();
    let plan = cooperative(repartition(
        Partitioning::RoundRobinBatch(2),
        cooperative(Arc::clone(&source)),
    ));
    assert!(Arc::ptr_eq(cardinality_preserving_leaf(&plan).unwrap(), &source));
    let hashed = cooperative(repartition(Partitioning::Other(0), source));
    assert!(cardinality_preserving_leaf(&hashed).is_none());
}

fn union(children: Vec<Arc<Plan>>) -> Arc<Plan> {
    let schema = Arc::new(children[0].schema());
    Arc::new(Plan::Other { operator: UNION, schema, children })
}

#[test]
fn each_proposal_has_its_replacement() {
    let plan = union(vec![
        aggregate(AggregateMode::Partial, csv_exec(), None),
        aggregate(AggregateMode::Partial, memory_exec(), None),
        aggregate(
            AggregateMode::Final,
            aggregate(AggregateMode::Partial, csv_exec(), None),
            None,
        ),
    ]);
    let mut host = Host::new(true);
    let optimized = host.optimize(&plan);
    assert_eq!(
        host.displayed(&optimized),
        [
            "UnionExec",
            "  AggregateExec: mode=Partial, gby=[__datafusion_agg_expr_1@1 as k], aggr=[sum(b * 2), count(c)]",
            "    DataSourceExec: file_groups={1 group: [[x]]}, projection=[c, a@0 + 1 as __datafusion_agg_expr_1, b@1 * 2 as __datafusion_agg_expr_2], file_type=csv, has_header=false",
            "  AggregateExec: mode=Partial, gby=[a@0 + 1 as k], aggr=[sum(b * 2), count(c)]",
            "    DataSourceExec: partitions=0, partition_sizes=[]",
            "  AggregateExec: mode=Final, gby=[a@0 + 1 as k], aggr=[sum(b * 2), count(c)]",
            "    AggregateExec: mode=Partial, gby=[__datafusion_agg_expr_5@1 as k], aggr=[sum(b * 2), count(c)]",
            "      DataSourceExec: file_groups={1 group: [[x]]}, projection=[c, a@0 + 1 as __datafusion_agg_expr_5, b@1 * 2 as __datafusion_agg_expr_6], file_type=csv, has_header=false",
        ]
        .join("\n")
    );
}

#[test]
fn declined_proposals_change_nothing() {
    let plan = union(vec![
        aggregate(AggregateMode::Partial, csv_exec(), None),
        aggregate(AggregateMode::Single, cooperative(csv_exec()), None),
    ]);
    let config = OptimizerOptions { enable_aggregate_expression_pushdown: true };
    let optimization = ProjectionPushdown::default().optimize(&plan, &config).unwrap();
    assert_eq!(optimization.proposals.len(), 2);
    let host = Host::new(true);
    for replacements in [vec![], vec![None], vec![None, None]] {
        let finished = optimization.finish(&replacements);
        assert_eq!(host.displayed(&finished), host.displayed(&plan));
    }
}

/// `a + 1 > a + 1`, of the left and of the right input.
fn join_of_sources() -> Arc<Plan> {
    let column = |index: usize| Arc::new(Expr::Column(Column::new("a", index)));
    let filter = JoinFilter {
        expression: gt(plus(column(0), lit(1)), plus(column(1), lit(1))),
        column_indices: vec![
            ColumnIndex { index: 0, side: JoinSide::Left },
            ColumnIndex { index: 0, side: JoinSide::Right },
        ],
        schema: Schema::new(vec![Field::new("a", INT64, true), Field::new("a", INT64, true)]),
    };
    Arc::new(Plan::NestedLoopJoin {
        operator: Some(17),
        join: Arc::new(NestedLoopJoin {
            filter: Some(filter),
            join_type: JoinType::LeftSemi,
            projection: None,
        }),
        left: csv_exec(),
        right: csv_exec(),
    })
}

#[test]
fn joins_and_aggregates_are_numbered_together() {
    let plan = union(vec![
        aggregate(AggregateMode::Partial, csv_exec(), None),
        join_of_sources(),
        aggregate(AggregateMode::Partial, csv_exec(), None),
        join_of_sources(),
    ]);
    let config = OptimizerOptions { enable_aggregate_expression_pushdown: true };
    let optimization = ProjectionPushdown::new().optimize(&plan, &config).unwrap();
    let mut aliases: Vec<String> = Vec::new();
    if let Plan::Other { children, .. } = &*optimization.plan {
        for child in children {
            if let Plan::NestedLoopJoin { left, right, .. } = &**child {
                for side in [left, right] {
                    aliases.push(side.schema().fields.last().unwrap().name.clone());
                }
            }
        }
    }
    for proposal in &optimization.proposals {
        let extracted = &proposal.projection[proposal.extracted_offset..];
        aliases.extend(extracted.iter().map(|column| column.alias.clone()));
    }
    assert_eq!(
        aliases,
        vec![
            "join_proj_push_down_1",
            "join_proj_push_down_2",
            "join_proj_push_down_3",
            "join_proj_push_down_4",
            "__datafusion_agg_expr_5",
            "__datafusion_agg_expr_6",
            "__datafusion_agg_expr_7",
            "__datafusion_agg_expr_8",
        ]
    );
}

#[test]
fn pushed_column_has_the_type_of_its_function() {
    let config = OptimizerOptions { enable_aggregate_expression_pushdown: false };
    let optimization = ProjectionPushdown::new().optimize(&join_of_sources(), &config).unwrap();
    if let Plan::NestedLoopJoin { left, .. } = &*optimization.plan {
        let schema = left.schema();
        let pushed = schema.fields.last().unwrap();
        assert_eq!(pushed.name, "join_proj_push_down_1");
        assert_eq!(pushed.data_type, INT64);
        assert!(pushed.nullable);
    } else {
        panic!();
    }
}

#[test]
fn rule_introduces_itself() {
    let rule = ProjectionPushdown::new();
    assert_eq!(rule.name(), "ProjectionPushdown");
    assert!(rule.schema_check());
}
