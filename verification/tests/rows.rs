//! Runs plans on small tables before and after they are rewritten.

use projection_pushdown::aggregate::{
    Aggregate, AggregateCall, AggregateExpr, AggregateMode, Aggregation, GroupingSets,
    InputOrderMode, SortExpr, SortOptions,
};
use projection_pushdown::aggregate_push_down::try_push_down_aggregate_expressions;
use projection_pushdown::aliases::Aliases;
use projection_pushdown::expr::{Column, Expr, Function, Literal};
use projection_pushdown::join::{
    ColumnIndex, JoinFilter, JoinSide, JoinType, NestedLoopJoin,
};
use projection_pushdown::plan::{Partitioning, Plan};
use projection_pushdown::projection::ProjectionExpr;
use projection_pushdown::rule::{OptimizerOptions, ProjectionPushdown};
use projection_pushdown::schema::{DataType, Field, Schema};
use std::sync::Arc;

const INT: DataType = DataType::Other(1);

const PLUS: u64 = 1;
const TIMES: u64 = 2;
const GT: u64 = 3;
const AND: u64 = 4;

type Row = Vec<Option<i64>>;

fn column(name: &str, index: usize) -> Arc<Expr> {
    Arc::new(Expr::Column(Column::new(name, index)))
}

fn lit(value: u64) -> Arc<Expr> {
    Arc::new(Expr::Literal(Literal { value, data_type: INT, nullable: false }))
}

fn call(id: u64, left: Arc<Expr>, right: Arc<Expr>) -> Arc<Expr> {
    let data_type = if id == GT || id == AND { DataType::Boolean } else { INT };
    let function = Function { id, volatile: false, data_type, nullable: true };
    Arc::new(Expr::Call { function, args: vec![left, right] })
}

fn eval(expr: &Expr, row: &Row) -> Option<i64> {
    match expr {
        Expr::Column(column) => row[column.index],
        Expr::Literal(literal) => Some(literal.value as i64),
        Expr::Call { function, args } => {
            let (left, right) = (eval(&args[0], row)?, eval(&args[1], row)?);
            Some(match function.id {
                PLUS => left + right,
                TIMES => left * right,
                GT => (left > right) as i64,
                _ => (left != 0 && right != 0) as i64,
            })
        }
    }
}

fn passes(filter: &Option<JoinFilter>, left: &Row, right: &Row) -> bool {
    match filter {
        None => true,
        Some(filter) => {
            let row = filter
                .column_indices
                .iter()
                .map(|ci| match ci.side {
                    JoinSide::Left => left[ci.index],
                    JoinSide::Right => right[ci.index],
                })
                .collect();
            eval(&filter.expression, &row) == Some(1)
        }
    }
}

fn join_rows(
    join: &NestedLoopJoin,
    left: &[Row],
    right: &[Row],
    left_width: usize,
    right_width: usize,
) -> Vec<Row> {
    let both = |l: &Row, r: &Row| [l.clone(), r.clone()].concat();
    let found = |l: &Row, r: &Row| passes(&join.filter, l, r);
    let (no_left, no_right): (Row, Row) = (vec![None; left_width], vec![None; right_width]);
    let mut all: Vec<Row> = Vec::new();
    let pairs = matches!(
        join.join_type,
        JoinType::Inner | JoinType::Left | JoinType::Right | JoinType::Full
    );
    for l in left {
        let matched = right.iter().any(|r| found(l, r));
        if pairs {
            all.extend(right.iter().filter(|r| found(l, r)).map(|r| both(l, r)));
        }
        match join.join_type {
            JoinType::Left | JoinType::Full if !matched => all.push(both(l, &no_right)),
            JoinType::LeftSemi if matched => all.push(l.clone()),
            JoinType::LeftAnti if !matched => all.push(l.clone()),
            JoinType::LeftMark => all.push([l.clone(), vec![Some(matched as i64)]].concat()),
            _ => {}
        }
    }
    for r in right {
        let matched = left.iter().any(|l| found(l, r));
        match join.join_type {
            JoinType::Right | JoinType::Full if !matched => all.push(both(&no_left, r)),
            JoinType::RightSemi if matched => all.push(r.clone()),
            JoinType::RightAnti if !matched => all.push(r.clone()),
            JoinType::RightMark => all.push([r.clone(), vec![Some(matched as i64)]].concat()),
            _ => {}
        }
    }
    match &join.projection {
        None => all,
        Some(kept) => {
            all.iter().map(|row| kept.iter().map(|i| row[*i]).collect()).collect()
        }
    }
}

fn rows(plan: &Plan, tables: &[Vec<Row>]) -> Vec<Row> {
    match plan {
        Plan::NestedLoopJoin { join, left, right, .. } => join_rows(
            join,
            &rows(left, tables),
            &rows(right, tables),
            left.schema().fields.len(),
            right.schema().fields.len(),
        ),
        Plan::Projection { exprs, input, .. } => rows(input, tables)
            .iter()
            .map(|row| exprs.iter().map(|e| eval(&e.expr, row)).collect())
            .collect(),
        Plan::Cooperative { input, .. } | Plan::Repartition { input, .. } => rows(input, tables),
        Plan::Other { operator, children, .. } => {
            let mut all = if children.is_empty() { tables[*operator as usize].clone() } else { vec![] };
            for child in children {
                all.extend(rows(child, tables));
            }
            all
        }
        other => panic!("unexpected operator {other:?}"),
    }
}

fn int_fields(names: &[&str]) -> Schema {
    Schema::new(names.iter().map(|name| Field::new(name, INT, true)).collect())
}

fn table(operator: u64, names: &[&str]) -> Arc<Plan> {
    let schema = Arc::new(int_fields(names));
    Arc::new(Plan::Other { operator, schema, children: vec![] })
}

fn tables() -> Vec<Vec<Row>> {
    let row = |values: &[i64]| -> Row { values.iter().map(|v| Some(*v)).collect() };
    vec![
        vec![row(&[1, 10]), row(&[2, 20]), row(&[5, 0]), vec![None, Some(3)]],
        vec![row(&[3, 7, 8]), row(&[100, 1, 2]), row(&[1, 1, 1]), vec![Some(4), None, Some(4)]],
    ]
}

fn left(index: usize) -> ColumnIndex {
    ColumnIndex { index, side: JoinSide::Left }
}

fn right(index: usize) -> ColumnIndex {
    ColumnIndex { index, side: JoinSide::Right }
}

/// `a + b > x * y AND z + 1 > 1`, over an intermediate row with an unused column.
fn filter() -> JoinFilter {
    let sum = call(PLUS, column("a", 1), column("b", 3));
    let product = call(TIMES, column("x", 0), column("y", 2));
    let one_side = call(GT, call(PLUS, column("z", 4), lit(1)), lit(1));
    JoinFilter {
        expression: call(AND, call(GT, sum, product), one_side),
        column_indices: vec![right(0), left(0), right(1), left(1), right(2), left(1)],
        schema: int_fields(&["x", "a", "y", "b", "z", "b"]),
    }
}

fn join(join_type: JoinType, projection: Option<Vec<usize>>) -> Arc<Plan> {
    Arc::new(Plan::NestedLoopJoin {
        operator: Some(2),
        join: Arc::new(NestedLoopJoin { filter: Some(filter()), join_type, projection }),
        left: table(0, &["a", "b"]),
        right: table(1, &["x", "y", "z"]),
    })
}

fn optimize(plan: &Arc<Plan>) -> Arc<Plan> {
    assert!(plan.is_well_formed());
    let config = OptimizerOptions { enable_aggregate_expression_pushdown: true };
    ProjectionPushdown::new().optimize(plan, &config).unwrap().finish(&vec![])
}

const JOIN_TYPES: [JoinType; 10] = [
    JoinType::Inner,
    JoinType::Left,
    JoinType::Right,
    JoinType::Full,
    JoinType::LeftSemi,
    JoinType::RightSemi,
    JoinType::LeftAnti,
    JoinType::RightAnti,
    JoinType::LeftMark,
    JoinType::RightMark,
];

#[test]
fn joins_return_the_same_rows() {
    for join_type in JOIN_TYPES {
        let plan = join(join_type, None);
        let optimized = optimize(&plan);
        assert_eq!(rows(&optimized, &tables()), rows(&plan, &tables()), "{join_type:?}");
        assert!(!rows(&plan, &tables()).is_empty());
    }
}

#[test]
fn joins_that_keep_some_columns_return_the_same_rows() {
    for join_type in JOIN_TYPES {
        let width = join(join_type, None).schema().fields.len();
        let kept = vec![width - 1, 0, 1];
        let plan = join(join_type, Some(kept));
        let optimized = optimize(&plan);
        assert_eq!(rows(&optimized, &tables()), rows(&plan, &tables()), "{join_type:?}");
    }
}

#[test]
fn filter_is_cut_down_to_pushed_columns() {
    if let Plan::NestedLoopJoin { join, left, right, .. } = &*optimize(&join(JoinType::Inner, None)) {
        let filter = join.filter.as_ref().unwrap();
        assert_eq!(filter.column_indices.len(), 3);
        assert_eq!(left.schema().fields.len(), 3);
        assert_eq!(right.schema().fields.len(), 5);
        assert_eq!(join.projection, Some(vec![0, 1, 3, 4, 5]));
    } else {
        panic!();
    }
}

#[test]
fn whole_plan_returns_the_same_rows() {
    let below = Arc::new(Plan::Cooperative { operator: 3, input: join(JoinType::Full, None) });
    let projection = Arc::new(Plan::Projection {
        operator: Some(4),
        exprs: Arc::new(vec![
            ProjectionExpr { expr: column("z", 4), alias: "z".to_string() },
            ProjectionExpr {
                expr: call(PLUS, column("a", 0), lit(1)),
                alias: "next".to_string(),
            },
        ]),
        input: below,
    });
    let repartition = Arc::new(Plan::Repartition {
        operator: 5,
        partitioning: Partitioning::RoundRobinBatch(3),
        input: projection,
    });
    let semi = join(JoinType::LeftSemi, Some(vec![1, 0]));
    let schema = Arc::new(repartition.schema());
    let plan =
        Arc::new(Plan::Other { operator: 6, schema, children: vec![repartition, semi] });
    let optimized = optimize(&plan);
    assert_eq!(rows(&optimized, &tables()), rows(&plan, &tables()));
    assert!(optimized.schema().same_schema(&plan.schema()));
}

#[test]
fn aggregate_evaluates_the_same_values() {
    let a_plus_b = || call(PLUS, column("a", 0), column("b", 1));
    let aggregation = Aggregation {
        mode: AggregateMode::Single,
        group_by: vec![
            ProjectionExpr { expr: a_plus_b(), alias: "k".to_string() },
            ProjectionExpr { expr: column("b", 1), alias: "b".to_string() },
        ],
        grouping_sets: Arc::new(GroupingSets {
            null_exprs: vec![],
            groups: vec![vec![false, false]],
            has_grouping_set: false,
        }),
        aggr_exprs: vec![AggregateExpr {
            call: Arc::new(AggregateCall {
                function: 0,
                name: "sum".to_string(),
                ignore_nulls: false,
                is_distinct: false,
                is_reversed: false,
                human_display: None,
                human_display_alias: None,
            }),
            args: vec![call(TIMES, column("b", 1), lit(3))],
            order_bys: vec![SortExpr {
                expr: call(TIMES, a_plus_b(), column("b", 1)),
                options: SortOptions { descending: false, nulls_first: false },
            }],
        }],
        filters: vec![Some(call(GT, call(TIMES, column("b", 1), lit(3)), column("a", 0)))],
        limit_options: None,
    };
    let values = |aggregation: &Aggregation, row: &Row| -> Vec<Option<i64>> {
        let mut values: Vec<Option<i64>> = Vec::new();
        values.extend(aggregation.group_by.iter().map(|key| eval(&key.expr, row)));
        for call in &aggregation.aggr_exprs {
            values.extend(call.args.iter().map(|arg| eval(arg, row)));
            values.extend(call.order_bys.iter().map(|sort| eval(&sort.expr, row)));
        }
        values.extend(aggregation.filters.iter().flatten().map(|filter| eval(filter, row)));
        values
    };
    let aggregate = Arc::new(Aggregate {
        aggregation,
        schema: int_fields(&["k", "b", "sum"]),
        input_order_mode: InputOrderMode::Linear,
        produces_dynamic_filter: false,
    });
    let source = table(0, &["a", "b"]);
    let mut aliases = Aliases::new();
    let proposal =
        try_push_down_aggregate_expressions(&aggregate, &source, &mut aliases).unwrap();
    let rewritten = proposal.rewrite(&table(1, &["a", "b", "p", "q"])).unwrap();
    assert_eq!(proposal.projection.len(), 4);
    for row in &tables()[0] {
        let projected: Row = proposal.projection.iter().map(|e| eval(&e.expr, row)).collect();
        assert_eq!(
            values(&rewritten.aggregation, &projected),
            values(&proposal.aggregate.aggregation, row)
        );
    }
}
