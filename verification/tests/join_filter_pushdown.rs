//! The push-down of join filters, on plans of a nested loop join over empty inputs.

use projection_pushdown::aliases::Aliases;
use projection_pushdown::expr::{Column, Expr, Function, Literal};
use projection_pushdown::join::{
    ColumnIndex, JoinFilter, JoinSide, JoinType, NestedLoopJoin,
};
use projection_pushdown::join_filter::{minimize_join_filter, try_push_down_projection};
use projection_pushdown::join_push_down::{try_push_down_join_filter, PlanError};
use projection_pushdown::plan::Plan;
use projection_pushdown::rewriter::JoinFilterRewriter;
use projection_pushdown::rule::{OptimizerOptions, ProjectionPushdown};
use projection_pushdown::schema::{DataType, Field, Schema};
use std::sync::Arc;

const INT32: DataType = DataType::Other(32);
const FLOAT64: DataType = DataType::Other(64);

const PLUS: u64 = 1;
const GT: u64 = 2;
const AND: u64 = 3;
const RAND: u64 = 4;

fn column(name: &str, index: usize) -> Arc<Expr> {
    Arc::new(Expr::Column(Column::new(name, index)))
}

fn lit(value: u64) -> Arc<Expr> {
    Arc::new(Expr::Literal(Literal { value, data_type: INT32, nullable: false }))
}

fn lit_false() -> Arc<Expr> {
    Arc::new(Expr::Literal(Literal { value: 0, data_type: DataType::Boolean, nullable: false }))
}

fn call(id: u64, data_type: DataType, args: Vec<Arc<Expr>>) -> Arc<Expr> {
    let function = Function { id, volatile: id == RAND, data_type, nullable: false };
    Arc::new(Expr::Call { function, args })
}

fn plus(left: Arc<Expr>, right: Arc<Expr>) -> Arc<Expr> {
    call(PLUS, INT32, vec![left, right])
}

fn gt(left: Arc<Expr>, right: Arc<Expr>) -> Arc<Expr> {
    call(GT, DataType::Boolean, vec![left, right])
}

fn and(left: Arc<Expr>, right: Arc<Expr>) -> Arc<Expr> {
    call(AND, DataType::Boolean, vec![left, right])
}

fn rand() -> Arc<Expr> {
    call(RAND, FLOAT64, vec![])
}

fn show(expr: &Expr) -> String {
    match expr {
        Expr::Column(column) => format!("{}@{}", column.name, column.index),
        Expr::Literal(literal) => match literal.data_type {
            DataType::Boolean => format!("{}", literal.value != 0),
            DataType::Other(_) => format!("{}", literal.value),
        },
        Expr::Call { function, args } => {
            let operator = match function.id {
                PLUS => "+",
                GT => ">",
                AND => "AND",
                _ => return "rand()".to_string(),
            };
            format!("{} {} {}", show(&args[0]), operator, show(&args[1]))
        }
    }
}

fn show_plan(plan: &Plan, indent: usize, out: &mut Vec<String>) {
    let start = " ".repeat(indent);
    match plan {
        Plan::NestedLoopJoin { join, left, right, .. } => {
            let mut line = format!("{start}NestedLoopJoinExec: join_type={:?}", join.join_type);
            if let Some(filter) = &join.filter {
                line.push_str(&format!(", filter={}", show(&filter.expression)));
            }
            if let Some(projection) = &join.projection {
                let all = NestedLoopJoin { filter: None, join_type: join.join_type, projection: None }
                    .schema(&left.schema(), &right.schema());
                let names: Vec<String> =
                    projection.iter().map(|i| format!("{}@{}", all.fields[*i].name, i)).collect();
                line.push_str(&format!(", projection=[{}]", names.join(", ")));
            }
            out.push(line);
            show_plan(left, indent + 2, out);
            show_plan(right, indent + 2, out);
        }
        Plan::Projection { exprs, input, .. } => {
            let exprs: Vec<String> =
                exprs.iter().map(|e| format!("{} as {}", show(&e.expr), e.alias)).collect();
            out.push(format!("{start}ProjectionExec: expr=[{}]", exprs.join(", ")));
            show_plan(input, indent + 2, out);
        }
        Plan::Other { children, .. } => {
            out.push(format!("{start}EmptyExec"));
            for child in children {
                show_plan(child, indent + 2, out);
            }
        }
        other => panic!("unexpected operator {other:?}"),
    }
}

fn displayed(plan: &Plan) -> String {
    let mut out = Vec::new();
    show_plan(plan, 0, &mut out);
    out.join("\n")
}

fn empty(operator: u64, schema: &Schema) -> Arc<Plan> {
    Arc::new(Plan::Other { operator, schema: Arc::new(schema.clone()), children: vec![] })
}

fn join_filter(
    left_schema: &Schema,
    right_schema: &Schema,
    column_indices: Vec<ColumnIndex>,
    expression: Arc<Expr>,
) -> JoinFilter {
    let fields = column_indices
        .iter()
        .map(|ci| match ci.side {
            JoinSide::Left => left_schema.fields[ci.index].clone(),
            JoinSide::Right => right_schema.fields[ci.index].clone(),
        })
        .collect();
    JoinFilter { expression, column_indices, schema: Schema::new(fields) }
}

fn join_plan(
    left_schema: &Schema,
    right_schema: &Schema,
    column_indices: Vec<ColumnIndex>,
    existing_projections: Option<Vec<usize>>,
    filter_expr: Arc<Expr>,
    join_type: JoinType,
) -> Arc<Plan> {
    let filter = join_filter(left_schema, right_schema, column_indices, filter_expr);
    Arc::new(Plan::NestedLoopJoin {
        operator: Some(2),
        join: Arc::new(NestedLoopJoin {
            filter: Some(filter),
            join_type,
            projection: existing_projections,
        }),
        left: empty(0, left_schema),
        right: empty(1, right_schema),
    })
}

fn optimize(plan: &Arc<Plan>) -> Result<Arc<Plan>, PlanError> {
    assert!(plan.is_well_formed());
    let config = OptimizerOptions { enable_aggregate_expression_pushdown: false };
    let optimization = ProjectionPushdown::new().optimize(plan, &config)?;
    assert!(optimization.proposals.is_empty());
    let optimized = optimization.finish(&vec![]);
    assert!(optimized.is_well_formed());
    Ok(optimized)
}

fn run_test(
    left_schema: Schema,
    right_schema: Schema,
    column_indices: Vec<ColumnIndex>,
    existing_projections: Option<Vec<usize>>,
    filter_expr: Arc<Expr>,
    join_type: JoinType,
) -> String {
    let plan = join_plan(
        &left_schema,
        &right_schema,
        column_indices,
        existing_projections,
        filter_expr,
        join_type,
    );
    displayed(&optimize(&plan).unwrap())
}

fn int_fields(names: &[&str]) -> Schema {
    Schema::new(names.iter().map(|name| Field::new(name, INT32, false)).collect())
}

fn create_simple_schemas() -> (Schema, Schema) {
    (int_fields(&["a"]), int_fields(&["x"]))
}

fn create_complex_schemas() -> (Schema, Schema) {
    (int_fields(&["a", "b", "c"]), int_fields(&["x", "y", "z"]))
}

fn left(index: usize) -> ColumnIndex {
    ColumnIndex { index, side: JoinSide::Left }
}

fn right(index: usize) -> ColumnIndex {
    ColumnIndex { index, side: JoinSide::Right }
}

fn a_x() -> Vec<ColumnIndex> {
    vec![left(0), right(0)]
}

fn a_b_x_z() -> Vec<ColumnIndex> {
    vec![left(0), left(1), right(0), right(2)]
}

fn a_plus_one_greater_than_x_plus_one() -> Arc<Expr> {
    gt(plus(column("a", 0), lit(1)), plus(column("x", 1), lit(1)))
}

fn a_plus_rand_greater_than_x() -> Arc<Expr> {
    gt(plus(column("a", 0), rand()), column("x", 1))
}

fn a_greater_than_x() -> Arc<Expr> {
    gt(column("a", 0), column("x", 1))
}

fn a_plus_b_greater_than_x_plus_z() -> Arc<Expr> {
    gt(plus(column("a", 0), column("b", 1)), plus(column("x", 2), column("z", 3)))
}

#[test]
fn no_computation_does_not_project() {
    let (left_schema, right_schema) = create_simple_schemas();
    let optimized_plan = run_test(
        left_schema,
        right_schema,
        a_x(),
        None,
        a_greater_than_x(),
        JoinType::Inner,
    );
    assert_eq!(
        optimized_plan,
        [
            "NestedLoopJoinExec: join_type=Inner, filter=a@0 > x@1",
            "  EmptyExec",
            "  EmptyExec",
        ]
        .join("\n")
    );
}

#[test]
fn simple_push_down() {
    let (left_schema, right_schema) = create_simple_schemas();
    let optimized_plan = run_test(
        left_schema,
        right_schema,
        a_x(),
        None,
        a_plus_one_greater_than_x_plus_one(),
        JoinType::Inner,
    );
    assert_eq!(
        optimized_plan,
        [
            "NestedLoopJoinExec: join_type=Inner, filter=join_proj_push_down_1@0 > join_proj_push_down_2@1, projection=[a@0, x@2]",
            "  ProjectionExec: expr=[a@0 as a, a@0 + 1 as join_proj_push_down_1]",
            "    EmptyExec",
            "  ProjectionExec: expr=[x@0 as x, x@0 + 1 as join_proj_push_down_2]",
            "    EmptyExec",
        ]
        .join("\n")
    );
}

#[test]
fn does_not_push_down_short_circuiting_expressions() {
    let (left_schema, right_schema) = create_simple_schemas();
    let optimized_plan = run_test(
        left_schema,
        right_schema,
        a_x(),
        None,
        and(lit_false(), a_plus_one_greater_than_x_plus_one()),
        JoinType::Inner,
    );
    assert_eq!(
        optimized_plan,
        [
            "NestedLoopJoinExec: join_type=Inner, filter=false AND join_proj_push_down_1@0 > join_proj_push_down_2@1, projection=[a@0, x@2]",
            "  ProjectionExec: expr=[a@0 as a, a@0 + 1 as join_proj_push_down_1]",
            "    EmptyExec",
            "  ProjectionExec: expr=[x@0 as x, x@0 + 1 as join_proj_push_down_2]",
            "    EmptyExec",
        ]
        .join("\n")
    );
}

#[test]
fn does_not_push_down_volatile_functions() {
    let (left_schema, right_schema) = create_simple_schemas();
    let optimized_plan = run_test(
        left_schema,
        right_schema,
        a_x(),
        None,
        a_plus_rand_greater_than_x(),
        JoinType::Inner,
    );
    assert_eq!(
        optimized_plan,
        [
            "NestedLoopJoinExec: join_type=Inner, filter=a@0 + rand() > x@1",
            "  EmptyExec",
            "  EmptyExec",
        ]
        .join("\n")
    );
}

#[test]
fn complex_schema_push_down() {
    let (left_schema, right_schema) = create_complex_schemas();
    let optimized_plan = run_test(
        left_schema,
        right_schema,
        a_b_x_z(),
        None,
        a_plus_b_greater_than_x_plus_z(),
        JoinType::Inner,
    );
    assert_eq!(
        optimized_plan,
        [
            "NestedLoopJoinExec: join_type=Inner, filter=join_proj_push_down_1@0 > join_proj_push_down_2@1, projection=[a@0, b@1, c@2, x@4, y@5, z@6]",
            "  ProjectionExec: expr=[a@0 as a, b@1 as b, c@2 as c, a@0 + b@1 as join_proj_push_down_1]",
            "    EmptyExec",
            "  ProjectionExec: expr=[x@0 as x, y@1 as y, z@2 as z, x@0 + z@2 as join_proj_push_down_2]",
            "    EmptyExec",
        ]
        .join("\n")
    );
}

#[test]
fn push_down_with_existing_projections() {
    let (left_schema, right_schema) = create_complex_schemas();
    let optimized_plan = run_test(
        left_schema,
        right_schema,
        a_b_x_z(),
        Some(vec![1, 3, 5]), // ("b", "x", "z")
        a_plus_b_greater_than_x_plus_z(),
        JoinType::Inner,
    );
    assert_eq!(
        optimized_plan,
        [
            "NestedLoopJoinExec: join_type=Inner, filter=join_proj_push_down_1@0 > join_proj_push_down_2@1, projection=[b@1, x@4, z@6]",
            "  ProjectionExec: expr=[a@0 as a, b@1 as b, c@2 as c, a@0 + b@1 as join_proj_push_down_1]",
            "    EmptyExec",
            "  ProjectionExec: expr=[x@0 as x, y@1 as y, z@2 as z, x@0 + z@2 as join_proj_push_down_2]",
            "    EmptyExec",
        ]
        .join("\n")
    );
}

#[test]
fn left_semi_join_projection() {
    let (left_schema, right_schema) = create_simple_schemas();
    let left_semi_join_plan = run_test(
        left_schema,
        right_schema,
        a_x(),
        None,
        a_plus_one_greater_than_x_plus_one(),
        JoinType::LeftSemi,
    );
    assert_eq!(
        left_semi_join_plan,
        [
            "NestedLoopJoinExec: join_type=LeftSemi, filter=join_proj_push_down_1@0 > join_proj_push_down_2@1, projection=[a@0]",
            "  ProjectionExec: expr=[a@0 as a, a@0 + 1 as join_proj_push_down_1]",
            "    EmptyExec",
            "  ProjectionExec: expr=[x@0 as x, x@0 + 1 as join_proj_push_down_2]",
            "    EmptyExec",
        ]
        .join("\n")
    );
}

#[test]
fn right_semi_join_projection() {
    let (left_schema, right_schema) = create_simple_schemas();
    let right_semi_join_plan = run_test(
        left_schema,
        right_schema,
        a_x(),
        None,
        a_plus_one_greater_than_x_plus_one(),
        JoinType::RightSemi,
    );
    assert_eq!(
        right_semi_join_plan,
        [
            "NestedLoopJoinExec: join_type=RightSemi, filter=join_proj_push_down_1@0 > join_proj_push_down_2@1, projection=[x@0]",
            "  ProjectionExec: expr=[a@0 as a, a@0 + 1 as join_proj_push_down_1]",
            "    EmptyExec",
            "  ProjectionExec: expr=[x@0 as x, x@0 + 1 as join_proj_push_down_2]",
            "    EmptyExec",
        ]
        .join("\n")
    );
}

#[test]
fn anti_joins_keep_the_columns_of_their_side() {
    for (join_type, name, kept) in
        [(JoinType::LeftAnti, "LeftAnti", "a@0"), (JoinType::RightAnti, "RightAnti", "x@0")]
    {
        let (left_schema, right_schema) = create_simple_schemas();
        let plan = run_test(
            left_schema,
            right_schema,
            a_x(),
            None,
            a_plus_one_greater_than_x_plus_one(),
            join_type,
        );
        assert_eq!(
            plan.lines().next().unwrap(),
            format!("NestedLoopJoinExec: join_type={name}, filter=join_proj_push_down_1@0 > join_proj_push_down_2@1, projection=[{kept}]")
        );
    }
}

#[test]
fn mark_joins_stay_as_they_are() {
    for join_type in [JoinType::LeftMark, JoinType::RightMark] {
        let (left_schema, right_schema) = create_simple_schemas();
        let plan = join_plan(
            &left_schema,
            &right_schema,
            a_x(),
            None,
            a_plus_one_greater_than_x_plus_one(),
            join_type,
        );
        assert_eq!(displayed(&optimize(&plan).unwrap()), displayed(&plan));
    }
}

#[test]
fn join_without_filter_stays_as_it_is() {
    let (left_schema, right_schema) = create_simple_schemas();
    let join = NestedLoopJoin { filter: None, join_type: JoinType::Inner, projection: None };
    let (left, right) = (empty(0, &left_schema), empty(1, &right_schema));
    let plan = Arc::new(Plan::NestedLoopJoin {
        operator: Some(2),
        join: Arc::new(join),
        left: Arc::clone(&left),
        right: Arc::clone(&right),
    });
    let mut aliases = Aliases::new();
    if let Plan::NestedLoopJoin { join, .. } = &*plan {
        let result = try_push_down_join_filter(&plan, join, &left, &right, &mut aliases).unwrap();
        assert!(!result.transformed);
        assert!(Arc::ptr_eq(&result.data, &plan));
    }
    assert_eq!(aliases.next("next"), "next_1");
}

#[test]
fn volatile_part_stays_and_the_rest_is_pushed() {
    let (left_schema, right_schema) = create_simple_schemas();
    let filter = gt(plus(plus(column("a", 0), lit(1)), rand()), column("x", 1));
    let plan = run_test(left_schema, right_schema, a_x(), None, filter, JoinType::Inner);
    assert_eq!(
        plan,
        [
            "NestedLoopJoinExec: join_type=Inner, filter=join_proj_push_down_1@1 + rand() > x@0, projection=[a@0, x@2]",
            "  ProjectionExec: expr=[a@0 as a, a@0 + 1 as join_proj_push_down_1]",
            "    EmptyExec",
            "  EmptyExec",
        ]
        .join("\n")
    );
}

#[test]
fn filter_on_one_side_alone_becomes_a_column() {
    let (left_schema, right_schema) = create_simple_schemas();
    let filter = gt(plus(column("x", 1), lit(1)), lit(3));
    let plan = run_test(left_schema, right_schema, a_x(), None, filter, JoinType::Inner);
    assert_eq!(
        plan,
        [
            "NestedLoopJoinExec: join_type=Inner, filter=join_proj_push_down_1@0, projection=[a@0, x@1]",
            "  EmptyExec",
            "  ProjectionExec: expr=[x@0 as x, x@0 + 1 > 3 as join_proj_push_down_1]",
            "    EmptyExec",
        ]
        .join("\n")
    );
}

#[test]
fn every_occurrence_is_pushed_on_its_own() {
    let (left_schema, right_schema) = create_simple_schemas();
    let part = || plus(column("a", 0), lit(1));
    let filter = and(gt(part(), column("x", 1)), gt(column("x", 1), part()));
    let plan = run_test(left_schema, right_schema, a_x(), None, filter, JoinType::Inner);
    assert_eq!(
        plan.lines().take(2).collect::<Vec<_>>(),
        vec![
            "NestedLoopJoinExec: join_type=Inner, filter=join_proj_push_down_1@1 > x@0 AND x@0 > join_proj_push_down_2@2, projection=[a@0, x@3]",
            "  ProjectionExec: expr=[a@0 as a, a@0 + 1 as join_proj_push_down_1, a@0 + 1 as join_proj_push_down_2]",
        ]
    );
}

#[test]
fn joins_below_joins_share_the_aliases() {
    let (left_schema, right_schema) = create_simple_schemas();
    let inner = join_plan(
        &left_schema,
        &right_schema,
        a_x(),
        None,
        a_plus_one_greater_than_x_plus_one(),
        JoinType::Inner,
    );
    let other = int_fields(&["p"]);
    let filter = join_filter(
        &inner.schema(),
        &other,
        vec![left(1), right(0)],
        gt(plus(column("x", 0), lit(1)), column("p", 1)),
    );
    let plan = Arc::new(Plan::NestedLoopJoin {
        operator: Some(4),
        join: Arc::new(NestedLoopJoin {
            filter: Some(filter),
            join_type: JoinType::Left,
            projection: None,
        }),
        left: inner,
        right: empty(3, &other),
    });
    assert_eq!(
        displayed(&optimize(&plan).unwrap()),
        [
            "NestedLoopJoinExec: join_type=Left, filter=join_proj_push_down_3@1 > p@0, projection=[a@0, x@1, p@3]",
            "  ProjectionExec: expr=[a@0 as a, x@1 as x, x@1 + 1 as join_proj_push_down_3]",
            "    NestedLoopJoinExec: join_type=Inner, filter=join_proj_push_down_1@0 > join_proj_push_down_2@1, projection=[a@0, x@2]",
            "      ProjectionExec: expr=[a@0 as a, a@0 + 1 as join_proj_push_down_1]",
            "        EmptyExec",
            "      ProjectionExec: expr=[x@0 as x, x@0 + 1 as join_proj_push_down_2]",
            "        EmptyExec",
            "  EmptyExec",
        ]
        .join("\n")
    );
}

#[test]
fn second_run_changes_nothing() {
    let (left_schema, right_schema) = create_complex_schemas();
    let plan = join_plan(
        &left_schema,
        &right_schema,
        a_b_x_z(),
        None,
        a_plus_b_greater_than_x_plus_z(),
        JoinType::Full,
    );
    let once = optimize(&plan).unwrap();
    let twice = optimize(&once).unwrap();
    assert_eq!(displayed(&twice), displayed(&once));
    assert_ne!(displayed(&once), displayed(&plan));
}

#[test]
fn columns_of_the_join_stay() {
    for join_type in [
        JoinType::Inner,
        JoinType::Left,
        JoinType::Right,
        JoinType::Full,
        JoinType::LeftSemi,
        JoinType::RightSemi,
        JoinType::LeftAnti,
        JoinType::RightAnti,
        JoinType::LeftMark,
        JoinType::RightMark,
    ] {
        let (left_schema, right_schema) = create_complex_schemas();
        let plan = join_plan(
            &left_schema,
            &right_schema,
            a_b_x_z(),
            None,
            a_plus_b_greater_than_x_plus_z(),
            join_type,
        );
        assert!(optimize(&plan).unwrap().schema().same_schema(&plan.schema()));
    }
}

#[test]
fn right_semi_and_anti_joins_keep_columns_of_the_right_input() {
    // Columns that are added to the left input move nothing: only right columns are returned.
    let left_schema = int_fields(&["a"]);
    let right_schema = int_fields(&["x", "y"]);
    for (join_type, name) in
        [(JoinType::RightSemi, "RightSemi"), (JoinType::RightAnti, "RightAnti")]
    {
        let plan = join_plan(
            &left_schema,
            &right_schema,
            a_x(),
            Some(vec![1]),
            a_plus_one_greater_than_x_plus_one(),
            join_type,
        );
        let optimized = optimize(&plan).unwrap();
        assert!(optimized.schema().same_schema(&plan.schema()));
        assert_eq!(
            displayed(&optimized),
            [
                &format!("NestedLoopJoinExec: join_type={name}, filter=join_proj_push_down_1@0 > join_proj_push_down_2@1, projection=[y@1]"),
                "  ProjectionExec: expr=[a@0 as a, a@0 + 1 as join_proj_push_down_1]",
                "    EmptyExec",
                "  ProjectionExec: expr=[x@0 as x, y@1 as y, x@0 + 1 as join_proj_push_down_2]",
                "    EmptyExec",
            ]
            .join("\n")
        );
    }
}

#[test]
fn right_semi_join_keeps_its_last_column() {
    let (left_schema, right_schema) = (int_fields(&["a"]), int_fields(&["x", "y"]));
    let filter = gt(plus(column("a", 0), lit(1)), column("x", 1));
    let plan = join_plan(
        &left_schema,
        &right_schema,
        a_x(),
        Some(vec![1]),
        filter,
        JoinType::RightSemi,
    );
    assert_eq!(optimize(&plan).unwrap().schema().fields[0].name, "y");
}

#[test]
fn right_semi_join_keeps_low_columns() {
    let left_schema = int_fields(&["a", "b"]);
    let right_schema = int_fields(&["x", "y", "z"]);
    let plan = join_plan(
        &left_schema,
        &right_schema,
        a_x(),
        Some(vec![1, 0]),
        a_plus_one_greater_than_x_plus_one(),
        JoinType::RightSemi,
    );
    assert!(optimize(&plan).unwrap().schema().same_schema(&plan.schema()));
}

#[test]
fn minimized_filter_has_only_the_columns_it_looks_at() {
    let (left_schema, right_schema) = create_complex_schemas();
    let indices = vec![left(2), right(1), left(0), right(2), right(0)];
    let expr = gt(column("z", 3), plus(column("y", 1), column("z", 3)));
    let filter = minimize_join_filter(&expr, &indices, &left_schema, &right_schema);
    assert_eq!(show(&filter.expression), "z@1 > y@0 + z@1");
    assert_eq!(filter.column_indices, vec![right(1), right(2)]);
    let names: Vec<&str> = filter.schema.fields.iter().map(|f| f.name.as_str()).collect();
    assert_eq!(names, vec!["y", "z"]);
}

#[test]
fn push_down_into_one_side() {
    let (left_schema, right_schema) = create_complex_schemas();
    let filter = join_filter(
        &left_schema,
        &right_schema,
        a_b_x_z(),
        a_plus_b_greater_than_x_plus_z(),
    );
    let mut aliases = Aliases::new();
    let result = try_push_down_projection(
        &left_schema,
        &empty(1, &right_schema),
        JoinSide::Right,
        filter,
        &mut aliases,
    );
    assert!(result.transformed);
    let (plan, filter) = result.data;
    assert_eq!(show(&filter.expression), "a@0 + b@1 > join_proj_push_down_1@4");
    assert_eq!(filter.column_indices, [a_b_x_z(), vec![right(3)]].concat());
    let names: Vec<&str> = filter.schema.fields.iter().map(|f| f.name.as_str()).collect();
    assert_eq!(names, vec!["a", "b", "x", "z", "join_proj_push_down_1"]);
    assert_eq!(
        displayed(&plan),
        "ProjectionExec: expr=[x@0 as x, y@1 as y, z@2 as z, x@0 + z@2 as join_proj_push_down_1]\n  EmptyExec"
    );
    assert_eq!(aliases.next("next"), "next_2");
}

#[test]
fn nothing_to_push_into_a_side() {
    let (left_schema, right_schema) = create_simple_schemas();
    let filter = join_filter(&left_schema, &right_schema, a_x(), a_greater_than_x());
    let input = empty(0, &left_schema);
    let mut aliases = Aliases::new();
    let result =
        try_push_down_projection(&right_schema, &input, JoinSide::Left, filter, &mut aliases);
    assert!(!result.transformed);
    assert!(Arc::ptr_eq(&result.data.0, &input));
    assert_eq!(show(&result.data.1.expression), "a@0 > x@1");
    assert_eq!(aliases.next("next"), "next_1");
}

#[test]
fn rewriter_tells_the_sides_apart() {
    let (left_schema, _) = create_simple_schemas();
    let rewriter = JoinFilterRewriter::new(JoinSide::Left, &left_schema, a_x());
    let both = a_greater_than_x();
    assert!(rewriter.depends_on_join_side(&both, JoinSide::Left));
    assert!(rewriter.depends_on_join_side(&both, JoinSide::Right));
    let one = plus(column("a", 0), lit(1));
    assert!(rewriter.depends_on_join_side(&one, JoinSide::Left));
    assert!(!rewriter.depends_on_join_side(&one, JoinSide::Right));
    assert!(!rewriter.depends_on_join_side(&lit(1), JoinSide::Left));
}

#[test]
fn rewriter_adds_columns() {
    let (left_schema, _) = create_complex_schemas();
    let indices = vec![right(0), left(2)];
    let mut rewriter = JoinFilterRewriter::new(JoinSide::Left, &left_schema, indices);
    let expr = plus(column("other name", 1), lit(1));
    let position = rewriter.create_new_column("fresh".to_string(), &expr);
    assert_eq!(position, 2);
    assert_eq!(rewriter.intermediate_column_indices, vec![right(0), left(2), left(3)]);
    let last = rewriter.join_side_projections.last().unwrap();
    assert_eq!(show(&last.expr), "c@2 + 1");
    assert_eq!(last.alias, "fresh");
}

#[test]
fn second_rewrite_on_the_same_rewriter_changes_nothing() {
    let (left_schema, _) = create_complex_schemas();
    let indices = a_b_x_z();
    let mut rewriter = JoinFilterRewriter::new(JoinSide::Left, &left_schema, indices);
    let mut aliases = Aliases::new();
    let once = rewriter.rewrite(&a_plus_b_greater_than_x_plus_z(), &mut aliases);
    assert!(once.transformed);
    assert_eq!(show(&once.data), "join_proj_push_down_1@4 > x@2 + z@3");
    assert_eq!(rewriter.join_side_projections.len(), 4);
    let twice = rewriter.rewrite(&once.data, &mut aliases);
    assert!(!twice.transformed);
    assert!(Arc::ptr_eq(&twice.data, &once.data));
    assert_eq!(rewriter.join_side_projections.len(), 4);
    assert_eq!(rewriter.intermediate_column_indices, [a_b_x_z(), vec![left(3)]].concat());
    assert_eq!(aliases.next("next"), "next_2");
}

#[test]
fn call_without_arguments_is_not_pushed() {
    let (left_schema, right_schema) = create_simple_schemas();
    let now = call(PLUS + 100, INT32, vec![]);
    let filter = join_filter(&left_schema, &right_schema, a_x(), now);
    let mut aliases = Aliases::new();
    let result = try_push_down_projection(
        &right_schema,
        &empty(0, &left_schema),
        JoinSide::Left,
        filter,
        &mut aliases,
    );
    assert!(!result.transformed);
}

#[test]
fn plans_that_point_behind_their_inputs_are_not_well_formed() {
    let (left_schema, right_schema) = create_simple_schemas();
    let behind_intermediate_row = join_plan(
        &left_schema,
        &right_schema,
        a_x(),
        None,
        gt(column("a", 0), column("x", 2)),
        JoinType::Inner,
    );
    assert!(!behind_intermediate_row.is_well_formed());
    let behind_join = join_plan(
        &left_schema,
        &right_schema,
        a_x(),
        Some(vec![1]),
        a_greater_than_x(),
        JoinType::LeftSemi,
    );
    assert!(!behind_join.is_well_formed());
}
