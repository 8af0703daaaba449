//! Holds what the library says about joins, aliases and expressions against DataFusion.

use arrow::datatypes::DataType as ArrowType;
use datafusion_common::alias::AliasGenerator;
use datafusion_physical_plan::joins::utils::build_join_schema as datafusion_join_schema;
use projection_pushdown::aliases::Aliases;
use projection_pushdown::expr::{
    is_volatile, reads_any_column, same_expr, stays_within, Column, Expr, Function, Literal,
};
use projection_pushdown::join::{build_join_schema, JoinSide, JoinType};
use projection_pushdown::schema::{DataType, Field, Schema};
use std::sync::Arc;

fn arrow_schema(schema: &Schema) -> arrow::datatypes::Schema {
    let fields: Vec<arrow::datatypes::Field> = schema
        .fields
        .iter()
        .map(|field| {
            let data_type = match field.data_type {
                DataType::Boolean => ArrowType::Boolean,
                DataType::Other(_) => ArrowType::Int32,
            };
            arrow::datatypes::Field::new(&field.name, data_type, field.nullable)
        })
        .collect();
    arrow::datatypes::Schema::new(fields)
}

#[test]
fn join_schemas_agree() {
    let int = DataType::Other(32);
    let left = Schema::new(vec![Field::new("a", int, false), Field::new("b", int, true)]);
    let right = Schema::new(vec![
        Field::new("x", DataType::Boolean, false),
        Field::new("a", int, false),
    ]);
    let (arrow_left, arrow_right) = (arrow_schema(&left), arrow_schema(&right));
    for (join_type, theirs) in [
        (JoinType::Inner, datafusion_common::JoinType::Inner),
        (JoinType::Left, datafusion_common::JoinType::Left),
        (JoinType::Right, datafusion_common::JoinType::Right),
        (JoinType::Full, datafusion_common::JoinType::Full),
        (JoinType::LeftSemi, datafusion_common::JoinType::LeftSemi),
        (JoinType::RightSemi, datafusion_common::JoinType::RightSemi),
        (JoinType::LeftAnti, datafusion_common::JoinType::LeftAnti),
        (JoinType::RightAnti, datafusion_common::JoinType::RightAnti),
        (JoinType::LeftMark, datafusion_common::JoinType::LeftMark),
        (JoinType::RightMark, datafusion_common::JoinType::RightMark),
    ] {
        let ours = build_join_schema(&left, &right, join_type);
        let (expected, _) = datafusion_join_schema(&arrow_left, &arrow_right, &theirs);
        assert_eq!(arrow_schema(&ours), expected, "{join_type:?}");
    }
}

#[test]
fn sides_agree() {
    assert_eq!(JoinSide::Left.negate(), JoinSide::Right);
    assert_eq!(JoinSide::Right.negate(), JoinSide::Left);
    assert_eq!(datafusion_common::JoinSide::Left.negate(), datafusion_common::JoinSide::Right);
    assert_eq!(datafusion_common::JoinSide::Right.negate(), datafusion_common::JoinSide::Left);
}

#[test]
fn aliases_count_from_one() {
    let generator = AliasGenerator::new();
    let mut aliases = Aliases::new();
    assert_eq!(aliases.next("p"), "p_1");
    assert_eq!(aliases.next("q"), "q_2");
    generator.next("p");
    generator.next("q");
    for _ in 0..120 {
        assert_eq!(aliases.next("some_prefix"), generator.next("some_prefix"));
    }
    assert_eq!(aliases.next(""), "_123");
}

#[test]
fn free_aliases_are_no_names_of_fields() {
    let int = DataType::Other(32);
    let schema = Schema::new(vec![
        Field::new("p_1", int, false),
        Field::new("p_2", int, false),
        Field::new("p_4", int, false),
    ]);
    let mut aliases = Aliases::new();
    assert_eq!(aliases.next_free("p", &schema), "p_3");
    assert_eq!(aliases.next_free("p", &schema), "p_5");
    assert_eq!(aliases.next_free("q", &schema), "q_6");
}

#[test]
fn aliases_differ() {
    let mut aliases = Aliases::new();
    let mut all: Vec<String> = (0..1000).map(|_| aliases.next("a")).collect();
    all.sort();
    all.dedup();
    assert_eq!(all.len(), 1000);
}

fn call(id: u64, volatile: bool, args: Vec<Arc<Expr>>) -> Arc<Expr> {
    let function = Function { id, volatile, data_type: DataType::Other(1), nullable: false };
    Arc::new(Expr::Call { function, args })
}

fn column(name: &str, index: usize) -> Arc<Expr> {
    Arc::new(Expr::Column(Column::new(name, index)))
}

fn literal(value: u64) -> Arc<Expr> {
    Arc::new(Expr::Literal(Literal { value, data_type: DataType::Other(1), nullable: false }))
}

#[test]
fn volatility_is_found_at_any_depth() {
    let inner = call(1, false, vec![literal(1), call(2, true, vec![])]);
    assert!(is_volatile(&call(3, false, vec![column("a", 0), inner])));
    assert!(!is_volatile(&call(3, false, vec![column("a", 0), literal(1)])));
    assert!(!is_volatile(&column("a", 0)));
}

#[test]
fn columns_are_found_at_any_depth() {
    let deep = call(1, false, vec![literal(1), call(2, false, vec![column("a", 3)])]);
    assert!(reads_any_column(&deep));
    assert!(!reads_any_column(&call(1, false, vec![literal(1), call(2, false, vec![])])));
    assert!(stays_within(&deep, 4));
    assert!(!stays_within(&deep, 3));
    assert!(stays_within(&literal(1), 0));
}

#[test]
fn expressions_are_the_same_if_every_node_is() {
    let expr = |name: &str, value: u64| call(1, false, vec![column(name, 0), literal(value)]);
    assert!(same_expr(&expr("a", 1), &expr("a", 1)));
    assert!(!same_expr(&expr("a", 1), &expr("b", 1)));
    assert!(!same_expr(&expr("a", 1), &expr("a", 2)));
    assert!(!same_expr(&expr("a", 1), &call(2, false, vec![column("a", 0), literal(1)])));
    assert!(!same_expr(&expr("a", 1), &call(1, false, vec![column("a", 0)])));
    assert!(!same_expr(&column("a", 0), &literal(0)));
}
