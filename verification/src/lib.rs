pub mod aggregate;
pub mod aggregate_choice_laws;
pub mod aggregate_laws;
pub mod aggregate_push_down;
pub mod aggregate_rewrite;
pub mod aliases;
pub mod expr;
pub mod join;
pub mod join_filter;
pub mod join_laws;
pub mod join_push_down;
pub mod join_tree_laws;
pub mod kept_column_laws;
pub mod nodes;
pub mod parts;
pub mod plan;
pub mod plan_laws;
pub mod projection;
pub mod rewriter;
pub mod rewriter_laws;
pub mod row_laws;
pub mod rule;
pub mod rule_laws;
pub mod schema;
pub mod semantics;
pub mod visit_laws;
