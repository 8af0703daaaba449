use crate::expr::{Expr, ExprView};
use crate::schema::{Field, FieldView, Schema};
use std::sync::Arc;
use vstd::prelude::*;

verus! {

/// An output column of a projection: what is computed, and the name it gets.
#[derive(Debug)]
pub struct ProjectionExpr {
    pub expr: Arc<Expr>,
    pub alias: String,
}

/// The view of a [`ProjectionExpr`].
pub struct ProjectionExprView {
    pub expr: ExprView,
    pub alias: Seq<char>,
}

impl View for ProjectionExpr {
    type V = ProjectionExprView;

    open spec fn view(&self) -> ProjectionExprView {
        ProjectionExprView { expr: self.expr@, alias: self.alias@ }
    }
}

/// The views of several output columns.
pub open spec fn projection_views(exprs: Seq<ProjectionExpr>) -> Seq<ProjectionExprView> {
    exprs.map_values(|expr: ProjectionExpr| expr@)
}

impl ProjectionExprView {
    /// The field of the output column, computed from a row with the fields `input`. A call has the
    /// type and the nullability that its result has on such rows.
    pub open spec fn field(self, input: Seq<FieldView>) -> FieldView {
        match self.expr {
            ExprView::Column(column) => FieldView {
                name: self.alias,
                data_type: input[column.index].data_type,
                nullable: input[column.index].nullable,
            },
            ExprView::Literal(literal) => FieldView {
                name: self.alias,
                data_type: literal.data_type,
                nullable: literal.nullable,
            },
            ExprView::Call { function, .. } => FieldView {
                name: self.alias,
                data_type: function.data_type,
                nullable: function.nullable,
            },
        }
    }
}

/// The fields of the output of a projection.
pub open spec fn projected(
    exprs: Seq<ProjectionExprView>,
    input: Seq<FieldView>,
) -> Seq<FieldView> {
    exprs.map_values(|expr: ProjectionExprView| expr.field(input))
}

/// The fields of the output of a projection over an input with the schema `input`.
pub fn project_schema(exprs: &Vec<ProjectionExpr>, input: &Schema) -> (schema: Schema)
    requires
        forall|i: int|
            0 <= i < exprs.len() ==> (#[trigger] exprs@[i])@.expr.within(input@.len() as int),
    ensures
        schema@ == projected(projection_views(exprs@), input@),
{
    let mut fields: Vec<Field> = Vec::new();
    for i in 0..exprs.len()
        invariant
            forall|i: int|
                0 <= i < exprs.len() ==> (#[trigger] exprs@[i])@.expr.within(input@.len() as int),
            fields.len() == i,
            forall|j: int| 0 <= j < i ==> (#[trigger] fields@[j])@ == exprs@[j]@.field(input@),
    {
        let name = exprs[i].alias.clone();
        let field = match &*exprs[i].expr {
            Expr::Column(column) => {
                assert(exprs@[i as int]@.expr.reads(column.index as int));
                let field = &input.fields[column.index];
                Field { name, data_type: field.data_type, nullable: field.nullable }
            },
            Expr::Literal(literal) => Field {
                name,
                data_type: literal.data_type,
                nullable: literal.nullable,
            },
            Expr::Call { function, args: _ } => Field {
                name,
                data_type: function.data_type,
                nullable: function.nullable,
            },
        };
        fields.push(field);
    }
    let schema = Schema { fields };
    assert(schema@ =~= projected(projection_views(exprs@), input@));
    schema
}

} // verus!
