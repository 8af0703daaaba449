use crate::expr::{stays_within, Expr, ExprView};
use crate::schema::{field_views, DataType, Field, FieldView, Schema};
use std::sync::Arc;
use vstd::prelude::*;

verus! {

/// An input of a join.
#[derive(Clone, Copy, Debug, PartialEq, Eq, Structural)]
pub enum JoinSide {
    Left,
    Right,
}

impl JoinSide {
    /// The opposite side.
    pub open spec fn opposite(self) -> JoinSide {
        match self {
            JoinSide::Left => JoinSide::Right,
            JoinSide::Right => JoinSide::Left,
        }
    }

    /// The opposite side.
    pub fn negate(self) -> (side: JoinSide)
        ensures
            side == self.opposite(),
    {
        match self {
            JoinSide::Left => JoinSide::Right,
            JoinSide::Right => JoinSide::Left,
        }
    }
}

/// Which pairs of rows, and which unpaired rows, a join returns.
#[derive(Clone, Copy, Debug, PartialEq, Eq, Structural)]
pub enum JoinType {
    Inner,
    Left,
    Right,
    Full,
    LeftSemi,
    RightSemi,
    LeftAnti,
    RightAnti,
    LeftMark,
    RightMark,
}

/// A column of one of the inputs of a join.
#[derive(Clone, Copy, Debug, PartialEq, Eq, Structural)]
pub struct ColumnIndex {
    pub index: usize,
    pub side: JoinSide,
}

impl ColumnIndex {
    /// Whether this is a column of one of two inputs with the given numbers of columns.
    pub open spec fn exists_in(self, left: int, right: int) -> bool {
        match self.side {
            JoinSide::Left => self.index < left,
            JoinSide::Right => self.index < right,
        }
    }
}

/// The condition of a join: an expression over an intermediate row. `column_indices` says which
/// column of which input each column of that row comes from, and `schema` describes the row.
#[derive(Debug)]
pub struct JoinFilter {
    pub expression: Arc<Expr>,
    pub column_indices: Vec<ColumnIndex>,
    pub schema: Schema,
}

/// The view of a [`JoinFilter`].
pub struct JoinFilterView {
    pub expression: ExprView,
    pub column_indices: Seq<ColumnIndex>,
    pub schema: Seq<FieldView>,
}

impl View for JoinFilter {
    type V = JoinFilterView;

    open spec fn view(&self) -> JoinFilterView {
        JoinFilterView {
            expression: self.expression@,
            column_indices: self.column_indices@,
            schema: self.schema@,
        }
    }
}

impl JoinFilterView {
    /// Whether the expression stays within the intermediate row and the intermediate row within
    /// two inputs with the given numbers of columns.
    pub open spec fn fits(self, left: int, right: int) -> bool {
        &&& self.expression.within(self.column_indices.len() as int)
        &&& forall|i: int|
            0 <= i < self.column_indices.len() ==> (#[trigger] self.column_indices[i]).exists_in(
                left,
                right,
            )
    }
}

impl JoinFilter {
    /// Whether the filter stays within two inputs with the given numbers of columns.
    pub fn stays_within(&self, left: usize, right: usize) -> (result: bool)
        ensures
            result == self@.fits(left as int, right as int),
    {
        if !stays_within(&self.expression, self.column_indices.len()) {
            return false;
        }
        for i in 0..self.column_indices.len()
            invariant
                forall|j: int|
                    0 <= j < i ==> (#[trigger] self.column_indices@[j]).exists_in(
                        left as int,
                        right as int,
                    ),
        {
            let column = self.column_indices[i];
            let width = match column.side {
                JoinSide::Left => left,
                JoinSide::Right => right,
            };
            if column.index >= width {
                assert(!self@.column_indices[i as int].exists_in(left as int, right as int));
                return false;
            }
        }
        true
    }
}

impl Clone for JoinFilter {
    fn clone(&self) -> (filter: Self)
        ensures
            filter@ == self@,
    {
        let mut column_indices: Vec<ColumnIndex> = Vec::new();
        for i in 0..self.column_indices.len()
            invariant
                column_indices@ == self.column_indices@.take(i as int),
        {
            column_indices.push(self.column_indices[i]);
        }
        assert(column_indices@ =~= self.column_indices@);
        JoinFilter {
            expression: Arc::clone(&self.expression),
            column_indices,
            schema: self.schema.clone(),
        }
    }
}

/// A nested loop join, without its inputs: which rows are paired, and which columns of the result
/// are kept, in which order.
#[derive(Debug)]
pub struct NestedLoopJoin {
    pub filter: Option<JoinFilter>,
    pub join_type: JoinType,
    pub projection: Option<Vec<usize>>,
}

/// The view of a [`NestedLoopJoin`].
pub struct NestedLoopJoinView {
    pub filter: Option<JoinFilterView>,
    pub join_type: JoinType,
    pub projection: Option<Seq<usize>>,
}

impl View for NestedLoopJoin {
    type V = NestedLoopJoinView;

    open spec fn view(&self) -> NestedLoopJoinView {
        NestedLoopJoinView {
            filter: match self.filter {
                Some(filter) => Some(filter@),
                None => None,
            },
            join_type: self.join_type,
            projection: match self.projection {
                Some(projection) => Some(projection@),
                None => None,
            },
        }
    }
}

/// The fields with null allowed in all of them.
pub open spec fn padded(fields: Seq<FieldView>) -> Seq<FieldView> {
    fields.map_values(|field: FieldView| FieldView { nullable: true, ..field })
}

/// The column that tells whether a row found a match.
pub open spec fn mark_field() -> FieldView {
    FieldView { name: "mark"@, data_type: DataType::Boolean, nullable: false }
}

/// All columns of the result of a join, before any are left out.
pub open spec fn join_fields(
    join_type: JoinType,
    left: Seq<FieldView>,
    right: Seq<FieldView>,
) -> Seq<FieldView> {
    match join_type {
        JoinType::Inner => left + right,
        JoinType::Left => left + padded(right),
        JoinType::Right => padded(left) + right,
        JoinType::Full => padded(left) + padded(right),
        JoinType::LeftSemi | JoinType::LeftAnti => left,
        JoinType::RightSemi | JoinType::RightAnti => right,
        JoinType::LeftMark => left.push(mark_field()),
        JoinType::RightMark => right.push(mark_field()),
    }
}

impl NestedLoopJoinView {
    /// The columns of the result.
    pub open spec fn fields(self, left: Seq<FieldView>, right: Seq<FieldView>) -> Seq<FieldView> {
        let all = join_fields(self.join_type, left, right);
        match self.projection {
            Some(projection) => projection.map_values(|i: usize| all[i as int]),
            None => all,
        }
    }

    /// Whether the filter and the kept columns stay within inputs with the given fields.
    pub open spec fn fits(self, left: Seq<FieldView>, right: Seq<FieldView>) -> bool {
        &&& self.filter matches Some(filter) ==> filter.fits(left.len() as int, right.len() as int)
        &&& self.projection matches Some(projection) ==> projection_fits(
            projection,
            join_fields(self.join_type, left, right).len() as int,
        )
    }
}

/// Whether all positions are below `width`.
pub open spec fn projection_fits(projection: Seq<usize>, width: int) -> bool {
    forall|i: int| 0 <= i < projection.len() ==> #[trigger] projection[i] < width
}

/// Whether all positions are below `width`.
pub fn can_project(projection: &Vec<usize>, width: usize) -> (result: bool)
    ensures
        result == projection_fits(projection@, width as int),
{
    for i in 0..projection.len()
        invariant
            forall|j: int| 0 <= j < i ==> #[trigger] projection@[j] < width,
    {
        if projection[i] >= width {
            return false;
        }
    }
    true
}

/// Appends the fields of one input, with null allowed in all of them if `pad` is set.
fn append_fields(fields: &mut Vec<Field>, input: &Schema, pad: bool)
    ensures
        field_views(final(fields)@) == field_views(old(fields)@) + (if pad {
            padded(input@)
        } else {
            input@
        }),
{
    let ghost added = if pad {
        padded(input@)
    } else {
        input@
    };
    assert(field_views(fields@) =~= field_views(old(fields)@) + added.take(0));
    for i in 0..input.fields.len()
        invariant
            added == (if pad {
                padded(input@)
            } else {
                input@
            }),
            field_views(fields@) == field_views(old(fields)@) + added.take(i as int),
    {
        let ghost before = fields@;
        let mut field = input.fields[i].clone();
        if pad {
            field.nullable = true;
        }
        fields.push(field);
        assert(field_views(fields@) =~= field_views(before).push(field@));
        assert(field@ == added[i as int]);
        assert(added.take(i + 1) =~= added.take(i as int).push(field@));
        assert(field_views(fields@) =~= field_views(old(fields)@) + added.take(i + 1));
    }
    assert(added.take(input.fields.len() as int) =~= added);
}

/// All columns of the result of a join, before any are left out.
pub fn build_join_schema(left: &Schema, right: &Schema, join_type: JoinType) -> (schema: Schema)
    ensures
        schema@ == join_fields(join_type, left@, right@),
{
    let mut fields: Vec<Field> = Vec::new();
    match join_type {
        JoinType::Inner | JoinType::Left | JoinType::Right | JoinType::Full => {
            let pad_left = matches!(join_type, JoinType::Right | JoinType::Full);
            let pad_right = matches!(join_type, JoinType::Left | JoinType::Full);
            append_fields(&mut fields, left, pad_left);
            append_fields(&mut fields, right, pad_right);
        },
        JoinType::LeftSemi | JoinType::LeftAnti => append_fields(&mut fields, left, false),
        JoinType::RightSemi | JoinType::RightAnti => append_fields(&mut fields, right, false),
        JoinType::LeftMark => {
            append_fields(&mut fields, left, false);
            fields.push(Field::new("mark", DataType::Boolean, false));
        },
        JoinType::RightMark => {
            append_fields(&mut fields, right, false);
            fields.push(Field::new("mark", DataType::Boolean, false));
        },
    }
    let schema = Schema { fields };
    assert(schema@ =~= join_fields(join_type, left@, right@));
    schema
}

impl NestedLoopJoin {
    /// The columns of the result.
    pub fn schema(&self, left: &Schema, right: &Schema) -> (schema: Schema)
        requires
            self@.fits(left@, right@),
        ensures
            schema@ == self@.fields(left@, right@),
    {
        let all = build_join_schema(left, right, self.join_type);
        match &self.projection {
            None => all,
            Some(projection) => {
                let mut fields: Vec<Field> = Vec::new();
                for i in 0..projection.len()
                    invariant
                        projection_fits(projection@, all@.len() as int),
                        fields.len() == i,
                        forall|j: int|
                            0 <= j < i ==> (#[trigger] fields@[j])@ == all@[projection@[j] as int],
                {
                    fields.push(all.fields[projection[i]].clone());
                }
                let schema = Schema { fields };
                assert(schema@ =~= self@.fields(left@, right@));
                schema
            },
        }
    }

    /// Whether the filter and the kept columns stay within inputs with the given schemas.
    pub fn stays_within(&self, left: &Schema, right: &Schema) -> (result: bool)
        ensures
            result == self@.fits(left@, right@),
    {
        assert(left@.len() == left.fields.len());
        assert(right@.len() == right.fields.len());
        if let Some(filter) = &self.filter {
            if !filter.stays_within(left.fields.len(), right.fields.len()) {
                return false;
            }
        }
        if let Some(projection) = &self.projection {
            let all = build_join_schema(left, right, self.join_type);
            assert(all@.len() == all.fields.len());
            return can_project(projection, all.fields.len());
        }
        true
    }
}

} // verus!
