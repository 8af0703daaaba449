use vstd::prelude::*;

verus! {

/// The type of a column. Only the boolean type is told apart: the others are named by a number
/// that the owner of the plan chooses, one number for each type.
#[derive(Clone, Copy, Debug, PartialEq, Eq, Structural)]
pub enum DataType {
    Boolean,
    Other(u64),
}

/// A named, typed column of a schema.
#[derive(Debug)]
pub struct Field {
    pub name: String,
    pub data_type: DataType,
    pub nullable: bool,
}

/// The view of a [`Field`].
pub struct FieldView {
    pub name: Seq<char>,
    pub data_type: DataType,
    pub nullable: bool,
}

impl View for Field {
    type V = FieldView;

    open spec fn view(&self) -> FieldView {
        FieldView { name: self.name@, data_type: self.data_type, nullable: self.nullable }
    }
}

impl Field {
    /// A column with the given name and type.
    pub fn new(name: &str, data_type: DataType, nullable: bool) -> (field: Self)
        ensures
            field@ == (FieldView { name: name@, data_type, nullable }),
    {
        Field { name: name.to_owned(), data_type, nullable }
    }
}

impl Clone for Field {
    fn clone(&self) -> (field: Self)
        ensures
            field@ == self@,
    {
        Field { name: self.name.clone(), data_type: self.data_type, nullable: self.nullable }
    }
}

/// The columns of a plan's output, in order.
#[derive(Debug)]
pub struct Schema {
    pub fields: Vec<Field>,
}

/// The views of several fields.
pub open spec fn field_views(fields: Seq<Field>) -> Seq<FieldView> {
    fields.map_values(|field: Field| field@)
}

impl View for Schema {
    type V = Seq<FieldView>;

    open spec fn view(&self) -> Seq<FieldView> {
        field_views(self.fields@)
    }
}

/// Whether one of the fields has the given name.
pub open spec fn has_name(fields: Seq<FieldView>, name: Seq<char>) -> bool {
    exists|i: int| 0 <= i < fields.len() && (#[trigger] fields[i]).name == name
}

impl Schema {
    /// A schema of the given columns.
    pub fn new(fields: Vec<Field>) -> (schema: Self)
        ensures
            schema@ == field_views(fields@),
    {
        Schema { fields }
    }

    /// Whether one of the fields has the given name.
    pub fn contains_name(&self, name: &String) -> (result: bool)
        ensures
            result == has_name(self@, name@),
    {
        for i in 0..self.fields.len()
            invariant
                forall|j: int| 0 <= j < i ==> (#[trigger] self@[j]).name != name@,
        {
            if self.fields[i].name == *name {
                assert(self@[i as int].name == name@);
                return true;
            }
        }
        false
    }

    /// Whether two schemas have the same fields in the same order.
    pub fn same_schema(&self, other: &Schema) -> (result: bool)
        ensures
            result == (self@ == other@),
    {
        if self.fields.len() != other.fields.len() {
            assert(self@.len() != other@.len());
            return false;
        }
        for i in 0..self.fields.len()
            invariant
                self.fields.len() == other.fields.len(),
                forall|j: int| 0 <= j < i ==> (#[trigger] self@[j]) == other@[j],
        {
            let left = &self.fields[i];
            let right = &other.fields[i];
            if left.data_type != right.data_type || left.nullable != right.nullable || left.name
                != right.name {
                assert(self@[i as int] != other@[i as int]);
                return false;
            }
        }
        assert(self@ =~= other@);
        true
    }
}

impl Clone for Schema {
    fn clone(&self) -> (schema: Self)
        ensures
            schema@ == self@,
    {
        let mut fields: Vec<Field> = Vec::new();
        for i in 0..self.fields.len()
            invariant
                fields.len() == i,
                forall|j: int| 0 <= j < i ==> (#[trigger] fields@[j])@ == self@[j],
        {
            fields.push(self.fields[i].clone());
        }
        let schema = Schema { fields };
        assert(schema@ =~= self@);
        schema
    }
}

} // verus!
