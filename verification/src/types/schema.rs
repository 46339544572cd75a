//! Named, typed columns.

use std::sync::Arc;
use vstd::prelude::*;

use crate::error::{BasaltError, ErrorKind};
use crate::types::data_type::DataType;

verus! {

/// One column of a schema.
#[derive(Debug, Clone, PartialEq, Eq)]
pub struct Field {
    pub name: String,
    pub data_type: DataType,
    pub nullable: bool,
}

/// The model of a field.
pub struct FieldView {
    pub name: Seq<char>,
    pub data_type: DataType,
    pub nullable: bool,
}

impl Field {
    pub open spec fn view(&self) -> FieldView {
        FieldView { name: self.name@, data_type: self.data_type, nullable: self.nullable }
    }

    pub fn new(name: &str, data_type: DataType, nullable: bool) -> (r: Field)
        ensures
            r@ == (FieldView { name: name@, data_type, nullable }),
    {
        Field { name: name.to_owned(), data_type, nullable }
    }

    pub fn copy(&self) -> (r: Field)
        ensures
            r == *self,
    {
        Field { name: self.name.clone(), data_type: self.data_type, nullable: self.nullable }
    }
}

/// An ordered list of fields.
#[derive(Debug, Clone, PartialEq, Eq)]
pub struct Schema {
    fields: Vec<Field>,
}

pub type SchemaRef = Arc<Schema>;

/// The models of a list of fields.
pub open spec fn field_views(fields: Seq<Field>) -> Seq<FieldView> {
    Seq::new(fields.len(), |i: int| fields[i]@)
}

/// Whether no two fields share a name.
pub open spec fn names_distinct(fields: Seq<FieldView>) -> bool {
    forall|i: int, j: int|
        0 <= i < j < fields.len() ==> (#[trigger] fields[i]).name != (#[trigger] fields[j]).name
}

/// The first field called `name`.
pub open spec fn first_named(fields: Seq<FieldView>, name: Seq<char>) -> Option<int>
    decreases fields.len(),
{
    if fields.len() == 0 {
        None
    } else if fields[0].name == name {
        Some(0int)
    } else {
        match first_named(fields.skip(1), name) {
            Some(i) => Some(i + 1),
            None => None,
        }
    }
}

impl Schema {
    pub closed spec fn view(&self) -> Seq<FieldView> {
        field_views(self.fields@)
    }

    /// A schema whose names are all different; with two fields of one name it
    /// is an error.
    pub fn new(fields: Vec<Field>) -> (r: Result<Schema, BasaltError>)
        ensures
            ({
                let views = field_views(fields@);
                match r {
                    Ok(s) => names_distinct(views) && s@ == views,
                    Err(e) => e@ == ErrorKind::Internal && !names_distinct(views),
                }
            }),
    {
        let ghost views = field_views(fields@);
        let mut i: usize = 0;
        while i < fields.len()
            invariant
                i <= fields@.len(),
                views == field_views(fields@),
                forall|a: int, b: int|
                    0 <= a < b < i ==> (#[trigger] views[a]).name != (#[trigger] views[b]).name,
            decreases fields@.len() - i,
        {
            let mut j: usize = 0;
            while j < i
                invariant
                    j <= i < fields@.len(),
                    views == field_views(fields@),
                    forall|a: int| 0 <= a < j ==> (#[trigger] views[a]).name != views[i as int].name,
                decreases i - j,
            {
                if fields[j].name == fields[i].name {
                    assert(views[j as int].name == views[i as int].name);
                    let mut message = "duplicate column name ".to_owned();
                    vstd::string::StringExecFns::append(&mut message, fields[i].name.as_str());
                    return Err(BasaltError::Internal(message));
                }
                j = j + 1;
            }
            i = i + 1;
        }
        let s = Schema { fields };
        assert(s@ =~= views);
        Ok(s)
    }

    /// A schema that may repeat names, as a join's output does.
    pub fn new_allow_duplicate_names(fields: Vec<Field>) -> (r: Schema)
        ensures
            r@ == field_views(fields@),
    {
        Schema { fields }
    }

    pub fn fields(&self) -> (r: &Vec<Field>)
        ensures
            field_views(r@) == self@,
            r@.len() == self@.len(),
            forall|i: int| 0 <= i < r@.len() ==> #[trigger] r@[i]@ == self@[i],
    {
        &self.fields
    }

    pub fn len(&self) -> (r: usize)
        ensures
            r == self@.len(),
    {
        self.fields.len()
    }

    pub fn field(&self, index: usize) -> (r: Option<&Field>)
        ensures
            match r {
                Some(f) => index < self@.len() && f@ == self@[index as int],
                None => index >= self@.len(),
            },
    {
        if index < self.fields.len() {
            Some(&self.fields[index])
        } else {
            None
        }
    }

    /// The position of the first field called `name`.
    pub fn index_of(&self, name: &str) -> (r: Option<usize>)
        ensures
            match r {
                Some(i) => first_named(self@, name@) == Some(i as int) && i < self@.len(),
                None => first_named(self@, name@) is None,
            },
    {
        let wanted = name.to_owned();
        let mut i: usize = 0;
        assert(self@.skip(0) =~= self@);
        while i < self.fields.len()
            invariant
                i <= self.fields@.len(),
                self@.len() == self.fields@.len(),
                wanted@ == name@,
                first_named(self@, name@) == (match first_named(self@.skip(i as int), name@) {
                    Some(k) => Some(k + i),
                    None => None,
                }),
            decreases self.fields@.len() - i,
        {
            assert(self@.skip(i as int)[0] == self.fields@[i as int]@);
            assert(self@.skip(i as int).skip(1) =~= self@.skip(i + 1));
            if self.fields[i].name == wanted {
                return Some(i);
            }
            i = i + 1;
        }
        None
    }

    /// A copy of the schema.
    pub fn copy(&self) -> (r: Schema)
        ensures
            r@ == self@,
    {
        let fields = copy_fields(&self.fields);
        let r = Schema { fields };
        assert(r@ =~= self@);
        r
    }
}

/// Copies a list of fields.
pub fn copy_fields(fields: &Vec<Field>) -> (r: Vec<Field>)
    ensures
        r@ == fields@,
{
    let mut out: Vec<Field> = Vec::new();
    let mut i: usize = 0;
    while i < fields.len()
        invariant
            i <= fields@.len(),
            out@ == fields@.take(i as int),
        decreases fields@.len() - i,
    {
        out.push(fields[i].copy());
        assert(fields@.take(i + 1) =~= fields@.take(i as int).push(fields@[i as int]));
        i = i + 1;
    }
    assert(out@ =~= fields@);
    out
}

/// Fields that may hold nulls.
pub open spec fn nullable_fields(fields: Seq<FieldView>) -> Seq<FieldView> {
    Seq::new(fields.len(), |i: int| FieldView { nullable: true, ..fields[i] })
}

/// A schema whose every column may hold nulls.
pub fn nullable_schema(schema: &Schema) -> (r: Schema)
    ensures
        r@ == nullable_fields(schema@),
{
    let given = schema.fields();
    let mut fields: Vec<Field> = Vec::new();
    let mut i: usize = 0;
    while i < given.len()
        invariant
            i <= given@.len(),
            field_views(given@) == schema@,
            field_views(fields@) == nullable_fields(schema@).take(i as int),
        decreases given@.len() - i,
    {
        let ghost was = field_views(fields@);
        let copied = given[i].copy();
        let field = Field { name: copied.name, data_type: copied.data_type, nullable: true };
        fields.push(field);
        proof {
            assert(schema@[i as int] == given@[i as int]@);
            assert(field_views(fields@) =~= was.push(field@));
            assert(nullable_fields(schema@).take(i + 1) =~= nullable_fields(schema@).take(
                i as int,
            ).push(nullable_fields(schema@)[i as int]));
        }
        i = i + 1;
    }
    assert(nullable_fields(schema@).take(i as int) =~= nullable_fields(schema@));
    Schema::new_allow_duplicate_names(fields)
}

/// The fields of two schemas, one after the other; names may repeat.
pub fn concat_schemas(left: &Schema, right: &Schema) -> (r: Schema)
    ensures
        r@ == left@ + right@,
{
    let mut fields: Vec<Field> = copy_fields(left.fields());
    let more = right.fields();
    let mut i: usize = 0;
    assert(field_views(fields@) =~= left@ + right@.take(0));
    while i < more.len()
        invariant
            i <= more@.len(),
            field_views(more@) == right@,
            field_views(fields@) == left@ + right@.take(i as int),
        decreases more@.len() - i,
    {
        let ghost was = field_views(fields@);
        fields.push(more[i].copy());
        proof {
            assert(right@[i as int] == more@[i as int]@);
            assert(field_views(fields@) =~= was.push(more@[i as int]@));
            assert(left@ + right@.take(i + 1) =~= (left@ + right@.take(i as int)).push(
                right@[i as int],
            ));
        }
        i = i + 1;
    }
    assert(right@.take(i as int) =~= right@);
    Schema::new_allow_duplicate_names(fields)
}

} // verus!
