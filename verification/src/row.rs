//! The rows that a cache is fed with.

use vstd::prelude::*;
use vstd::utf8::encode_utf8;
use crate::value::Value;

verus! {

/// The value of one field of a row.
#[derive(Debug, Clone)]
pub enum FieldData {
    Timestamp(i64),
    Key(String),
    Tag(String),
    String(String),
    Integer(i64),
    UInteger(u64),
    /// A floating-point value, as its bits.
    Float(u64),
    Boolean(bool),
}

impl FieldData {
    /// The string of a tag key, a tag or a string field; nothing for the
    /// other kinds.
    pub open spec fn text(&self) -> Option<Seq<char>> {
        match *self {
            FieldData::Key(s) => Some(s@),
            FieldData::Tag(s) => Some(s@),
            FieldData::String(s) => Some(s@),
            _ => None,
        }
    }

    /// Whether the field holds a string.
    pub fn is_text(&self) -> (res: bool)
        ensures
            res == self.text().is_some(),
    {
        match self {
            FieldData::Key(_) => true,
            FieldData::Tag(_) => true,
            FieldData::String(_) => true,
            _ => false,
        }
    }
}

/// One field of a row.
#[derive(Debug, Clone)]
pub struct Field {
    pub id: u32,
    pub value: FieldData,
}

/// A row: a time in nanoseconds and fields.
#[derive(Debug, Clone)]
pub struct Row {
    pub time: i64,
    pub fields: Vec<Field>,
}

impl Value {
    /// The value of a field that holds a string.
    pub fn from_field(field: &FieldData) -> (res: Value)
        requires
            field.text().is_some(),
        ensures
            res.chars() == field.text().unwrap(),
            res@ == encode_utf8(field.text().unwrap()),
    {
        match field {
            FieldData::Key(s) => Value::new(s.clone()),
            FieldData::Tag(s) => Value::new(s.clone()),
            FieldData::String(s) => Value::new(s.clone()),
            _ => Value::new(String::new()),
        }
    }
}

/// The index of the first field from `i` on with the identifier `id`.
pub open spec fn first_field(fields: Seq<Field>, id: u32, i: int) -> Option<int>
    decreases fields.len() - i,
{
    if i < 0 || i >= fields.len() {
        None
    } else if fields[i].id == id {
        Some(i)
    } else {
        first_field(fields, id, i + 1)
    }
}

/// The string that a row holds for the column `id`: that of its first
/// field for the column, where that field holds a string.
pub open spec fn field_text(fields: Seq<Field>, id: u32) -> Option<Seq<char>> {
    match first_field(fields, id, 0) {
        Some(i) => fields[i].value.text(),
        None => None,
    }
}

/// The tuple that a row gives for the columns `ids`, where it holds a
/// string for each of them.
pub open spec fn row_tuple(fields: Seq<Field>, ids: Seq<u32>) -> Option<Seq<Seq<u8>>> {
    if forall|j: int| 0 <= j < ids.len() ==> (#[trigger] field_text(fields, ids[j])).is_some() {
        Some(Seq::new(ids.len(), |j: int| encode_utf8(field_text(fields, ids[j]).unwrap())))
    } else {
        None
    }
}

impl Row {
    /// The first field for the column `id`.
    pub fn find(&self, id: u32) -> (res: Option<&Field>)
        ensures
            match res {
                Some(f) => first_field(self.fields@, id, 0).is_some() && *f
                    == self.fields@[first_field(self.fields@, id, 0).unwrap()],
                None => first_field(self.fields@, id, 0).is_none(),
            },
    {
        let mut i: usize = 0;
        while i < self.fields.len()
            invariant
                i <= self.fields.len(),
                first_field(self.fields@, id, 0) == first_field(self.fields@, id, i as int),
            decreases self.fields.len() - i,
        {
            if self.fields[i].id == id {
                return Some(&self.fields[i]);
            }
            i += 1;
        }
        None
    }
}

} // verus!
