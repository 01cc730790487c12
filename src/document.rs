use vstd::prelude::*;

verus! {

/// How a field takes part in the index.
#[derive(Debug, Clone, Copy, PartialEq, Eq, Structural)]
pub struct FieldType {
    pub indexed: bool,
    pub stored: bool,
    pub with_positions: bool,
    pub with_offsets: bool,
}

impl FieldType {
    /// Indexed with positions, not stored.
    pub fn text_indexed() -> (r: FieldType)
        ensures
            r == (FieldType { indexed: true, stored: false, with_positions: true, with_offsets: false }),
    {
        FieldType { indexed: true, stored: false, with_positions: true, with_offsets: false }
    }

    /// Stored only.
    pub fn text_stored() -> (r: FieldType)
        ensures
            r == (FieldType { indexed: false, stored: true, with_positions: false, with_offsets: false }),
    {
        FieldType { indexed: false, stored: true, with_positions: false, with_offsets: false }
    }

    /// Indexed with positions, and stored.
    pub fn text_indexed_and_stored() -> (r: FieldType)
        ensures
            r == (FieldType { indexed: true, stored: true, with_positions: true, with_offsets: false }),
    {
        FieldType { indexed: true, stored: true, with_positions: true, with_offsets: false }
    }
}

/// The value a field carries.
#[derive(Debug, Clone)]
pub enum FieldValue {
    Text(String),
}

/// A named, typed value of a document.
#[derive(Debug, Clone)]
pub struct Field {
    pub name: String,
    pub value: FieldValue,
    pub field_type: FieldType,
}

impl Field {
    /// The field's text.
    pub open spec fn text_view(&self) -> Seq<char> {
        match self.value {
            FieldValue::Text(t) => t@,
        }
    }

    /// A text field.
    pub fn text(name: &str, value: &str, field_type: FieldType) -> (r: Field)
        ensures
            r.name@ == name@,
            r.text_view() == value@,
            r.field_type == field_type,
    {
        Field { name: name.to_string(), value: FieldValue::Text(value.to_string()), field_type }
    }
}

/// A document: its fields, in order.
#[derive(Debug, Clone)]
pub struct Document {
    pub fields: Vec<Field>,
}

impl Document {
    pub fn new() -> (r: Document)
        ensures
            r.fields@.len() == 0,
    {
        Document { fields: Vec::new() }
    }

    pub fn add_field(&mut self, field: Field)
        ensures
            final(self).fields@ == old(self).fields@.push(field),
    {
        self.fields.push(field);
    }
}

} // verus!
