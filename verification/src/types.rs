//! The type model: field types, fields, schemas and the schema graph.

use vstd::prelude::*;

verus! {

/// The type of one field of a schema.
#[derive(Debug, PartialEq, Eq)]
pub enum FieldType {
    String,
    Int32,
    Uint32,
    Int16,
    Uint16,
    Byte,
    SByte,
    Float,
    Bool,
    /// A bit flag, with the mask value written in the type token.
    Bit(u8),
    /// Path of an image file.
    Image,
    /// Reference to a row.
    Row,
    /// A string identifier.
    Key,
    /// A colour code.
    Color,
    /// A reference to another schema, by name.
    Custom(String),
}

/// One named, typed column of a schema.
#[derive(Debug, PartialEq, Eq)]
pub struct Field {
    pub name: String,
    pub field_type: FieldType,
}

/// The ordered fields of one CSV file.
#[derive(Debug, PartialEq, Eq)]
pub struct Schema {
    pub name: String,
    pub fields: Vec<Field>,
}

/// Mathematical model of a [`FieldType`].
pub enum FieldTypeView {
    String,
    Int32,
    Uint32,
    Int16,
    Uint16,
    Byte,
    SByte,
    Float,
    Bool,
    Bit(u8),
    Image,
    Row,
    Key,
    Color,
    Custom(Seq<char>),
}

/// Mathematical model of a [`Field`].
pub struct FieldView {
    pub name: Seq<char>,
    pub field_type: FieldTypeView,
}

/// Mathematical model of a [`Schema`].
pub struct SchemaView {
    pub name: Seq<char>,
    pub fields: Seq<FieldView>,
}

impl View for FieldType {
    type V = FieldTypeView;

    open spec fn view(&self) -> FieldTypeView {
        match self {
            FieldType::String => FieldTypeView::String,
            FieldType::Int32 => FieldTypeView::Int32,
            FieldType::Uint32 => FieldTypeView::Uint32,
            FieldType::Int16 => FieldTypeView::Int16,
            FieldType::Uint16 => FieldTypeView::Uint16,
            FieldType::Byte => FieldTypeView::Byte,
            FieldType::SByte => FieldTypeView::SByte,
            FieldType::Float => FieldTypeView::Float,
            FieldType::Bool => FieldTypeView::Bool,
            FieldType::Bit(v) => FieldTypeView::Bit(*v),
            FieldType::Image => FieldTypeView::Image,
            FieldType::Row => FieldTypeView::Row,
            FieldType::Key => FieldTypeView::Key,
            FieldType::Color => FieldTypeView::Color,
            FieldType::Custom(name) => FieldTypeView::Custom(name@),
        }
    }
}

impl View for Field {
    type V = FieldView;

    open spec fn view(&self) -> FieldView {
        FieldView { name: self.name@, field_type: self.field_type@ }
    }
}

/// The models of a sequence of fields, in order.
pub open spec fn field_views(fields: Seq<Field>) -> Seq<FieldView> {
    Seq::new(fields.len(), |i: int| fields[i]@)
}

impl View for Schema {
    type V = SchemaView;

    open spec fn view(&self) -> SchemaView {
        SchemaView { name: self.name@, fields: field_views(self.fields@) }
    }
}

impl Clone for FieldType {
    fn clone(&self) -> (r: Self)
        ensures
            r@ == self@,
    {
        match self {
            FieldType::String => FieldType::String,
            FieldType::Int32 => FieldType::Int32,
            FieldType::Uint32 => FieldType::Uint32,
            FieldType::Int16 => FieldType::Int16,
            FieldType::Uint16 => FieldType::Uint16,
            FieldType::Byte => FieldType::Byte,
            FieldType::SByte => FieldType::SByte,
            FieldType::Float => FieldType::Float,
            FieldType::Bool => FieldType::Bool,
            FieldType::Bit(v) => FieldType::Bit(*v),
            FieldType::Image => FieldType::Image,
            FieldType::Row => FieldType::Row,
            FieldType::Key => FieldType::Key,
            FieldType::Color => FieldType::Color,
            FieldType::Custom(name) => FieldType::Custom(name.clone()),
        }
    }
}

impl Clone for Field {
    fn clone(&self) -> (r: Self)
        ensures
            r@ == self@,
    {
        Field { name: self.name.clone(), field_type: self.field_type.clone() }
    }
}

impl Clone for Schema {
    fn clone(&self) -> (r: Self)
        ensures
            r@ == self@,
    {
        let mut fields: Vec<Field> = Vec::new();
        let mut i: usize = 0;
        while i < self.fields.len()
            invariant
                i <= self.fields.len(),
                fields.len() == i,
                forall|k: int| 0 <= k < i ==> fields@[k]@ == self.fields@[k]@,
            decreases self.fields.len() - i,
        {
            fields.push(self.fields[i].clone());
            i = i + 1;
        }
        assert(field_views(fields@) =~= field_views(self.fields@));
        Schema { name: self.name.clone(), fields }
    }
}

} // verus!
