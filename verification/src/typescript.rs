//! The generator: TypeScript interface declarations for a schema graph.

use crate::schema_map::{sorted_schemas, SchemaMap};
use crate::types::{field_views, FieldType, FieldTypeView, FieldView, Schema, SchemaView};
use vstd::prelude::*;
use vstd::string::StringExecFns;

verus! {

/// The TypeScript type of a field type.
pub open spec fn typescript_type(field_type: FieldTypeView) -> Seq<char> {
    match field_type {
        FieldTypeView::String => "string"@,
        FieldTypeView::Int32 => "number"@,
        FieldTypeView::Uint32 => "number"@,
        FieldTypeView::Int16 => "number"@,
        FieldTypeView::Uint16 => "number"@,
        FieldTypeView::Byte => "number"@,
        FieldTypeView::SByte => "number"@,
        FieldTypeView::Float => "number"@,
        FieldTypeView::Bool => "boolean"@,
        FieldTypeView::Bit(_) => "number"@,
        FieldTypeView::Image => "ImagePath"@,
        FieldTypeView::Row => "RowId"@,
        FieldTypeView::Key => "KeyString"@,
        FieldTypeView::Color => "number"@,
        FieldTypeView::Custom(name) => name,
    }
}

/// The line that declares one field.
pub open spec fn field_line(field: FieldView) -> Seq<char> {
    "  "@ + field.name + ": "@ + typescript_type(field.field_type) + ";\n"@
}

/// The lines of the fields, in the order of the columns.
pub open spec fn field_lines(fields: Seq<FieldView>) -> Seq<char>
    decreases fields.len(),
{
    if fields.len() == 0 {
        Seq::empty()
    } else {
        field_lines(fields.drop_last()) + field_line(fields.last())
    }
}

/// The declaration of the interface of one schema.
pub open spec fn interface_text(schema: SchemaView) -> Seq<char> {
    "export interface "@ + schema.name + " {\n"@ + field_lines(schema.fields) + "}\n"@
}

/// The declarations of the special types.
pub open spec fn special_types_text() -> Seq<char> {
    "// Special type definitions for game data\n"@ + "/** Image file path identifier */\n"@
        + "export type ImagePath = string;\n\n"@ + "/** Row reference identifier */\n"@
        + "export type RowId = number;\n\n"@ + "/** Key identifier string */\n"@
        + "export type KeyString = string;\n\n"@
}

/// The comment that the generated text starts with.
pub open spec fn header_text() -> Seq<char> {
    "// Generated TypeScript interfaces from CSV schemas\n"@
        + "// This file is auto-generated. Do not edit manually.\n\n"@
}

/// The declarations of the schemas, each followed by an empty line.
pub open spec fn interfaces_text(schemas: Seq<SchemaView>) -> Seq<char>
    decreases schemas.len(),
{
    if schemas.len() == 0 {
        Seq::empty()
    } else {
        interfaces_text(schemas.drop_last()) + interface_text(schemas.last()) + "\n"@
    }
}

/// The generated text for the schemas of a graph: the header comment, the
/// special types, and the interfaces of the schemas in the order of their
/// names.
pub open spec fn typescript_text(graph: Map<Seq<char>, SchemaView>) -> Seq<char> {
    header_text() + special_types_text() + "\n"@ + interfaces_text(sorted_schemas(graph))
}

/// Generates TypeScript declarations.
pub struct TypeScriptGenerator;

impl TypeScriptGenerator {
    /// A generator.
    pub fn new() -> Self {
        TypeScriptGenerator
    }

    /// The generated text for all schemas of a graph.
    pub fn generate_typescript_interfaces(&self, schemas: &SchemaMap) -> (content: String)
        ensures
            content@ == typescript_text(schemas@),
    {
        let mut content = String::new();
        content.append("// Generated TypeScript interfaces from CSV schemas\n");
        content.append("// This file is auto-generated. Do not edit manually.\n\n");
        assert(content@ =~= header_text());
        let special = self.generate_special_types();
        content.append(special.as_str());
        content.append("\n");
        let ghost start = content@;
        let ghost listed = sorted_schemas(schemas@);
        let n = schemas.len();
        let mut i: usize = 0;
        assert(listed.take(0) =~= Seq::<SchemaView>::empty());
        while i < n
            invariant
                i <= n,
                n == listed.len(),
                listed == sorted_schemas(schemas@),
                content@ == start + interfaces_text(listed.take(i as int)),
            decreases n - i,
        {
            let schema = schemas.schema_at(i).unwrap();
            let text = self.generate_interface(schema);
            proof {
                assert(listed.take(i + 1).drop_last() =~= listed.take(i as int));
                assert(listed.take(i + 1).last() == listed[i as int]);
            }
            content.append(text.as_str());
            content.append("\n");
            assert(content@ =~= start + interfaces_text(listed.take(i + 1)));
            i = i + 1;
        }
        assert(listed.take(i as int) =~= listed);
        content
    }

    /// The declaration of the interface of one schema.
    pub fn generate_interface(&self, schema: &Schema) -> (text: String)
        ensures
            text@ == interface_text(schema@),
    {
        let mut text = String::new();
        text.append("export interface ");
        text.append(schema.name.as_str());
        text.append(" {\n");
        let ghost start = text@;
        let ghost fields = field_views(schema.fields@);
        let mut i: usize = 0;
        assert(fields.take(0) =~= Seq::<FieldView>::empty());
        while i < schema.fields.len()
            invariant
                i <= schema.fields.len(),
                fields == field_views(schema.fields@),
                text@ == start + field_lines(fields.take(i as int)),
            decreases schema.fields.len() - i,
        {
            let field = &schema.fields[i];
            let field_type = self.field_type_to_typescript(&field.field_type);
            proof {
                assert(fields.take(i + 1).drop_last() =~= fields.take(i as int));
                assert(fields.take(i + 1).last() == field@);
            }
            text.append("  ");
            text.append(field.name.as_str());
            text.append(": ");
            text.append(field_type.as_str());
            text.append(";\n");
            assert(text@ =~= start + field_lines(fields.take(i + 1)));
            i = i + 1;
        }
        assert(fields.take(i as int) =~= fields);
        text.append("}\n");
        assert(text@ =~= interface_text(schema@));
        text
    }

    /// The declarations of the special types.
    pub fn generate_special_types(&self) -> (text: String)
        ensures
            text@ == special_types_text(),
    {
        let mut text = String::new();
        text.append("// Special type definitions for game data\n");
        text.append("/** Image file path identifier */\n");
        text.append("export type ImagePath = string;\n\n");
        text.append("/** Row reference identifier */\n");
        text.append("export type RowId = number;\n\n");
        text.append("/** Key identifier string */\n");
        text.append("export type KeyString = string;\n\n");
        assert(text@ =~= special_types_text());
        text
    }

    /// The TypeScript type of a field type.
    pub fn field_type_to_typescript(&self, field_type: &FieldType) -> (text: String)
        ensures
            text@ == typescript_type(field_type@),
    {
        match field_type {
            FieldType::String => "string".to_owned(),
            FieldType::Int32 | FieldType::Uint32 | FieldType::Int16 | FieldType::Uint16 => {
                "number".to_owned()
            },
            FieldType::Byte | FieldType::SByte => "number".to_owned(),
            FieldType::Float => "number".to_owned(),
            FieldType::Bool => "boolean".to_owned(),
            FieldType::Bit(_) => "number".to_owned(),
            FieldType::Image => "ImagePath".to_owned(),
            FieldType::Row => "RowId".to_owned(),
            FieldType::Key => "KeyString".to_owned(),
            FieldType::Color => "number".to_owned(),
            FieldType::Custom(name) => name.clone(),
        }
    }
}

impl Default for TypeScriptGenerator {
    fn default() -> Self {
        TypeScriptGenerator
    }
}

/// Two graphs that hold the same schemas are stored alike and give the
/// same text, in whatever order the schemas were put into them.
pub proof fn lemma_generation_determined(one: SchemaMap, other: SchemaMap)
    requires
        one.wf(),
        other.wf(),
        one@ == other@,
    ensures
        one.ordered() == other.ordered(),
        typescript_text(one@) == typescript_text(other@),
{
    one.lemma_ordered();
    other.lemma_ordered();
}

/// The schemas of a graph are declared in the order of their names: the
/// declared schemas are those of the graph, each once, and the names rise.
pub proof fn lemma_declared_in_name_order(graph: SchemaMap)
    requires
        graph.wf(),
    ensures
        crate::schema_map::sorted_by_name(sorted_schemas(graph@)),
        crate::schema_map::as_map(sorted_schemas(graph@)) == graph@,
{
    graph.lemma_ordered();
}

} // verus!
