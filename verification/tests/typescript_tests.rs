use noumenon_gleaner::{Field, FieldType, Schema, SchemaMap, TypeScriptGenerator};

fn create_test_schema() -> Schema {
    Schema {
        name: "TestItem".to_string(),
        fields: vec![
            Field { name: "id".to_string(), field_type: FieldType::Int32 },
            Field { name: "name".to_string(), field_type: FieldType::String },
            Field { name: "icon".to_string(), field_type: FieldType::Image },
            Field { name: "level".to_string(), field_type: FieldType::Byte },
            Field { name: "active".to_string(), field_type: FieldType::Bool },
            Field {
                name: "category".to_string(),
                field_type: FieldType::Custom("ItemCategory".to_string()),
            },
        ],
    }
}

fn create_category_schema() -> Schema {
    Schema {
        name: "ItemCategory".to_string(),
        fields: vec![
            Field { name: "id".to_string(), field_type: FieldType::Byte },
            Field { name: "name".to_string(), field_type: FieldType::String },
        ],
    }
}

const EXPECTED_PRELUDE: &str = "// Generated TypeScript interfaces from CSV schemas\n\
// This file is auto-generated. Do not edit manually.\n\
\n\
// Special type definitions for game data\n\
/** Image file path identifier */\n\
export type ImagePath = string;\n\
\n\
/** Row reference identifier */\n\
export type RowId = number;\n\
\n\
/** Key identifier string */\n\
export type KeyString = string;\n\
\n\
\n";

const EXPECTED_TEST_ITEM: &str = "export interface TestItem {\n  id: number;\n  name: string;\n  icon: ImagePath;\n  level: number;\n  active: boolean;\n  category: ItemCategory;\n}\n";

const EXPECTED_CATEGORY: &str = "export interface ItemCategory {\n  id: number;\n  name: string;\n}\n";

#[test]
fn test_field_type_conversion() {
    let generator = TypeScriptGenerator::new();

    assert_eq!(generator.field_type_to_typescript(&FieldType::String), "string");
    assert_eq!(generator.field_type_to_typescript(&FieldType::Int32), "number");
    assert_eq!(generator.field_type_to_typescript(&FieldType::Bool), "boolean");
    assert_eq!(generator.field_type_to_typescript(&FieldType::Image), "ImagePath");
    assert_eq!(generator.field_type_to_typescript(&FieldType::Row), "RowId");
    assert_eq!(generator.field_type_to_typescript(&FieldType::Key), "KeyString");
    assert_eq!(
        generator.field_type_to_typescript(&FieldType::Custom("ItemCategory".to_string())),
        "ItemCategory"
    );
}

#[test]
fn every_field_type_has_its_typescript_type() {
    let generator = TypeScriptGenerator::new();
    for numeric in [
        FieldType::Int32,
        FieldType::Uint32,
        FieldType::Int16,
        FieldType::Uint16,
        FieldType::Byte,
        FieldType::SByte,
        FieldType::Float,
        FieldType::Bit(0),
        FieldType::Bit(255),
        FieldType::Color,
    ] {
        assert_eq!(generator.field_type_to_typescript(&numeric), "number");
    }
}

#[test]
fn test_interface_generation() {
    let generator = TypeScriptGenerator::new();
    let schema = create_test_schema();
    let interface = generator.generate_interface(&schema);

    let expected = "export interface TestItem {\n  id: number;\n  name: string;\n  icon: ImagePath;\n  level: number;\n  active: boolean;\n  category: ItemCategory;\n}\n";

    assert_eq!(interface, expected);
}

#[test]
fn test_full_typescript_generation() {
    let generator = TypeScriptGenerator::new();
    let mut schemas = SchemaMap::new();

    // Add main schema
    schemas.insert(create_test_schema());

    // Add referenced schema
    schemas.insert(create_category_schema());

    let typescript = generator.generate_typescript_interfaces(&schemas);

    assert!(typescript.contains("export interface ItemCategory"));
    assert!(typescript.contains("export interface TestItem"));
    assert!(typescript.contains("category: ItemCategory;"));
    assert!(typescript.contains("icon: ImagePath;"));
    assert!(typescript.contains("export type ImagePath = string;"));
    assert!(typescript.contains("export type RowId = number;"));
    assert!(typescript.contains("export type KeyString = string;"));
    assert!(typescript.starts_with("// Generated TypeScript interfaces"));
}

#[test]
fn generated_text_is_exact_and_sorted_by_name() {
    let generator = TypeScriptGenerator::new();
    let mut schemas = SchemaMap::new();
    schemas.insert(create_test_schema());
    schemas.insert(create_category_schema());

    let expected = format!("{}{}\n{}\n", EXPECTED_PRELUDE, EXPECTED_CATEGORY, EXPECTED_TEST_ITEM);
    assert_eq!(generator.generate_typescript_interfaces(&schemas), expected);
}

#[test]
fn generation_does_not_depend_on_insertion_order() {
    let generator = TypeScriptGenerator::new();
    let mut forward = SchemaMap::new();
    forward.insert(create_test_schema());
    forward.insert(create_category_schema());
    let mut backward = SchemaMap::new();
    backward.insert(create_category_schema());
    backward.insert(create_test_schema());

    let first = generator.generate_typescript_interfaces(&forward);
    let second = generator.generate_typescript_interfaces(&backward);
    let again = generator.generate_typescript_interfaces(&forward);
    assert_eq!(first, second);
    assert_eq!(first, again);
}

#[test]
fn empty_graph_gives_only_the_prelude() {
    let generator = TypeScriptGenerator::default();
    assert_eq!(generator.generate_typescript_interfaces(&SchemaMap::new()), EXPECTED_PRELUDE);
}

#[test]
fn special_types_are_declared() {
    let generator = TypeScriptGenerator::new();
    assert_eq!(
        generator.generate_special_types(),
        "// Special type definitions for game data\n/** Image file path identifier */\nexport type ImagePath = string;\n\n/** Row reference identifier */\nexport type RowId = number;\n\n/** Key identifier string */\nexport type KeyString = string;\n\n"
    );
}

#[test]
fn schema_map_keeps_the_first_schema_of_a_name() {
    let mut schemas = SchemaMap::new();
    assert_eq!(schemas.len(), 0);
    assert!(schemas.insert(create_test_schema()));
    assert!(!schemas.insert(Schema { name: "TestItem".to_string(), fields: vec![] }));
    assert_eq!(schemas.len(), 1);
    assert_eq!(schemas.get("TestItem"), Some(&create_test_schema()));
    assert!(schemas.contains_key("TestItem"));
    assert!(!schemas.contains_key("testitem"));
    assert_eq!(schemas.get("Other"), None);
}

#[test]
fn schema_map_lists_schemas_in_name_order() {
    let mut schemas = SchemaMap::new();
    for name in ["b", "a", "ab", "B", "", "aa"] {
        assert!(schemas.insert(Schema { name: name.to_string(), fields: vec![] }));
    }
    let mut listed = Vec::new();
    let mut i = 0;
    while let Some(schema) = schemas.schema_at(i) {
        listed.push(schema.name.clone());
        i += 1;
    }
    assert_eq!(listed, vec!["", "B", "a", "aa", "ab", "b"]);
    assert_eq!(schemas.schema_at(6), None);
}

#[test]
fn absorbing_keeps_stored_schemas() {
    let mut stored = SchemaMap::new();
    stored.insert(create_test_schema());
    let mut other = SchemaMap::new();
    other.insert(Schema { name: "TestItem".to_string(), fields: vec![] });
    other.insert(create_category_schema());
    stored.absorb(other);
    assert_eq!(stored.len(), 2);
    assert_eq!(stored.get("TestItem"), Some(&create_test_schema()));
    assert_eq!(stored.get("ItemCategory"), Some(&create_category_schema()));
}
