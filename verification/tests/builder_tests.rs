use noumenon_gleaner::{
    CsvDirectory, Field, FieldType, Schema, SchemaBuilder, SchemaError, TypeScriptGenerator,
};

const DIR: &str = "/data/exd";

fn create_test_csv(dir: &mut CsvDirectory, name: &str, content: &str) -> String {
    let file_path = format!("{}/{}.csv", DIR, name);
    assert!(dir.add_file(&file_path, content.as_bytes().to_vec()));
    file_path
}

fn field(name: &str, field_type: FieldType) -> Field {
    Field { name: name.to_string(), field_type }
}

fn custom(name: &str) -> FieldType {
    FieldType::Custom(name.to_string())
}

fn build_one(name: &str, content: &str) -> Result<Schema, SchemaError> {
    let mut dir = CsvDirectory::new();
    let file_path = create_test_csv(&mut dir, name, content);
    let mut builder = SchemaBuilder::new();
    builder.build_schema_from_file(&file_path, &dir)?;
    Ok(builder.get_all_schemas().get(name).unwrap().clone())
}

fn field_names(schema: &Schema) -> Vec<String> {
    schema.fields.iter().map(|field| field.name.clone()).collect()
}

#[test]
fn test_basic_types_schema() {
    let mut dir = CsvDirectory::new();
    let content = "key,0,1,2\n#,Name,Level,IsActive\nint32,str,byte,bool\n1,\"Test\",10,true";
    let file_path = create_test_csv(&mut dir, "Basic", content);

    let mut builder = SchemaBuilder::new();
    let result = builder.build_schema_from_file(&file_path, &dir);

    assert!(result.is_ok());
    let schema_name = result.unwrap();
    assert_eq!(schema_name, "Basic");

    let schema = builder.get_all_schemas().get("Basic").unwrap();
    assert_eq!(schema.name, "Basic");
    assert_eq!(schema.fields.len(), 4);

    assert_eq!(schema.fields[0].name, "id");
    assert_eq!(schema.fields[0].field_type, FieldType::Int32);

    assert_eq!(schema.fields[1].name, "name");
    assert_eq!(schema.fields[1].field_type, FieldType::String);

    assert_eq!(schema.fields[2].name, "level");
    assert_eq!(schema.fields[2].field_type, FieldType::Byte);

    assert_eq!(schema.fields[3].name, "isActive");
    assert_eq!(schema.fields[3].field_type, FieldType::Bool);
}

#[test]
fn test_recursive_schema_building() {
    let mut dir = CsvDirectory::new();

    // Create main item schema
    let item_content = "key,0,1\n#,Name,Category\nint32,str,ItemCategory\n1,\"Sword\",1";
    create_test_csv(&mut dir, "Item", item_content);

    // Create referenced category schema
    let category_content = "key,0\n#,Name\nint32,str\n1,\"Weapon\"";
    create_test_csv(&mut dir, "ItemCategory", category_content);

    let mut builder = SchemaBuilder::new();
    let item_path = format!("{}/{}", DIR, "Item.csv");
    let result = builder.build_schema_from_file(&item_path, &dir);

    assert!(result.is_ok());

    // Check that both schemas were created
    let all_schemas = builder.get_all_schemas();
    assert_eq!(all_schemas.len(), 2);

    let item_schema = builder.get_all_schemas().get("Item").unwrap();
    assert_eq!(item_schema.fields[2].field_type, FieldType::Custom("ItemCategory".to_string()));

    let category_schema = builder.get_all_schemas().get("ItemCategory").unwrap();
    assert_eq!(category_schema.name, "ItemCategory");
    assert_eq!(category_schema.fields.len(), 2);
}

#[test]
fn test_circular_dependency_allowed() {
    let mut dir = CsvDirectory::new();

    // Create A that references B
    let a_content = "key,0\n#,RefB\nint32,TypeB\n1,1";
    create_test_csv(&mut dir, "TypeA", a_content);

    // Create B that references A (circular dependency is allowed)
    let b_content = "key,0\n#,RefA\nint32,TypeA\n1,1";
    create_test_csv(&mut dir, "TypeB", b_content);

    let mut builder = SchemaBuilder::new();
    let a_path = format!("{}/{}", DIR, "TypeA.csv");
    let result = builder.build_schema_from_file(&a_path, &dir);

    // Circular dependency is allowed
    assert!(result.is_ok());
    let schema_name = result.unwrap();
    assert_eq!(schema_name, "TypeA");

    // Check that both schemas were created
    let all_schemas = builder.get_all_schemas();
    assert_eq!(all_schemas.len(), 2);

    // Verify TypeA schema
    let type_a_schema = builder.get_all_schemas().get("TypeA").unwrap();
    assert_eq!(type_a_schema.name, "TypeA");
    assert_eq!(type_a_schema.fields[1].field_type, FieldType::Custom("TypeB".to_string()));

    // Verify TypeB schema
    let type_b_schema = builder.get_all_schemas().get("TypeB").unwrap();
    assert_eq!(type_b_schema.name, "TypeB");
    assert_eq!(type_b_schema.fields[1].field_type, FieldType::Custom("TypeA".to_string()));
}

#[test]
fn test_self_reference_allowed() {
    let mut dir = CsvDirectory::new();

    // Create ClassJob that references itself (self-reference is allowed)
    let classjob_content = "key,0,1\n#,Name,Parent\nint32,str,ClassJob\n1,\"Gladiator\",0";
    create_test_csv(&mut dir, "ClassJob", classjob_content);

    let mut builder = SchemaBuilder::new();
    let classjob_path = format!("{}/{}", DIR, "ClassJob.csv");
    let result = builder.build_schema_from_file(&classjob_path, &dir);

    assert!(result.is_ok());
    let schema_name = result.unwrap();
    assert_eq!(schema_name, "ClassJob");

    let schema = builder.get_all_schemas().get("ClassJob").unwrap();
    assert_eq!(schema.name, "ClassJob");
    assert_eq!(schema.fields.len(), 3);

    // Check that the parent field is correctly typed as Custom("ClassJob")
    assert_eq!(schema.fields[2].name, "parent");
    assert_eq!(schema.fields[2].field_type, FieldType::Custom("ClassJob".to_string()));
}

#[test]
fn test_image_type_parsing() {
    let mut dir = CsvDirectory::new();
    let content = "key,0,1,2\n#,Name,Icon,Description\nint32,str,Image,str\n1,\"Sword\",\"021001\",\"A basic sword\"";
    let file_path = create_test_csv(&mut dir, "Item", content);

    let mut builder = SchemaBuilder::new();
    let result = builder.build_schema_from_file(&file_path, &dir);

    assert!(result.is_ok());
    let schema_name = result.unwrap();
    assert_eq!(schema_name, "Item");

    let schema = builder.get_all_schemas().get("Item").unwrap();
    assert_eq!(schema.name, "Item");
    assert_eq!(schema.fields.len(), 4);

    assert_eq!(schema.fields[0].name, "id");
    assert_eq!(schema.fields[0].field_type, FieldType::Int32);

    assert_eq!(schema.fields[1].name, "name");
    assert_eq!(schema.fields[1].field_type, FieldType::String);

    assert_eq!(schema.fields[2].name, "icon");
    assert_eq!(schema.fields[2].field_type, FieldType::Image);

    assert_eq!(schema.fields[3].name, "description");
    assert_eq!(schema.fields[3].field_type, FieldType::String);
}

#[test]
fn test_mixed_types_with_image() {
    let mut dir = CsvDirectory::new();
    let content = "key,0,1,2,3,4\n#,Name,Icon,Level,Active,Category\nint32,str,Image,byte,bool,ItemCategory\n1,\"Test Item\",\"65002\",10,true,1";

    // Create the main schema
    create_test_csv(&mut dir, "MixedItem", content);

    // Create the referenced custom type
    let category_content = "key,0\n#,Name\nint32,str\n1,\"Weapon\"";
    create_test_csv(&mut dir, "ItemCategory", category_content);

    let mut builder = SchemaBuilder::new();
    let item_path = format!("{}/{}", DIR, "MixedItem.csv");
    let result = builder.build_schema_from_file(&item_path, &dir);

    assert!(result.is_ok());

    // Check main schema
    let item_schema = builder.get_all_schemas().get("MixedItem").unwrap();
    assert_eq!(item_schema.fields.len(), 6);

    assert_eq!(item_schema.fields[0].field_type, FieldType::Int32);
    assert_eq!(item_schema.fields[1].field_type, FieldType::String);
    assert_eq!(item_schema.fields[2].field_type, FieldType::Image);
    assert_eq!(item_schema.fields[3].field_type, FieldType::Byte);
    assert_eq!(item_schema.fields[4].field_type, FieldType::Bool);
    assert_eq!(item_schema.fields[5].field_type, FieldType::Custom("ItemCategory".to_string()));

    // Check that custom type schema was also created
    let category_schema = builder.get_all_schemas().get("ItemCategory").unwrap();
    assert_eq!(category_schema.name, "ItemCategory");
    assert_eq!(category_schema.fields.len(), 2);
}

#[test]
fn test_special_types_parsing() {
    let mut dir = CsvDirectory::new();
    let content = "key,0,1,2\n#,Name,Icon,Ref\nint32,str,Image,Row\n1,\"Test Item\",\"021001\",0";
    let file_path = create_test_csv(&mut dir, "SpecialTypes", content);

    let mut builder = SchemaBuilder::new();
    let result = builder.build_schema_from_file(&file_path, &dir);

    assert!(result.is_ok());
    let schema_name = result.unwrap();
    assert_eq!(schema_name, "SpecialTypes");

    let schema = builder.get_all_schemas().get("SpecialTypes").unwrap();
    assert_eq!(schema.name, "SpecialTypes");
    assert_eq!(schema.fields.len(), 4);

    assert_eq!(schema.fields[0].name, "id");
    assert_eq!(schema.fields[0].field_type, FieldType::Int32);

    assert_eq!(schema.fields[1].name, "name");
    assert_eq!(schema.fields[1].field_type, FieldType::String);

    assert_eq!(schema.fields[2].name, "icon");
    assert_eq!(schema.fields[2].field_type, FieldType::Image);

    assert_eq!(schema.fields[3].name, "ref");
    assert_eq!(schema.fields[3].field_type, FieldType::Row);
}

#[test]
fn resolving_twice_changes_nothing() {
    let mut dir = CsvDirectory::new();
    create_test_csv(&mut dir, "Item", "key,0,1\n#,Name,Category\nint32,str,ItemCategory\n");
    create_test_csv(&mut dir, "ItemCategory", "key,0\n#,Name\nint32,str\n");
    let item_path = format!("{}/Item.csv", DIR);

    let mut builder = SchemaBuilder::new();
    assert_eq!(builder.build_schema_from_file(&item_path, &dir).unwrap(), "Item");
    assert_eq!(builder.get_all_schemas().len(), 2);
    let first = builder.get_all_schemas().get("Item").unwrap().clone();

    // The files may even be gone: a resolved schema is not read again.
    let empty = CsvDirectory::new();
    assert_eq!(builder.build_schema_from_file(&item_path, &empty).unwrap(), "Item");
    assert_eq!(builder.build_schema_from_file(&item_path, &dir).unwrap(), "Item");
    assert_eq!(builder.get_all_schemas().len(), 2);
    assert_eq!(builder.get_all_schemas().get("Item"), Some(&first));
}

#[test]
fn end_to_end_item_and_category() {
    let mut dir = CsvDirectory::new();
    create_test_csv(&mut dir, "Item", "key,0,1\n#,Name,Category\nint32,str,ItemCategory\n1,Sword,1\n");
    create_test_csv(&mut dir, "ItemCategory", "key,0\n#,Name\nint32,str\n1,Weapon\n");
    create_test_csv(&mut dir, "Unrelated", "key,0\n#,Name\nint32,str\n");

    let mut builder = SchemaBuilder::new();
    builder.build_schema_from_file(&format!("{}/Item.csv", DIR), &dir).unwrap();
    assert_eq!(builder.get_all_schemas().len(), 2);
    assert!(!builder.get_all_schemas().contains_key("Unrelated"));

    let text = TypeScriptGenerator::new().generate_typescript_interfaces(builder.get_all_schemas());
    assert!(text.ends_with(
        "export interface Item {\n  id: number;\n  name: string;\n  category: ItemCategory;\n}\n\nexport interface ItemCategory {\n  id: number;\n  name: string;\n}\n\n"
    ));
}

#[test]
fn colliding_names_get_numeric_suffixes() {
    let schema = build_one(
        "Dup",
        "key,0,1,2,3,4\n#,Name,Name,name,Name1,Name\nint32,str,str,str,str,str\n",
    )
    .unwrap();
    assert_eq!(field_names(&schema), vec!["id", "name", "name1", "name2", "name11", "name3"]);
}

#[test]
fn suffixes_count_past_nine() {
    let mut header = String::from("key");
    let mut descriptions = String::from("#");
    let mut types = String::from("int32");
    for i in 0..12 {
        header.push_str(&format!(",{}", i));
        descriptions.push_str(",Value");
        types.push_str(",str");
    }
    let schema = build_one("Many", &format!("{}\n{}\n{}\n", header, descriptions, types)).unwrap();
    let names = field_names(&schema);
    assert_eq!(names[1], "value");
    assert_eq!(names[2], "value1");
    assert_eq!(names[10], "value9");
    assert_eq!(names[11], "value10");
    assert_eq!(names[12], "value11");
}

#[test]
fn names_follow_the_description_rules() {
    let schema = build_one(
        "Names",
        "key,0,1,custom,4,5,6,7\n#,,,,Key,Item Level,{Name}-of.item,123\nint32,str,str,str,str,str,str,str\n",
    )
    .unwrap();
    assert_eq!(
        field_names(&schema),
        vec!["id", "field0", "field1", "custom", "key", "itemLevel", "nameOfItem", "_"]
    );
    // The description `Key` makes the field a key, whatever the type cell says.
    assert_eq!(schema.fields[4].field_type, FieldType::Key);
}

#[test]
fn key_identifier_without_description_is_the_id() {
    let schema = build_one("Plain", "key,a\n#,\nint32,str\nkey2,x\n").unwrap();
    assert_eq!(field_names(&schema), vec!["id", "a"]);
    let schema = build_one("Blank", "x,key,7\n#,,\nint32,str,str\n");
    // No row starts with `key`.
    assert!(matches!(schema, Err(SchemaError::MissingCsvHeader { .. })));
}

#[test]
fn sanitized_names_are_identifiers() {
    assert_eq!(SchemaBuilder::sanitize_field_name("Name"), "name");
    assert_eq!(SchemaBuilder::sanitize_field_name("IsActive"), "isActive");
    assert_eq!(SchemaBuilder::sanitize_field_name("Item Level"), "itemLevel");
    assert_eq!(SchemaBuilder::sanitize_field_name("item-level.max"), "itemLevelMax");
    assert_eq!(SchemaBuilder::sanitize_field_name("{Class}{Job}"), "classJob");
    assert_eq!(SchemaBuilder::sanitize_field_name("  Name "), "name");
    assert_eq!(SchemaBuilder::sanitize_field_name("snake_case"), "snake_case");
    assert_eq!(SchemaBuilder::sanitize_field_name("_private"), "_private");
    assert_eq!(SchemaBuilder::sanitize_field_name("1st Place"), "stPlace");
    assert_eq!(SchemaBuilder::sanitize_field_name("Slot 2"), "slot2");
    assert_eq!(SchemaBuilder::sanitize_field_name("a (b)"), "aB");
    assert_eq!(SchemaBuilder::sanitize_field_name("Caf\u{e9} au lait"), "cafAuLait");
    assert_eq!(SchemaBuilder::sanitize_field_name(""), "_");
    assert_eq!(SchemaBuilder::sanitize_field_name("123"), "_");
    assert_eq!(SchemaBuilder::sanitize_field_name("?!"), "_");
    assert_eq!(SchemaBuilder::sanitize_field_name(" - "), "_");
}

#[test]
fn camel_case_drops_separators_and_capitalizes() {
    assert_eq!(SchemaBuilder::to_camel_case(""), "");
    assert_eq!(SchemaBuilder::to_camel_case("Name"), "name");
    assert_eq!(SchemaBuilder::to_camel_case("item level"), "itemLevel");
    assert_eq!(SchemaBuilder::to_camel_case("item  -  level"), "itemLevel");
    assert_eq!(SchemaBuilder::to_camel_case(" Item"), "item");
    assert_eq!(SchemaBuilder::to_camel_case("item "), "item");
    assert_eq!(SchemaBuilder::to_camel_case("a.b{c}d"), "aBCD");
    assert_eq!(SchemaBuilder::to_camel_case("keep_underscores"), "keep_underscores");
    assert_eq!(SchemaBuilder::to_camel_case("x 1y"), "x1y");
}

#[test]
fn header_rows_may_stand_in_any_order() {
    let canonical = build_one(
        "Order",
        "key,0,1\n#,Name,Category Id\nint32,str,uint16\n1,a,2\n2,b,3\n",
    )
    .unwrap();
    let permuted = [
        "#,Name,Category Id\nkey,0,1\nint32,str,uint16\n1,a,2\n2,b,3\n",
        "1,a,2\nint32,str,uint16\n2,b,3\n#,Name,Category Id\nkey,0,1\n",
        "int32,str,uint16\n#,Name,Category Id\n2,b,3\n1,a,2\nkey,0,1\n",
    ];
    for content in permuted {
        assert_eq!(build_one("Order", content).unwrap(), canonical);
    }
    assert_eq!(
        canonical.fields,
        vec![
            field("id", FieldType::Int32),
            field("name", FieldType::String),
            field("categoryId", FieldType::Uint16),
        ]
    );
}

#[test]
fn byte_order_mark_and_white_space_before_the_markers() {
    // The markers are found through white space; the cells are then used as written.
    let schema = build_one("Bom", "\u{feff}key,0\n # ,Name\n int32 ,str\n").unwrap();
    assert_eq!(field_names(&schema), vec!["_", "name"]);
    assert_eq!(schema.fields[0].field_type, FieldType::Int32);
    let schema = build_one("Bom", "\u{feff}key,0\n#,Name\nint32,str\n").unwrap();
    assert_eq!(field_names(&schema), vec!["id", "name"]);
    let schema = build_one("Bom", "\u{feff}key,0\n#,\nint32,str\n").unwrap();
    assert_eq!(field_names(&schema), vec!["id", "field0"]);
}

#[test]
fn too_few_rows_are_refused() {
    for content in ["", "key,0\n", "key,0\n#,Name\n"] {
        match build_one("Short", content) {
            Err(SchemaError::InvalidFormat { reason }) => {
                assert_eq!(reason, "CSV file must have at least 3 rows (names, descriptions, types)");
            }
            other => panic!("unexpected result: {:?}", other),
        }
    }
}

#[test]
fn missing_header_rows_are_named() {
    match build_one("NoKey", "id,0\n#,Name\nint32,str\n") {
        Err(SchemaError::MissingCsvHeader { header, path }) => {
            assert_eq!(header, "key");
            assert_eq!(path, "/data/exd/NoKey.csv");
        }
        other => panic!("unexpected result: {:?}", other),
    }
    match build_one("NoDesc", "key,0\nnote,Name\nint32,str\n") {
        Err(SchemaError::MissingCsvHeader { header, path }) => {
            assert_eq!(header, "#");
            assert_eq!(path, "/data/exd/NoDesc.csv");
        }
        other => panic!("unexpected result: {:?}", other),
    }
    match build_one("NoTypes", "key,0\n#,Name\nInt32,str\n") {
        Err(SchemaError::MissingCsvHeader { header, path }) => {
            assert_eq!(header, "field types (basic type)");
            assert_eq!(path, "/data/exd/NoTypes.csv");
        }
        other => panic!("unexpected result: {:?}", other),
    }
}

#[test]
fn repeated_header_rows_are_refused() {
    match build_one("TwoKeys", "key,0\n#,Name\nint32,str\nkey,1\n") {
        Err(SchemaError::DuplicateCsvHeader { header, path }) => {
            assert_eq!(header, "key");
            assert_eq!(path, "/data/exd/TwoKeys.csv");
        }
        other => panic!("unexpected result: {:?}", other),
    }
    match build_one("TwoDesc", "key,0\n#,Name\nint32,str\n#,Other\n") {
        Err(SchemaError::DuplicateCsvHeader { header, .. }) => assert_eq!(header, "#"),
        other => panic!("unexpected result: {:?}", other),
    }
    match build_one("TwoTypes", "key,0\n#,Name\nint32,str\nbool,x\n") {
        Err(SchemaError::DuplicateCsvHeader { header, .. }) => {
            assert_eq!(header, "field types (basic type)")
        }
        other => panic!("unexpected result: {:?}", other),
    }
    // The identifier row is looked for first.
    match build_one("Both", "key,0\nkey,0\n#,Name\n#,Name\n") {
        Err(SchemaError::DuplicateCsvHeader { header, .. }) => assert_eq!(header, "key"),
        other => panic!("unexpected result: {:?}", other),
    }
}

#[test]
fn rows_of_different_width_are_not_csv() {
    assert!(matches!(
        build_one("Ragged", "key,0,1\n#,Name\nint32,str,str\n"),
        Err(SchemaError::CsvError(_))
    ));
}

#[test]
fn quoted_cells_are_read_by_the_csv_reader() {
    let schema = build_one(
        "Quoted",
        "key,0,1\n#,\"Name, full\",\"Say \"\"hi\"\"\"\nint32,str,\"str\"\n1,\"a\nb\",c\n",
    )
    .unwrap();
    assert_eq!(field_names(&schema), vec!["id", "nameFull", "sayHi"]);
}

#[test]
fn width_mismatch_between_identifiers_and_types() {
    let rows = |cells: &[&[&str]]| -> Vec<Vec<String>> {
        cells.iter().map(|row| row.iter().map(|cell| cell.to_string()).collect()).collect()
    };
    let records = rows(&[&["key", "0", "1"], &["#", "Name"], &["int32", "str"]]);
    assert_eq!(SchemaBuilder::find_field_names_row(&records, "x.csv").unwrap(), 0);
    assert_eq!(SchemaBuilder::find_field_descriptions_row(&records, "x.csv").unwrap(), 1);
    assert_eq!(SchemaBuilder::find_field_types_row(&records, "x.csv").unwrap(), 2);
    let records = rows(&[&[], &["bool"], &[" # "], &["\u{feff}\u{feff} key "]]);
    assert_eq!(SchemaBuilder::find_field_names_row(&records, "x.csv").unwrap(), 3);
    assert_eq!(SchemaBuilder::find_field_descriptions_row(&records, "x.csv").unwrap(), 2);
    assert_eq!(SchemaBuilder::find_field_types_row(&records, "x.csv").unwrap(), 1);
    let records = rows(&[&["\u{feff}#"], &[" \u{feff}key"]]);
    assert!(SchemaBuilder::find_field_names_row(&records, "x.csv").is_err());
    assert!(SchemaBuilder::find_field_descriptions_row(&records, "x.csv").is_err());
}

#[test]
fn type_tokens_are_classified_in_order() {
    assert_eq!(SchemaBuilder::parse_field_type("str").unwrap(), FieldType::String);
    assert_eq!(SchemaBuilder::parse_field_type(" uint16 ").unwrap(), FieldType::Uint16);
    assert_eq!(SchemaBuilder::parse_field_type("sbyte").unwrap(), FieldType::SByte);
    assert_eq!(SchemaBuilder::parse_field_type("float").unwrap(), FieldType::Float);
    assert_eq!(SchemaBuilder::parse_field_type("Image").unwrap(), FieldType::Image);
    assert_eq!(SchemaBuilder::parse_field_type("Row").unwrap(), FieldType::Row);
    assert_eq!(SchemaBuilder::parse_field_type("Key").unwrap(), FieldType::Key);
    assert_eq!(SchemaBuilder::parse_field_type("Color").unwrap(), FieldType::Color);
    assert_eq!(SchemaBuilder::parse_field_type("bit&01").unwrap(), FieldType::Bit(1));
    assert_eq!(SchemaBuilder::parse_field_type(" bit&80 ").unwrap(), FieldType::Bit(128));
    assert_eq!(SchemaBuilder::parse_field_type(" ClassJob ").unwrap(), custom("ClassJob"));
    assert_eq!(SchemaBuilder::parse_field_type("itemLevel").unwrap(), custom("itemLevel"));
    assert_eq!(SchemaBuilder::parse_field_type("unknown").unwrap(), FieldType::String);
    assert_eq!(SchemaBuilder::parse_field_type("").unwrap(), FieldType::String);
    match SchemaBuilder::parse_field_type(" bit&Category ") {
        Err(SchemaError::InvalidBitValue { input }) => assert_eq!(input, "bit&Category"),
        other => panic!("unexpected result: {:?}", other),
    }
}

#[test]
fn missing_reference_names_the_referring_file() {
    let mut dir = CsvDirectory::new();
    let item_path = create_test_csv(&mut dir, "Item", "key,0\n#,Category\nint32,ItemCategory\n");
    let mut builder = SchemaBuilder::new();
    match builder.build_schema_from_file(&item_path, &dir) {
        Err(SchemaError::FileNotFound { path, source_file }) => {
            assert_eq!(path, "/data/exd/ItemCategory.csv");
            assert_eq!(source_file, "/data/exd/Item.csv");
        }
        other => panic!("unexpected result: {:?}", other),
    }
    // Nothing is kept of a failed pass.
    assert_eq!(builder.get_all_schemas().len(), 0);
}

#[test]
fn missing_entry_file_names_itself() {
    let dir = CsvDirectory::new();
    let mut builder = SchemaBuilder::new();
    match builder.build_schema_from_file("data/Item.txt", &dir) {
        Err(SchemaError::FileNotFound { path, source_file }) => {
            assert_eq!(path, "data/Item.csv");
            assert_eq!(source_file, "data/Item.txt");
        }
        other => panic!("unexpected result: {:?}", other),
    }
}

#[test]
fn path_without_a_file_name_is_refused() {
    let dir = CsvDirectory::new();
    let mut builder = SchemaBuilder::default();
    for path in ["", "data/", "..", "data/."] {
        match builder.build_schema_from_file(path, &dir) {
            Err(SchemaError::InvalidFormat { reason }) => {
                assert_eq!(reason, "Cannot extract schema name from file path");
            }
            other => panic!("unexpected result: {:?}", other),
        }
    }
}

#[test]
fn failed_pass_keeps_nothing_of_what_it_resolved() {
    let mut dir = CsvDirectory::new();
    let entry = create_test_csv(&mut dir, "Entry", "key,0,1\n#,Good,Bad\nint32,GoodJob,BadJob\n");
    create_test_csv(&mut dir, "GoodJob", "key,0\n#,Name\nint32,str\n");
    create_test_csv(&mut dir, "BadJob", "key,0\n#,Flag\nint32,bit&XY\n");
    create_test_csv(&mut dir, "Other", "key,0\n#,Name\nint32,str\n");

    let mut builder = SchemaBuilder::new();
    builder.build_schema_from_file(&format!("{}/Other.csv", DIR), &dir).unwrap();
    match builder.build_schema_from_file(&entry, &dir) {
        Err(SchemaError::InvalidBitValue { input }) => assert_eq!(input, "bit&XY"),
        other => panic!("unexpected result: {:?}", other),
    }
    assert_eq!(builder.get_all_schemas().len(), 1);
    assert!(builder.get_all_schemas().contains_key("Other"));
    assert!(!builder.get_all_schemas().contains_key("GoodJob"));
}

#[test]
fn references_are_followed_in_column_order() {
    let mut dir = CsvDirectory::new();
    let entry = create_test_csv(
        &mut dir,
        "Entry",
        "key,0,1,2\n#,First,Flag,Second\nint32,FirstJob,bit&XY,SecondJob\n",
    );
    let mut builder = SchemaBuilder::new();
    // The first column's reference is missing: that is met before the bad bit value.
    assert!(matches!(
        builder.build_schema_from_file(&entry, &dir),
        Err(SchemaError::FileNotFound { .. })
    ));
    create_test_csv(&mut dir, "FirstJob", "key,0\n#,Name\nint32,str\n");
    // Now the bad bit value is met; the reference after it is never looked for.
    assert!(matches!(
        builder.build_schema_from_file(&entry, &dir),
        Err(SchemaError::InvalidBitValue { .. })
    ));
}

#[test]
fn long_chain_and_shared_references() {
    let mut dir = CsvDirectory::new();
    for i in 0..40 {
        let content = format!("key,0,1\n#,Next,Shared\nint32,Node{}Job,SharedJob\n", i + 1);
        create_test_csv(&mut dir, &format!("Node{}Job", i), &content);
    }
    create_test_csv(&mut dir, "Node40Job", "key,0\n#,Back\nint32,Node0Job\n");
    create_test_csv(&mut dir, "SharedJob", "key,0\n#,Name\nint32,str\n");
    let mut builder = SchemaBuilder::new();
    let name = builder.build_schema_from_file(&format!("{}/Node0Job.csv", DIR), &dir).unwrap();
    assert_eq!(name, "Node0Job");
    assert_eq!(builder.get_all_schemas().len(), 42);
    let last = builder.get_all_schemas().get("Node40Job").unwrap();
    assert_eq!(last.fields[1], field("back", custom("Node0Job")));
}

#[test]
fn known_schemas_are_not_read_again() {
    let mut dir = CsvDirectory::new();
    create_test_csv(&mut dir, "ItemCategory", "key,0\n#,Name\nint32,str\n");
    let mut builder = SchemaBuilder::new();
    builder.build_schema_from_file(&format!("{}/ItemCategory.csv", DIR), &dir).unwrap();

    // In the second directory the file of ItemCategory is broken, but the schema is known.
    let mut second = CsvDirectory::new();
    create_test_csv(&mut second, "Item", "key,0\n#,Category\nint32,ItemCategory\n");
    create_test_csv(&mut second, "ItemCategory", "broken");
    builder.build_schema_from_file(&format!("{}/Item.csv", DIR), &second).unwrap();
    assert_eq!(builder.get_all_schemas().len(), 2);
    assert_eq!(builder.get_all_schemas().get("ItemCategory").unwrap().fields.len(), 2);
}

#[test]
fn one_file_is_parsed_without_following_references() {
    let parsed = SchemaBuilder::parse_csv_file(
        b"key,0,1,2\n#,Job,Flag,Later\nint32,ClassJob,bit&GG,OtherJob\n",
        "Entry",
        "Entry.csv",
    )
    .unwrap();
    assert_eq!(parsed.schema.name, "Entry");
    assert_eq!(
        parsed.schema.fields,
        vec![field("id", FieldType::Int32), field("job", custom("ClassJob"))]
    );
    assert!(matches!(parsed.failure, Some(SchemaError::InvalidBitValue { .. })));

    let parsed = SchemaBuilder::parse_csv_file(b"key,0\n#,Name\nint32,str\n", "Ok", "Ok.csv").unwrap();
    assert!(parsed.failure.is_none());
    assert_eq!(parsed.schema.fields.len(), 2);
}
