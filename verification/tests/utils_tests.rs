use noumenon_gleaner::utils::{classify_basic_type, is_bit_type, is_likely_custom_type_given};
use noumenon_gleaner::{
    analyze_missing_files, extract_schema_name_from_path, file_exists,
    find_missing_files_in_types, is_likely_custom_type, is_special_type, parse_bit_value,
    CsvDirectory, FieldType, SchemaError,
};

fn record(cells: &[&str]) -> Vec<String> {
    cells.iter().map(|cell| cell.to_string()).collect()
}

#[test]
fn test_is_likely_custom_type() {
    // Basic types should return false
    assert!(!is_likely_custom_type("str"));
    assert!(!is_likely_custom_type("int32"));
    assert!(!is_likely_custom_type("bool"));
    assert!(!is_likely_custom_type("bit&01"));

    // Special types should return false (they have their own processing)
    assert!(!is_likely_custom_type("Image"));
    assert!(!is_likely_custom_type("Row"));
    assert!(!is_likely_custom_type("Key"));
    assert!(!is_likely_custom_type("Color"));

    // Custom types should return true
    assert!(is_likely_custom_type("ItemCategory"));
    assert!(is_likely_custom_type("ClassJob"));
}

#[test]
fn custom_type_heuristic_edges() {
    assert!(is_likely_custom_type("  ItemCategory  "));
    assert!(is_likely_custom_type("itemLevel"));
    assert!(is_likely_custom_type("myParam"));
    assert!(is_likely_custom_type("theCompany"));
    assert!(is_likely_custom_type("tvSeries"));
    assert!(is_likely_custom_type("anAction"));
    assert!(is_likely_custom_type("someJob"));
    assert!(is_likely_custom_type("Quest"));
    assert!(is_likely_custom_type("\u{394}elta"));
    assert!(!is_likely_custom_type("quest"));
    assert!(!is_likely_custom_type("level"));
    assert!(!is_likely_custom_type(""));
    assert!(!is_likely_custom_type("   "));
    assert!(!is_likely_custom_type(" str "));
    assert!(!is_likely_custom_type(" Image "));
    assert!(!is_likely_custom_type("bit&Category"));
    assert!(!is_likely_custom_type("1Quest"));
    // The token is matched as written: `Str` is no basic type.
    assert!(is_likely_custom_type("Str"));
}

#[test]
fn custom_type_decision_for_a_given_first_character() {
    assert!(is_likely_custom_type_given("quest", true));
    assert!(!is_likely_custom_type_given("quest", false));
    assert!(is_likely_custom_type_given("itemLevel", false));
    assert!(!is_likely_custom_type_given("int32", true));
    assert!(!is_likely_custom_type_given("Key", true));
    assert!(!is_likely_custom_type_given("bit&01", true));
}

#[test]
fn test_is_special_type() {
    // Special types should return true
    assert!(is_special_type("Image"));
    assert!(is_special_type("Row"));
    assert!(is_special_type("Key"));
    assert!(is_special_type("Color"));

    // Basic and custom types should return false
    assert!(!is_special_type("str"));
    assert!(!is_special_type("int32"));
    assert!(!is_special_type("ItemCategory"));
    assert!(!is_special_type("bit&01"));
}

#[test]
fn special_types_are_matched_trimmed_and_as_written() {
    assert!(is_special_type(" Row\t"));
    assert!(!is_special_type("row"));
    assert!(!is_special_type("Rows"));
    assert!(!is_special_type(""));
}

#[test]
fn basic_types_are_classified() {
    assert_eq!(classify_basic_type("str"), Some(FieldType::String));
    assert_eq!(classify_basic_type("int32"), Some(FieldType::Int32));
    assert_eq!(classify_basic_type("uint32"), Some(FieldType::Uint32));
    assert_eq!(classify_basic_type("int16"), Some(FieldType::Int16));
    assert_eq!(classify_basic_type("uint16"), Some(FieldType::Uint16));
    assert_eq!(classify_basic_type("byte"), Some(FieldType::Byte));
    assert_eq!(classify_basic_type("sbyte"), Some(FieldType::SByte));
    assert_eq!(classify_basic_type("float"), Some(FieldType::Float));
    assert_eq!(classify_basic_type("bool"), Some(FieldType::Bool));
    assert_eq!(classify_basic_type("  bool \n"), Some(FieldType::Bool));
    assert_eq!(classify_basic_type("Bool"), None);
    assert_eq!(classify_basic_type("int"), None);
    assert_eq!(classify_basic_type(""), None);
}

#[test]
fn bit_tokens_are_recognised_by_their_prefix() {
    assert!(is_bit_type("bit&01"));
    assert!(is_bit_type("bit&"));
    assert!(is_bit_type("bit&zz"));
    assert!(!is_bit_type("bit"));
    assert!(!is_bit_type(" bit&01"));
    assert!(!is_bit_type("Bit&01"));
}

#[test]
fn test_parse_bit_value() {
    assert!(matches!(parse_bit_value("bit&01"), Ok(1)));
    assert!(matches!(parse_bit_value("bit&02"), Ok(2)));
    assert!(matches!(parse_bit_value("bit&FF"), Ok(255)));
    assert!(parse_bit_value("invalid").is_err());
    assert!(parse_bit_value("bit&").is_err());
    assert!(parse_bit_value("bit&GG").is_err());

    // Test specific error message for invalid input
    if let Err(SchemaError::InvalidBitValue { input }) = parse_bit_value("invalid") {
        assert_eq!(input, "invalid");
    } else {
        panic!("Expected InvalidBitValue error");
    }
}

#[test]
fn bit_values_are_hexadecimal_and_at_most_255() {
    assert!(matches!(parse_bit_value("bit&80"), Ok(128)));
    assert!(matches!(parse_bit_value("bit&ff"), Ok(255)));
    assert!(matches!(parse_bit_value("bit&aB"), Ok(171)));
    assert!(matches!(parse_bit_value("bit&0"), Ok(0)));
    assert!(matches!(parse_bit_value("bit&000010"), Ok(16)));
    assert!(parse_bit_value("bit&100").is_err());
    assert!(parse_bit_value("bit&FFFFFFFFFFFFFFFFFFFFFFFFFFFFFFFF").is_err());
    assert!(parse_bit_value("bit&-1").is_err());
    assert!(parse_bit_value("bit&+").is_err());
    assert!(parse_bit_value("bit&+7f").is_err());
    assert!(parse_bit_value("bit& 01").is_err());
    assert!(parse_bit_value("bit&01 ").is_err());
    assert!(parse_bit_value("bit&0x01").is_err());
    assert!(parse_bit_value("01").is_err());
    for value in 0..=255u32 {
        let token = format!("bit&{:02X}", value);
        assert!(matches!(parse_bit_value(&token), Ok(v) if u32::from(v) == value));
    }
}

#[test]
fn test_find_missing_files_in_types() {
    let record = record(&["str", "int32", "CustomType", "bool"]);
    let dir = CsvDirectory::new();

    let missing_files = find_missing_files_in_types(&record, ".", &dir);

    // CustomType should be detected as missing (the file does not exist)
    assert!(missing_files.contains(&"CustomType".to_string()));
    // Basic types should not be in the missing files
    assert!(!missing_files.contains(&"str".to_string()));
    assert!(!missing_files.contains(&"int32".to_string()));
    assert!(!missing_files.contains(&"bool".to_string()));
}

#[test]
fn test_file_exists() {
    // Test with a file that does not exist
    assert!(!file_exists(".", "NonExistentType", &CsvDirectory::new()));

    // Test with current directory (should exist)
    assert!(std::path::Path::new(".").exists());
}

#[test]
fn file_exists_looks_beside_the_directory_name() {
    let mut dir = CsvDirectory::new();
    assert!(dir.add_file("data/Item.csv", Vec::new()));
    assert!(dir.add_file("Loose.csv", Vec::new()));
    assert!(dir.add_file("./Dotted.csv", Vec::new()));
    assert!(file_exists("data", "Item", &dir));
    assert!(file_exists("data/", "Item", &dir));
    assert!(!file_exists("data", "item", &dir));
    assert!(!file_exists("other", "Item", &dir));
    assert!(file_exists("", "Loose", &dir));
    assert!(!file_exists(".", "Loose", &dir));
    assert!(file_exists(".", "Dotted", &dir));
}

#[test]
fn test_color_type_not_treated_as_custom() {
    let record = record(&["str", "int32", "Color", "bool"]);
    let dir = CsvDirectory::new();

    let missing_files = find_missing_files_in_types(&record, ".", &dir);

    // Color should not be treated as a missing custom type
    assert!(!missing_files.contains(&"Color".to_string()));
    // Basic types should not be in the missing files
    assert!(!missing_files.contains(&"str".to_string()));
    assert!(!missing_files.contains(&"int32".to_string()));
    assert!(!missing_files.contains(&"bool".to_string()));
}

#[test]
fn test_mixed_types_with_color() {
    let record = record(&["str", "Color", "Image", "CustomType", "Row", "Key"]);
    let dir = CsvDirectory::new();

    let missing_files = find_missing_files_in_types(&record, ".", &dir);

    // Only CustomType should be detected as missing
    assert!(missing_files.contains(&"CustomType".to_string()));

    // Special types should not be treated as missing
    assert!(!missing_files.contains(&"Color".to_string()));
    assert!(!missing_files.contains(&"Image".to_string()));
    assert!(!missing_files.contains(&"Row".to_string()));
    assert!(!missing_files.contains(&"Key".to_string()));

    // Basic type should not be treated as missing
    assert!(!missing_files.contains(&"str".to_string()));
}

#[test]
fn missing_files_are_listed_in_column_order_without_present_ones() {
    let mut dir = CsvDirectory::new();
    dir.add_file("data/Present.csv", Vec::new());
    let row = record(&["int32", " Zeta ", "Present", "Alpha", "bit&01", "Zeta", "plain"]);
    assert_eq!(
        find_missing_files_in_types(&row, "data", &dir),
        vec!["Zeta".to_string(), "Alpha".to_string(), "Zeta".to_string()]
    );
    assert_eq!(find_missing_files_in_types(&Vec::new(), "data", &dir), Vec::<String>::new());
}

#[test]
fn missing_file_analysis_reads_the_third_row() {
    let mut dir = CsvDirectory::new();
    dir.add_file(
        "data/Item.csv",
        b"key,0,1,2\n#,Name,Category,Series\nint32,str,ItemCategory,ItemSeries\n1,a,2,3\n".to_vec(),
    );
    dir.add_file("data/ItemSeries.csv", b"key,0\n#,Name\nint32,str\n".to_vec());
    let missing = analyze_missing_files("data/Item.csv", &dir).unwrap();
    assert_eq!(missing, vec!["ItemCategory".to_string()]);
}

#[test]
fn missing_file_analysis_of_a_short_file_is_empty() {
    let mut dir = CsvDirectory::new();
    dir.add_file("Short.csv", b"key,0\n#,Name\n".to_vec());
    assert_eq!(analyze_missing_files("Short.csv", &dir).unwrap(), Vec::<String>::new());
}

#[test]
fn missing_file_analysis_fails_without_the_entry_file() {
    let dir = CsvDirectory::new();
    match analyze_missing_files("data/Item.csv", &dir) {
        Err(SchemaError::FileNotFound { path, source_file }) => {
            assert_eq!(path, "data/Item.csv");
            assert_eq!(source_file, "data/Item.csv");
        }
        other => panic!("unexpected result: {:?}", other),
    }
}

#[test]
fn missing_file_analysis_passes_on_csv_failures() {
    let mut dir = CsvDirectory::new();
    dir.add_file("Ragged.csv", b"key,0,1\n#,Name\nint32,str,Quest\n".to_vec());
    assert!(matches!(
        analyze_missing_files("Ragged.csv", &dir),
        Err(SchemaError::CsvError(_))
    ));
}

#[test]
fn schema_names_come_from_the_file_name() {
    assert_eq!(extract_schema_name_from_path("Item.csv"), Some("Item".to_string()));
    assert_eq!(extract_schema_name_from_path("data/exd/Item.csv"), Some("Item".to_string()));
    assert_eq!(extract_schema_name_from_path("/Item.csv"), Some("Item".to_string()));
    assert_eq!(extract_schema_name_from_path("data/Item"), Some("Item".to_string()));
    assert_eq!(extract_schema_name_from_path("Item.v2.csv"), Some("Item.v2".to_string()));
    assert_eq!(extract_schema_name_from_path("data.d/Item"), Some("Item".to_string()));
    assert_eq!(extract_schema_name_from_path(".hidden"), Some(".hidden".to_string()));
    assert_eq!(extract_schema_name_from_path("Item."), Some("Item".to_string()));
    assert_eq!(extract_schema_name_from_path("..csv"), Some(".".to_string()));
    assert_eq!(extract_schema_name_from_path(""), None);
    assert_eq!(extract_schema_name_from_path("data/"), None);
    assert_eq!(extract_schema_name_from_path("."), None);
    assert_eq!(extract_schema_name_from_path(".."), None);
    assert_eq!(extract_schema_name_from_path("data/.."), None);
}

#[test]
fn schema_names_agree_with_the_standard_library_on_plain_paths() {
    for path in ["Item.csv", "a/b/Item.csv", "/x/Item.tar.gz", "Item", ".hidden", "dir/.hidden.csv"] {
        let expected = std::path::Path::new(path)
            .file_stem()
            .and_then(|stem| stem.to_str())
            .map(|stem| stem.to_string());
        assert_eq!(extract_schema_name_from_path(path), expected, "{}", path);
    }
}

#[test]
fn directory_keeps_the_first_file_of_a_path() {
    let mut dir = CsvDirectory::new();
    assert_eq!(dir.len(), 0);
    assert!(dir.add_file("a.csv", b"one".to_vec()));
    assert!(!dir.add_file("a.csv", b"two".to_vec()));
    assert!(dir.add_file("b.csv", b"three".to_vec()));
    assert_eq!(dir.len(), 2);
    assert_eq!(dir.get("a.csv"), Some(&b"one".to_vec()));
    assert_eq!(dir.get("b.csv"), Some(&b"three".to_vec()));
    assert_eq!(dir.get("c.csv"), None);
    assert!(dir.contains("a.csv"));
    assert!(!dir.contains("A.csv"));
}

#[test]
fn white_space_is_what_the_standard_library_trims() {
    for code in 0..=0x10FFFFu32 {
        if let Some(c) = char::from_u32(code) {
            let token = format!("{}Row{}", c, c);
            assert_eq!(is_special_type(&token), c.is_whitespace(), "U+{:04X}", code);
        }
    }
}

#[test]
fn ascii_uppercase_letters_are_a_to_z() {
    for code in 0..128u8 {
        let c = char::from(code);
        assert_eq!(c.is_uppercase(), c.is_ascii_uppercase());
        // A token of one character holds none of the marking words.
        let expected = c.is_ascii_uppercase();
        assert_eq!(is_likely_custom_type(&c.to_string()), expected, "{:?}", c);
    }
}

#[test]
fn bit_values_agree_with_the_standard_library_on_unsigned_digits() {
    let digits = ['0', '1', '9', 'a', 'f', 'A', 'F', 'g', 'G', ' ', '-', 'x'];
    let mut tokens = vec![String::new()];
    for a in digits {
        tokens.push(a.to_string());
        for b in digits {
            tokens.push(format!("{}{}", a, b));
            for c in digits {
                tokens.push(format!("{}{}{}", a, b, c));
            }
        }
    }
    for digits in tokens {
        let expected = u8::from_str_radix(&digits, 16).ok();
        let token = format!("bit&{}", digits);
        assert_eq!(parse_bit_value(&token).ok(), expected, "{:?}", token);
    }
}
