use noumenon_gleaner::{CsvDirectory, SchemaBuilder, SchemaError};

#[test]
fn failures_have_their_texts() {
    let missing = SchemaError::FileNotFound {
        path: "data/ItemCategory.csv".to_string(),
        source_file: "data/Item.csv".to_string(),
    };
    assert_eq!(
        missing.message(),
        "File not found: data/ItemCategory.csv (referenced from: data/Item.csv)"
    );
    let format = SchemaError::InvalidFormat { reason: "too short".to_string() };
    assert_eq!(format.message(), "Invalid CSV format: too short");
    let bit = SchemaError::InvalidBitValue { input: "bit&GG".to_string() };
    assert_eq!(bit.message(), "Invalid bit value format: bit&GG");
    let header = SchemaError::MissingCsvHeader { header: "#".to_string(), path: "a.csv".to_string() };
    assert_eq!(header.message(), "Required CSV header not found: # in file: a.csv");
    let twice =
        SchemaError::DuplicateCsvHeader { header: "key".to_string(), path: "a.csv".to_string() };
    assert_eq!(
        twice.message(),
        "Invalid CSV structure: found multiple key rows in file: a.csv"
    );
    assert_eq!(twice.message_with("unused"), twice.message());
}

#[test]
fn reader_failures_end_with_the_text_of_the_reader() {
    let mut dir = CsvDirectory::new();
    dir.add_file("Ragged.csv", b"key,0,1\n#,Name\nint32,str,x\n".to_vec());
    let error = SchemaBuilder::new().build_schema_from_file("Ragged.csv", &dir).unwrap_err();
    assert!(matches!(error, SchemaError::CsvError(_)));
    let text = error.message();
    assert!(text.starts_with("CSV parsing error: "));
    assert!(text.len() > "CSV parsing error: ".len());
    assert_eq!(error.message_with("detail"), "CSV parsing error: detail");

    let io = SchemaError::IoError(std::io::Error::new(std::io::ErrorKind::NotFound, "gone"));
    assert_eq!(io.message(), "IO error: gone");
    assert_eq!(io.message_with("x"), "IO error: x");
}

#[test]
fn invalid_utf8_is_a_reader_failure() {
    let mut dir = CsvDirectory::new();
    dir.add_file("Bad.csv", vec![b'k', b'e', b'y', b',', 0xff, b'\n', b'#', b',', b'a', b'\n', b'i', b',', b'b', b'\n']);
    let error = SchemaBuilder::new().build_schema_from_file("Bad.csv", &dir).unwrap_err();
    assert!(matches!(error, SchemaError::CsvError(_)));
}
