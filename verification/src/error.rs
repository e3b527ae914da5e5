//! The failures of schema resolution.

use vstd::prelude::*;
use vstd::string::StringExecFns;

verus! {

/// `csv::Error`, the failure of the CSV reader. Nothing is known of its
/// contents here; it is carried through to the caller.
#[verifier::external_type_specification]
#[verifier::external_body]
pub struct ExCsvError(csv::Error);

/// `std::io::Error`, the failure of reading a file. Nothing is known of its
/// contents here; it is carried through to the caller.
#[verifier::external_type_specification]
#[verifier::external_body]
pub struct ExIoError(std::io::Error);

/// Why a resolution pass failed.
#[derive(Debug)]
pub enum SchemaError {
    /// A referenced schema has no file; `source_file` is the file that
    /// refers to it.
    FileNotFound { path: String, source_file: String },
    /// The file is not well-formed CSV.
    CsvError(csv::Error),
    /// A file could not be read. The library reads no file itself: this
    /// failure is made by the caller that reads the files.
    IoError(std::io::Error),
    /// Too few rows, rows of different width, or no schema name in the path.
    InvalidFormat { reason: String },
    /// A `bit&` token without a hexadecimal value in `0..=255`.
    InvalidBitValue { input: String },
    /// A header row is missing.
    MissingCsvHeader { header: String, path: String },
    /// A header row occurs more than once.
    DuplicateCsvHeader { header: String, path: String },
}

/// Mathematical model of a [`SchemaError`].
pub enum SchemaErrorView {
    FileNotFound { path: Seq<char>, source_file: Seq<char> },
    CsvError,
    IoError,
    InvalidFormat { reason: Seq<char> },
    InvalidBitValue { input: Seq<char> },
    MissingCsvHeader { header: Seq<char>, path: Seq<char> },
    DuplicateCsvHeader { header: Seq<char>, path: Seq<char> },
}

impl View for SchemaError {
    type V = SchemaErrorView;

    open spec fn view(&self) -> SchemaErrorView {
        match self {
            SchemaError::FileNotFound { path, source_file } => SchemaErrorView::FileNotFound {
                path: path@,
                source_file: source_file@,
            },
            SchemaError::CsvError(_) => SchemaErrorView::CsvError,
            SchemaError::IoError(_) => SchemaErrorView::IoError,
            SchemaError::InvalidFormat { reason } => SchemaErrorView::InvalidFormat {
                reason: reason@,
            },
            SchemaError::InvalidBitValue { input } => SchemaErrorView::InvalidBitValue {
                input: input@,
            },
            SchemaError::MissingCsvHeader { header, path } => SchemaErrorView::MissingCsvHeader {
                header: header@,
                path: path@,
            },
            SchemaError::DuplicateCsvHeader {
                header,
                path,
            } => SchemaErrorView::DuplicateCsvHeader { header: header@, path: path@ },
        }
    }
}

/// The text of a failure, where `detail` is what the CSV reader, or the
/// reading of the file, says of its own failure.
pub open spec fn message_text(e: SchemaErrorView, detail: Seq<char>) -> Seq<char> {
    match e {
        SchemaErrorView::FileNotFound { path, source_file } => "File not found: "@ + path
            + " (referenced from: "@ + source_file + ")"@,
        SchemaErrorView::CsvError => "CSV parsing error: "@ + detail,
        SchemaErrorView::IoError => "IO error: "@ + detail,
        SchemaErrorView::InvalidFormat { reason } => "Invalid CSV format: "@ + reason,
        SchemaErrorView::InvalidBitValue { input } => "Invalid bit value format: "@ + input,
        SchemaErrorView::MissingCsvHeader { header, path } => "Required CSV header not found: "@
            + header + " in file: "@ + path,
        SchemaErrorView::DuplicateCsvHeader {
            header,
            path,
        } => "Invalid CSV structure: found multiple "@ + header + " rows in file: "@ + path,
    }
}

/// What `csv::Error` displays of itself, by its `Display`. Nothing is
/// claimed of the text.
#[verifier::external_body]
fn csv_error_text(e: &csv::Error) -> (text: String) {
    e.to_string()
}

/// What `std::io::Error` displays of itself, by its `Display`. Nothing
/// is claimed of the text.
#[verifier::external_body]
fn io_error_text(e: &std::io::Error) -> (text: String) {
    e.to_string()
}

impl SchemaError {
    /// The text of the failure, with `detail` for what the CSV reader, or
    /// the reading of the file, says of its own failure.
    pub fn message_with(&self, detail: &str) -> (text: String)
        ensures
            text@ == message_text(self@, detail@),
    {
        let mut text = String::new();
        match self {
            SchemaError::FileNotFound { path, source_file } => {
                text.append("File not found: ");
                text.append(path.as_str());
                text.append(" (referenced from: ");
                text.append(source_file.as_str());
                text.append(")");
            },
            SchemaError::CsvError(_) => {
                text.append("CSV parsing error: ");
                text.append(detail);
            },
            SchemaError::IoError(_) => {
                text.append("IO error: ");
                text.append(detail);
            },
            SchemaError::InvalidFormat { reason } => {
                text.append("Invalid CSV format: ");
                text.append(reason.as_str());
            },
            SchemaError::InvalidBitValue { input } => {
                text.append("Invalid bit value format: ");
                text.append(input.as_str());
            },
            SchemaError::MissingCsvHeader { header, path } => {
                text.append("Required CSV header not found: ");
                text.append(header.as_str());
                text.append(" in file: ");
                text.append(path.as_str());
            },
            SchemaError::DuplicateCsvHeader { header, path } => {
                text.append("Invalid CSV structure: found multiple ");
                text.append(header.as_str());
                text.append(" rows in file: ");
                text.append(path.as_str());
            },
        }
        assert(text@ =~= message_text(self@, detail@));
        text
    }

    /// The text of the failure. For a failure of the CSV reader or of the
    /// reading of a file, the text ends with what that failure says of
    /// itself.
    pub fn message(&self) -> (text: String)
        ensures
            exists|detail: Seq<char>| text@ == message_text(self@, detail),
            !(self@ is CsvError) && !(self@ is IoError) ==> text@ == message_text(
                self@,
                Seq::empty(),
            ),
    {
        match self {
            SchemaError::CsvError(e) => {
                let detail = csv_error_text(e);
                self.message_with(detail.as_str())
            },
            SchemaError::IoError(e) => {
                let detail = io_error_text(e);
                self.message_with(detail.as_str())
            },
            _ => self.message_with(""),
        }
    }
}

} // verus!
