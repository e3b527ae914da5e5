//! Schema resolution for families of cross-referencing CSV files, and
//! generation of TypeScript interface declarations from the resolved schemas.

pub mod builder;
pub mod error;
pub mod graph;
pub mod header;
pub mod image;
pub mod naming;
pub mod parse;
pub mod paths;
pub mod schema_map;
pub mod source;
pub mod text;
pub mod types;
pub mod typescript;
pub mod utils;

pub use builder::SchemaBuilder;
pub use error::SchemaError;
pub use image::encode_image_path;
pub use parse::ParsedFile;
pub use paths::extract_schema_name_from_path;
pub use schema_map::SchemaMap;
pub use source::CsvDirectory;
pub use types::{Field, FieldType, Schema};
pub use typescript::TypeScriptGenerator;
pub use utils::{analyze_missing_files, file_exists, find_missing_files_in_types};
pub use utils::{is_likely_custom_type, is_special_type, parse_bit_value};
