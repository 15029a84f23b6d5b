//! Convert one worksheet of a spreadsheet, given as a grid of rendered cell
//! texts, into an array of records with normalized, JSON-safe keys.
//!
//! The library covers the logic of the conversion: detecting visible columns,
//! resolving a user-supplied column selection, normalizing header names, and
//! building one record per data row. Reading the workbook and writing the
//! serialized output are left to the caller.

pub mod columns;
pub mod convert;
pub mod errors;
pub mod normalize;
pub mod numbers;
pub mod records;
pub mod text;

pub use columns::get_visible_column_indices;
pub use columns::parse_visible_column_numbers;
pub use convert::convert_grid;
pub use errors::ConvertError;
pub use normalize::normalize_column_name;
pub use records::{build_record, convert_rows_to_records, extract_headers, Record, RecordField};
