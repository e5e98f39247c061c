//! An RFC 4180 style reader and writer for CSV tables.
//!
//! The parser is a byte-level state machine over the raw input; every cell
//! is then decoded as UTF-8 and trimmed of surrounding whitespace. Tables
//! come in two forms: [`UnheaderedCSVTable`], a plain sequence of rows, and
//! [`HeaderedCSVTable`], which reads the first row as column names and
//! balances all rows to one width.

pub mod encoding;
pub mod headered;
pub mod laws;
pub mod model;
pub mod text;
pub mod tokenizer;
pub mod unheadered;

pub use headered::HeaderedCSVTable;
pub use unheadered::UnheaderedCSVTable;
