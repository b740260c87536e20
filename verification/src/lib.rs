//! Tabular text handling: detection of a table's surface format (box-drawn
//! ASCII or comma-separated values), parsing into a uniform in-memory table,
//! and a heuristic that guesses whether the first row is a header.

pub mod table;
pub mod text;
pub mod numeric;
pub mod table_parser;
