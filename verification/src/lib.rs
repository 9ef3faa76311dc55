//! Column statistics, schema inference and row filters for tabular text.
//!
//! A table is a header and rows of text cells. `types` classifies a cell,
//! `schema` infers the type of every column, `stats` gathers the statistics
//! of chosen columns in one pass (`tally` counts their distinct values), and
//! `filter` with `parser` compiles and evaluates the predicate that picks
//! the rows. `commands` puts them together, row by row or for rows that are
//! all at hand. `number` reads the numbers exactly, so that nothing here rests
//! on rounding; sums, means and deviations are left to the caller, who gets
//! the numbers of a column in ascending order.
//!
//! `record` and `pattern` say what is taken on trust of the `csv` and
//! `regex` crates. `laws` holds what follows of the library as a whole.

pub mod cli;
pub mod commands;
pub mod csv_reader;
pub mod error;
pub mod filter;
pub mod laws;
pub mod number;
pub mod output;
pub mod parser;
pub mod pattern;
pub mod progress;
pub mod record;
pub mod schema;
pub mod stats;
pub mod tally;
pub mod text;
pub mod types;
