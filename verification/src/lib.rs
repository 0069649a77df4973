//! An in-memory employee directory driven by short textual commands.
//!
//! The crate has three parts: `text` defines character classes and the
//! lexicographic order on names, `parser` classifies one line of input
//! into a structured command, and `directory` keeps each department's
//! roster sorted while employees are inserted.

pub mod directory;
pub mod parser;
pub mod text;
