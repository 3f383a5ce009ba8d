//! Input/output formats: the length-prefixed record stream used for
//! intermediate data, a line-oriented sink, and adapters between byte
//! strings and records.

pub mod fake;
pub mod lines;
pub mod util;
pub mod writelog;
