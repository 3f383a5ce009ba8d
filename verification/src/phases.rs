//! The phases of a run: mapping and reduce-side output plumbing.

pub mod map;
pub mod output;
