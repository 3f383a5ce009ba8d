//! A single-machine MapReduce execution engine.
//!
//! The library drives a user-supplied pair of map and reduce functions over a
//! record stream, producing per-shard sorted outputs. Input is partitioned
//! into chunks; each chunk is sorted, mapped, grouped and sharded into
//! intermediate length-prefixed record streams; the reduce side merges the
//! sorted intermediates per shard, groups records by key and drives the
//! reduce function. All data transformations happen on in-memory byte
//! buffers; a host program is responsible for moving those buffers to and
//! from files and for running partitions in parallel.

pub mod closure_mr;
pub mod controller;
pub mod formats;
pub mod input_cache;
pub mod mapreducer;
pub mod parameters;
pub mod phases;
pub mod record_types;
pub mod reduce;
pub mod shard_merge;
pub mod sort;
pub mod util;
