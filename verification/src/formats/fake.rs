//! A sink generator for tests and dry runs: every output lands in a fresh
//! in-memory buffer.

use vstd::prelude::*;
use crate::formats::lines::LinesWriter;
use crate::phases::output::SinkGenerator;

verus! {

/// Hands out line-oriented sinks backed by plain byte buffers.
#[derive(Clone, Copy)]
pub struct BufWriterSinkGen;

impl BufWriterSinkGen {
    pub fn new() -> (r: BufWriterSinkGen) {
        BufWriterSinkGen
    }
}

impl SinkGenerator for BufWriterSinkGen {
    type Sink = LinesWriter;

    fn new_output(&self, name: &Vec<u8>) -> Self::Sink {
        LinesWriter::new_to_write(Vec::new())
    }
}

} // verus!
