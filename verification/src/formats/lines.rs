//! A line-oriented output format: every chunk written is terminated by a
//! newline character.

use vstd::prelude::*;
use crate::phases::output::SinkGenerator;

verus! {

/// Writer that separates the chunks written by newline characters.
pub struct LinesWriter {
    file: Vec<u8>,
}

impl LinesWriter {
    /// The bytes written so far.
    pub closed spec fn log(&self) -> Seq<u8> {
        self.file@
    }

    /// Returns a writer that appends to `w`.
    pub fn new_to_write(w: Vec<u8>) -> (r: LinesWriter)
        ensures
            r.log() == w@,
    {
        LinesWriter { file: w }
    }

    /// Appends one chunk and a newline.
    pub fn write(&mut self, buf: &Vec<u8>)
        ensures
            final(self).log() == old(self).log() + buf@ + seq![10u8],
    {
        let ghost prev = self.file@;
        let mut i: usize = 0;
        while i < buf.len()
            invariant
                i <= buf@.len(),
                self.file@ == prev + buf@.take(i as int),
            decreases buf@.len() - i,
        {
            self.file.push(buf[i]);
            proof {
                assert(prev + buf@.take(i + 1) =~= (prev + buf@.take(i as int)).push(buf@[i as int]));
            }
            i = i + 1;
        }
        self.file.push(10);
        proof {
            assert(buf@.take(buf@.len() as int) =~= buf@);
            assert(prev + buf@ + seq![10u8] =~= (prev + buf@).push(10u8));
        }
    }

    /// Hands the written bytes over.
    pub fn into_bytes(self) -> (r: Vec<u8>)
        ensures
            r@ == self.log(),
    {
        self.file
    }
}

/// A SinkGenerator handing out line-oriented in-memory sinks.
#[derive(Clone, Copy)]
pub struct LinesSinkGenerator;

impl LinesSinkGenerator {
    pub fn new_to_files() -> (r: LinesSinkGenerator) {
        LinesSinkGenerator
    }
}

impl SinkGenerator for LinesSinkGenerator {
    type Sink = LinesWriter;

    fn new_output(&self, name: &Vec<u8>) -> Self::Sink {
        LinesWriter::new_to_write(Vec::new())
    }
}

} // verus!
