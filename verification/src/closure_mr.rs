//! A MapReducer built from supplied map() and reduce() callables.

use vstd::prelude::*;
use crate::mapreducer::{DefaultSharder, Mapper, Reducer, Sharder};
use crate::record_types::{MEmitter, MultiRecord, REmitter, Record};

verus! {

/// The map and reduce callables, guarded by their invariant.
struct Callables<FM, FR> where
    FM: Fn(Record) -> Vec<Record>,
    FR: Fn(MultiRecord) -> Vec<Vec<u8>>,
 {
    mapper: FM,
    reducer: FR,
}

impl<FM, FR> Callables<FM, FR> where
    FM: Fn(Record) -> Vec<Record>,
    FR: Fn(MultiRecord) -> Vec<Vec<u8>>,
 {
    /// The supplied callables accept every input the engine may hand
    /// them.
    #[verifier::type_invariant]
    closed spec fn callable(&self) -> bool {
        &&& forall|r: Record| call_requires(self.mapper, (r,))
        &&& forall|mr: MultiRecord| call_requires(self.reducer, (mr,))
    }
}

/// Implements the engine's Mapper, Reducer and Sharder traits from plain
/// callables: the mapper returns the records it emits for one input
/// record, the reducer the byte strings it emits for one group. Use it to
/// provide your own functions to a mapreduce process; for more
/// flexibility, implement the traits on a type of your own.
pub struct ClosureMapReducer<FM, FR, FS> where
    FM: Fn(Record) -> Vec<Record>,
    FR: Fn(MultiRecord) -> Vec<Vec<u8>>,
    FS: Sharder,
 {
    c: Callables<FM, FR>,
    sharder: FS,
}

impl<FM, FR, FS> ClosureMapReducer<FM, FR, FS> where
    FM: Fn(Record) -> Vec<Record>,
    FR: Fn(MultiRecord) -> Vec<Vec<u8>>,
    FS: Sharder,
 {
    /// Replaces the sharding strategy, keeping map and reduce callables.
    pub fn set_sharder<FS2: Sharder>(self, s: FS2) -> (r: ClosureMapReducer<FM, FR, FS2>) {
        let ClosureMapReducer { c, sharder: _ } = self;
        ClosureMapReducer { c, sharder: s }
    }
}

impl<FM, FR> ClosureMapReducer<FM, FR, DefaultSharder> where
    FM: Fn(Record) -> Vec<Record>,
    FR: Fn(MultiRecord) -> Vec<Vec<u8>>,
 {
    /// Create a new MapReducer from the supplied functions, sharding by
    /// the default hash-modulo routing.
    pub fn new(mapper: FM, reducer: FR) -> (r: ClosureMapReducer<FM, FR, DefaultSharder>)
        requires
            forall|rec: Record| call_requires(mapper, (rec,)),
            forall|mr: MultiRecord| call_requires(reducer, (mr,)),
    {
        ClosureMapReducer { c: Callables { mapper, reducer }, sharder: DefaultSharder }
    }
}

impl<FM, FR, FS> Mapper for ClosureMapReducer<FM, FR, FS> where
    FM: Fn(Record) -> Vec<Record>,
    FR: Fn(MultiRecord) -> Vec<Vec<u8>>,
    FS: Sharder,
 {
    fn map(&mut self, e: &mut MEmitter, r: Record) {
        proof {
            use_type_invariant(&self.c);
        }
        let mut results = (self.c.mapper)(r);
        loop
            decreases results@.len(),
        {
            if results.len() == 0 {
                break;
            }
            let rec = results.remove(0);
            e.emit(rec.key, rec.value);
        }
    }
}

impl<FM, FR, FS> Reducer for ClosureMapReducer<FM, FR, FS> where
    FM: Fn(Record) -> Vec<Record>,
    FR: Fn(MultiRecord) -> Vec<Vec<u8>>,
    FS: Sharder,
 {
    fn reduce(&mut self, e: &mut REmitter, r: MultiRecord) {
        proof {
            use_type_invariant(&self.c);
        }
        let mut results = (self.c.reducer)(r);
        loop
            decreases results@.len(),
        {
            if results.len() == 0 {
                break;
            }
            let val = results.remove(0);
            e.emit(val);
        }
    }
}

impl<FM, FR, FS> Sharder for ClosureMapReducer<FM, FR, FS> where
    FM: Fn(Record) -> Vec<Record>,
    FR: Fn(MultiRecord) -> Vec<Vec<u8>>,
    FS: Sharder,
 {
    fn shard(&mut self, n: usize, k: &Vec<u8>) -> (r: usize) {
        self.sharder.shard(n, k)
    }
}

} // verus!
