//! The Mapper, Reducer and Sharder traits and the default sharding
//! function.

use vstd::prelude::*;
use crate::record_types::{MEmitter, MultiRecord, REmitter, Record};

verus! {

/// One step of the FNV-1a hash: mix one byte into the state.
pub open spec fn fnv_step(h: u64, b: u8) -> u64 {
    ((((h ^ (b as u64)) as nat) * 0x100000001b3) % 0x10000000000000000) as u64
}

/// The FNV-1a hash of a byte string.
pub open spec fn fnv1a(s: Seq<u8>) -> u64
    decreases s.len(),
{
    if s.len() == 0 {
        0xcbf29ce484222325
    } else {
        fnv_step(fnv1a(s.drop_last()), s.last())
    }
}

/// The shard the default sharding function routes a key to.
pub open spec fn std_shard_of(n: int, key: Seq<u8>) -> int {
    (fnv1a(key) as int) % n
}

/// The FNV-1a hash of a byte string, executable form.
pub fn fnv1a_hash(s: &Vec<u8>) -> (h: u64)
    ensures
        h == fnv1a(s@),
{
    let mut h: u64 = 0xcbf29ce484222325;
    let mut i: usize = 0;
    proof {
        assert(s@.take(0) =~= Seq::<u8>::empty());
    }
    while i < s.len()
        invariant
            i <= s@.len(),
            h == fnv1a(s@.take(i as int)),
        decreases s@.len() - i,
    {
        let mixed = h ^ (s[i] as u64);
        h = mixed.wrapping_mul(0x100000001b3);
        proof {
            assert(s@.take(i + 1).drop_last() =~= s@.take(i as int));
            assert(s@.take(i + 1).last() == s@[i as int]);
        }
        i = i + 1;
    }
    proof {
        assert(s@.take(s@.len() as int) =~= s@);
    }
    h
}

/// Default sharding function: the FNV-1a hash of the key, modulo the
/// shard count. Deterministic in (n, key).
pub fn _std_shard(n: usize, key: &Vec<u8>) -> (r: usize)
    requires
        n >= 1,
    ensures
        r == std_shard_of(n as int, key@),
        r < n,
{
    let h = fnv1a_hash(key);
    (h % (n as u64)) as usize
}

pub trait Mapper: Sized {
    /// Takes one (key, value) pair and an emitter.
    /// The emitter is used to yield results from the map phase.
    ///
    /// This method takes a `&mut self`; an implementation can use that to
    /// cache expensive objects between runs.
    fn map(&mut self, em: &mut MEmitter, record: Record);
}

pub trait Reducer: Sized {
    /// Takes one key with all its values and emits any number of output
    /// byte strings.
    ///
    /// This method takes a `&mut self`; an implementation can use that to
    /// cache expensive objects between runs.
    fn reduce(&mut self, em: &mut REmitter, records: MultiRecord);
}

pub trait Sharder: Sized {
    /// Determines how to map keys to (reduce) shards.
    /// Returns a number in [0, n) determining the shard the key belongs in.
    /// The default implementation uses a hash and modulo.
    fn shard(&mut self, n: usize, key: &Vec<u8>) -> (r: usize)
        requires
            n >= 1,
        ensures
            r < n,
    {
        _std_shard(n, key)
    }
}

/// A sharder that uses the default hash-modulo routing.
#[derive(Clone)]
pub struct DefaultSharder;

impl Sharder for DefaultSharder {
}

} // verus!
