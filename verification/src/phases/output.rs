//! Naming of output files and the sink contract.

use vstd::prelude::*;
use crate::formats::util::RecordReadIterator;
use crate::formats::writelog::{WriteLogReader, records_of, wl_entries};
use crate::parameters::MRParameters;
use crate::record_types::{RecordStream, copy_bytes, vecs_view};
use crate::util::{dec_u64, u64_to_dec};

verus! {

/// The name of the intermediate file a map shard writes for one reduce
/// shard: `<location><mapper>.<shard>`.
pub open spec fn map_output_name_spec(base: Seq<u8>, mapper: nat, shard: nat) -> Seq<u8> {
    base + dec_u64(mapper) + seq![46u8] + dec_u64(shard)
}

/// The name of a final reduce output shard: `<prefix><shard>`.
pub open spec fn reduce_output_name_spec(prefix: Seq<u8>, shard: nat) -> Seq<u8> {
    prefix + dec_u64(shard)
}

/// Renders the name of the intermediate file for map shard `mapper` and
/// reduce shard `shard`.
pub fn map_output_name(base: &Vec<u8>, mapper: usize, shard: usize) -> (r: Vec<u8>)
    ensures
        r@ == map_output_name_spec(base@, mapper as nat, shard as nat),
{
    let mut r = copy_bytes(base);
    let mut m = u64_to_dec(mapper as u64);
    r.append(&mut m);
    r.push(46);
    let mut s = u64_to_dec(shard as u64);
    r.append(&mut s);
    proof {
        assert(r@ =~= map_output_name_spec(base@, mapper as nat, shard as nat));
    }
    r
}

/// Calculates the name of a reduce output shard from the parameters.
pub fn get_reduce_output_name(params: &MRParameters) -> (r: Vec<u8>)
    ensures
        r@ == reduce_output_name_spec(
            params.reduce_output_shard_prefix@,
            params.shard_id as nat,
        ),
{
    let mut r = copy_bytes(&params.reduce_output_shard_prefix);
    let mut s = u64_to_dec(params.shard_id as u64);
    r.append(&mut s);
    r
}

/// A type implementing SinkGenerator hands out sinks for named outputs:
/// final reduce shards as well as intermediate files. What a sink does
/// with the bytes is the implementer's business; the engine states nothing
/// about it.
pub trait SinkGenerator: Sized {
    type Sink;

    /// Return a new sink for the output named `name`.
    fn new_output(&self, name: &Vec<u8>) -> Self::Sink;

    /// Return a new intermediary sink destined for reduce shard `shard`,
    /// requested by map shard `mapper`.
    fn new_map_output(&self, location: &Vec<u8>, mapper: usize, shard: usize) -> Self::Sink {
        self.new_output(&map_output_name(location, mapper, shard))
    }
}

/// Turns the intermediate buffers belonging to one reduce shard, one per
/// map chunk, into record streams for the merge.
pub fn open_reduce_inputs(files: Vec<Vec<u8>>) -> (r: Vec<RecordReadIterator>)
    ensures
        r@.len() == files@.len(),
        forall|i: int| 0 <= i < r@.len() ==> (#[trigger] r@[i]).inv() && r@[i].remaining_records()
            == records_of(wl_entries(vecs_view(files@)[i])),
{
    let ghost all = files@;
    let mut files = files;
    let mut out: Vec<RecordReadIterator> = Vec::new();
    while files.len() > 0
        invariant
            files@ == all.take(files@.len() as int),
            files@.len() + out@.len() == all.len(),
            forall|j: int| 0 <= j < out@.len() ==> (#[trigger] out@[j]).inv()
                && out@[j].remaining_records()
                    == records_of(wl_entries(all[files@.len() + j]@)),
        decreases files@.len(),
    {
        let f = match files.pop() {
            Some(f) => f,
            None => {
                proof {
                    assert(false);
                }
                return out;
            },
        };
        proof {
            assert(all.take(files@.len() as int) =~= files@);
            assert(f == all[files@.len() as int]);
        }
        let reader = WriteLogReader::new(f);
        let it = RecordReadIterator::new(reader);
        out.insert(0, it);
    }
    proof {
        assert(forall|i: int| 0 <= i < out@.len() ==> vecs_view(all)[i] == all[i]@);
    }
    out
}

} // verus!
