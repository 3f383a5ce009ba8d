//! Parameters for a mapreduce process.

use vstd::prelude::*;

verus! {

/// The default prefix for intermediate map output files,
/// `map_intermediate_` as bytes.
pub open spec fn default_map_output_location() -> Seq<u8> {
    seq![109u8, 97, 112, 95, 105, 110, 116, 101, 114, 109, 101, 100, 105, 97, 116, 101, 95]
}

/// The default prefix for final reduce output shards, `output_` as bytes.
pub open spec fn default_reduce_output_prefix() -> Seq<u8> {
    seq![111u8, 117, 116, 112, 117, 116, 95]
}

/// Configuration of a mapreduce run. File name prefixes are byte strings,
/// like every other string the engine handles.
pub struct MRParameters {
    pub key_buffer_size: usize,
    pub mappers: usize,
    pub reducers: usize,
    pub map_partition_size: usize,
    pub reduce_group_prealloc_size: usize,
    pub reduce_group_insensitive: bool,
    pub map_output_location: Vec<u8>,
    pub keep_temp_files: bool,
    pub reduce_output_shard_prefix: Vec<u8>,
    pub shard_id: usize,
}

impl MRParameters {
    pub fn new() -> (p: MRParameters)
        ensures
            p.key_buffer_size == 256,
            p.mappers == 4,
            p.reducers == 4,
            p.map_partition_size == 100 * 1024 * 1024,
            p.reduce_group_prealloc_size == 1,
            p.reduce_group_insensitive == false,
            p.map_output_location@ == default_map_output_location(),
            p.keep_temp_files == false,
            p.reduce_output_shard_prefix@ == default_reduce_output_prefix(),
            p.shard_id == 0,
    {
        let mut loc: Vec<u8> = Vec::new();
        loc.push(109);
        loc.push(97);
        loc.push(112);
        loc.push(95);
        loc.push(105);
        loc.push(110);
        loc.push(116);
        loc.push(101);
        loc.push(114);
        loc.push(109);
        loc.push(101);
        loc.push(100);
        loc.push(105);
        loc.push(97);
        loc.push(116);
        loc.push(101);
        loc.push(95);
        let mut pre: Vec<u8> = Vec::new();
        pre.push(111);
        pre.push(117);
        pre.push(116);
        pre.push(112);
        pre.push(117);
        pre.push(116);
        pre.push(95);
        proof {
            assert(loc@ =~= default_map_output_location());
            assert(pre@ =~= default_reduce_output_prefix());
        }
        MRParameters {
            key_buffer_size: 256,
            mappers: 4,
            reducers: 4,
            map_partition_size: 100 * 1024 * 1024,
            reduce_group_prealloc_size: 1,
            reduce_group_insensitive: false,
            map_output_location: loc,
            keep_temp_files: false,
            reduce_output_shard_prefix: pre,
            shard_id: 0,
        }
    }

    /// How many keys the map phase drains from the sorted input in direct
    /// sequence. Heavily increasing this value increases memory usage.
    pub fn set_key_buffer_size(self, n: usize) -> (p: MRParameters)
        ensures
            p == (MRParameters { key_buffer_size: n, ..self }),
    {
        MRParameters { key_buffer_size: n, ..self }
    }

    /// How many parallel map and reduce workers a host may run. The number
    /// of reducers also determines the sharding of the map output data.
    pub fn set_concurrency(self, mappers: usize, reducers: usize) -> (p: MRParameters)
        ensures
            p == (MRParameters { mappers: mappers, reducers: reducers, ..self }),
    {
        MRParameters { mappers: mappers, reducers: reducers, ..self }
    }

    /// The approximate byte budget of one map chunk. A whole chunk is held
    /// in memory at once.
    pub fn set_partition_size(self, size: usize) -> (p: MRParameters)
        ensures
            p == (MRParameters { map_partition_size: size, ..self }),
    {
        MRParameters { map_partition_size: size, ..self }
    }

    /// prealloc_size: the expected size of one key's group in the reduce
    /// phase, used to pre-allocate the group's value buffer.
    ///
    /// insensitive: whether to group keys that differ only in ASCII case.
    /// The first encountered key, folded to lower case, names the group.
    pub fn set_reduce_group_opts(self, prealloc_size: usize, insensitive: bool) -> (p: MRParameters)
        ensures
            p == (MRParameters {
                reduce_group_prealloc_size: prealloc_size,
                reduce_group_insensitive: insensitive,
                ..self
            }),
    {
        MRParameters {
            reduce_group_prealloc_size: prealloc_size,
            reduce_group_insensitive: insensitive,
            ..self
        }
    }

    /// map_out_prefix: the path prefix under which intermediate map
    /// outputs are placed, for example `/tmp/processing/map_intermediate_`.
    ///
    /// reduce_out_prefix: the path prefix for the final output shards.
    pub fn set_file_locations(self, map_out_prefix: Vec<u8>, reduce_out_prefix: Vec<u8>) -> (p:
        MRParameters)
        ensures
            p == (MRParameters {
                map_output_location: map_out_prefix,
                reduce_output_shard_prefix: reduce_out_prefix,
                ..self
            }),
    {
        MRParameters {
            map_output_location: map_out_prefix,
            reduce_output_shard_prefix: reduce_out_prefix,
            ..self
        }
    }

    /// Whether intermediate files, such as map outputs, are kept after the
    /// run.
    pub fn keep_temp_files(self, keep: bool) -> (p: MRParameters)
        ensures
            p == (MRParameters { keep_temp_files: keep, ..self }),
    {
        MRParameters { keep_temp_files: keep, ..self }
    }

    /// For internal use: sets the id of the executing data chunk, used for
    /// file naming.
    pub fn set_shard_id(self, n: usize) -> (p: MRParameters)
        ensures
            p == (MRParameters { shard_id: n, ..self }),
    {
        MRParameters { shard_id: n, ..self }
    }

    /// An exact copy of this configuration.
    pub fn duplicate(&self) -> (p: MRParameters)
        ensures
            p.key_buffer_size == self.key_buffer_size,
            p.mappers == self.mappers,
            p.reducers == self.reducers,
            p.map_partition_size == self.map_partition_size,
            p.reduce_group_prealloc_size == self.reduce_group_prealloc_size,
            p.reduce_group_insensitive == self.reduce_group_insensitive,
            p.map_output_location@ == self.map_output_location@,
            p.keep_temp_files == self.keep_temp_files,
            p.reduce_output_shard_prefix@ == self.reduce_output_shard_prefix@,
            p.shard_id == self.shard_id,
    {
        MRParameters {
            key_buffer_size: self.key_buffer_size,
            mappers: self.mappers,
            reducers: self.reducers,
            map_partition_size: self.map_partition_size,
            reduce_group_prealloc_size: self.reduce_group_prealloc_size,
            reduce_group_insensitive: self.reduce_group_insensitive,
            map_output_location: crate::record_types::copy_bytes(&self.map_output_location),
            keep_temp_files: self.keep_temp_files,
            reduce_output_shard_prefix: crate::record_types::copy_bytes(
                &self.reduce_output_shard_prefix,
            ),
            shard_id: self.shard_id,
        }
    }
}

} // verus!
