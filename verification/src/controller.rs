//! Controls the execution of a mapreduce instance: drives the map phase
//! over every input chunk, then one reduce partition per shard. The
//! controller computes everything on in-memory buffers; a host program
//! persists the returned buffers and may run partitions in parallel, as
//! all map work is independent per chunk and all reduce work independent
//! per shard.

use vstd::prelude::*;
use crate::formats::lines::LinesWriter;
use crate::formats::writelog::{WriteLogGenerator, records_of, wl_entries};
use crate::input_cache::{InputCache, total_bytes};
use crate::mapreducer::{Mapper, Reducer, Sharder};
use crate::parameters::MRParameters;
use crate::phases::map::{
    KeyValuesView, MapOutput, MapPartition, lemma_intermediate_sorted, lemma_map_completeness,
    lemma_sharding_unique, out_insert_all, out_sorted, pairs_lower, recs_fit, shard_stream,
    shards_pairs,
};
use crate::phases::output::open_reduce_inputs;
use crate::record_types::{
    MultiRecordView, RecordStream, RecordView, copy_bytes, rec_keys_sorted, vecs_view,
};
use crate::reduce::{
    ReducePartition, groups, groups_values, lemma_group_by_keys, lemma_group_by_values,
    lemma_sorted_clustered, lines_stream, merge_rec_all, views_union,
};
use crate::record_types::values_of;
use crate::sort::dict_eq;

verus! {

/// The input records of every chunk, joined back together.
pub open spec fn cat_views(ss: Seq<Seq<RecordView>>) -> Seq<RecordView>
    decreases ss.len(),
{
    if ss.len() == 0 {
        Seq::empty()
    } else {
        ss[0] + cat_views(ss.drop_first())
    }
}

/// Another chunk appends its records.
proof fn lemma_cat_views_push(ss: Seq<Seq<RecordView>>, s: Seq<RecordView>)
    ensures
        cat_views(ss.push(s)) == cat_views(ss) + s,
    decreases ss.len(),
{
    if ss.len() == 0 {
        assert(ss.push(s)[0] == s);
        assert(ss.push(s).drop_first() =~= Seq::<Seq<RecordView>>::empty());
        assert(cat_views(Seq::<Seq<RecordView>>::empty()) == Seq::<RecordView>::empty());
        assert(cat_views(ss.push(s)) =~= cat_views(ss) + s);
    } else {
        assert(ss.push(s)[0] == ss[0]);
        assert(ss.push(s).drop_first() =~= ss.drop_first().push(s));
        lemma_cat_views_push(ss.drop_first(), s);
        assert(cat_views(ss.push(s)) =~= cat_views(ss) + s);
    }
}

/// Nonempty chunks hold at least one record each.
proof fn lemma_cat_views_count(ss: Seq<Seq<RecordView>>)
    requires
        forall|i: int| 0 <= i < ss.len() ==> (#[trigger] ss[i]).len() > 0,
    ensures
        cat_views(ss).len() >= ss.len(),
    decreases ss.len(),
{
    if ss.len() > 0 {
        assert forall|i: int| 0 <= i < ss.drop_first().len() implies (
        #[trigger] ss.drop_first()[i]).len() > 0 by {
            assert(ss.drop_first()[i] == ss[i + 1]);
        }
        lemma_cat_views_count(ss.drop_first());
    }
}

/// The chunks respect the byte budget: every chunk is nonempty, every
/// proper prefix of a chunk (past its first record) is under the budget,
/// and every chunk but possibly the last reached it.
pub open spec fn chunks_budgeted(chunks: Seq<Seq<RecordView>>, budget: int) -> bool {
    forall|i: int|
        0 <= i < chunks.len() ==> {
            &&& (#[trigger] chunks[i]).len() > 0
            &&& forall|j: int| 1 <= j < chunks[i].len() ==> total_bytes(chunks[i].take(j))
                < budget
            &&& i < chunks.len() - 1 ==> total_bytes(chunks[i]) >= budget
        }
}

/// Everything a finished run leaves behind: the intermediate file buffer
/// of every (chunk, shard) pair, the final output buffer of every shard,
/// and, as ghost data, the full history of both phases.
pub struct MRJobOutput {
    /// Intermediate WriteLog streams, indexed by map chunk, then shard.
    pub intermediates: Vec<Vec<Vec<u8>>>,
    /// Final line-oriented output buffers, one per reduce shard.
    pub outputs: Vec<Vec<u8>>,
    pub chunks: Ghost<Seq<Seq<RecordView>>>,
    pub chunk_ids: Ghost<Seq<int>>,
    pub map_entries: Ghost<Seq<Seq<KeyValuesView>>>,
    pub map_shards: Ghost<Seq<Seq<int>>>,
    pub map_emitted: Ghost<Seq<Seq<RecordView>>>,
    pub reduce_merged: Ghost<Seq<Seq<RecordView>>>,
    pub reduce_fed: Ghost<Seq<Seq<MultiRecordView>>>,
    pub reduce_written: Ghost<Seq<Seq<Seq<u8>>>>,
}

impl MRJobOutput {
    /// The map phase's promise, for every chunk: the chunk carries its
    /// index as its shard id; the grouped entries are the fold of the
    /// chunk's emissions, sorted and sharded within bounds; and each
    /// intermediate stream holds exactly the entries routed to its
    /// shard.
    pub open spec fn map_phase_ok(&self, reducers: int) -> bool {
        &&& self.chunk_ids@.len() == self.chunks@.len()
        &&& (forall|i: int| 0 <= i < self.chunk_ids@.len() ==> #[trigger] self.chunk_ids@[i] == i)
        &&& self.map_entries@.len() == self.chunks@.len()
        &&& self.map_shards@.len() == self.chunks@.len()
        &&& self.map_emitted@.len() == self.chunks@.len()
        &&& self.intermediates@.len() == self.chunks@.len()
        &&& forall|i: int|
            0 <= i < self.chunks@.len() ==> {
                &&& (#[trigger] self.map_entries@[i]) == out_insert_all(
                    Seq::<KeyValuesView>::empty(),
                    self.map_emitted@[i],
                )
                &&& out_sorted(self.map_entries@[i])
                &&& recs_fit(self.map_emitted@[i])
                &&& self.map_shards@[i].len() == self.map_entries@[i].len()
                &&& forall|k: int|
                    0 <= k < self.map_shards@[i].len() ==> 0 <= #[trigger] self.map_shards@[i][k]
                        < reducers
                &&& self.intermediates@[i]@.len() == reducers
                &&& forall|r: int|
                    0 <= r < reducers ==> wl_entries(
                        (#[trigger] self.intermediates@[i]@[r])@,
                    ) == shard_stream(self.map_entries@[i], self.map_shards@[i], r)
            }
    }

    /// The reduce phase's promise, for every shard: the merged stream is
    /// exactly the stable merge of the shard's intermediate streams, in
    /// ascending chunk order, sorted by key; the reducer saw its groups;
    /// the output buffer holds one line per emission.
    pub open spec fn reduce_phase_ok(&self, reducers: int, insensitive: bool) -> bool {
        &&& self.outputs@.len() == reducers
        &&& self.reduce_merged@.len() == reducers
        &&& self.reduce_fed@.len() == reducers
        &&& self.reduce_written@.len() == reducers
        &&& forall|r: int|
            0 <= r < reducers ==> {
                &&& rec_keys_sorted(#[trigger] self.reduce_merged@[r])
                &&& self.reduce_merged@[r] == merge_rec_all(
                    Seq::new(
                        self.intermediates@.len(),
                        |i: int| records_of(wl_entries(self.intermediates@[i]@[r]@)),
                    ),
                )
                &&& self.reduce_merged@[r].to_multiset() == views_union(
                    Seq::new(
                        self.intermediates@.len(),
                        |i: int| records_of(wl_entries(self.intermediates@[i]@[r]@)),
                    ),
                )
                &&& self.reduce_fed@[r] == groups(self.reduce_merged@[r], insensitive)
                &&& self.outputs@[r]@ == lines_stream(self.reduce_written@[r])
            }
    }
}

/// Drives one mapreduce instance from start to finish.
pub struct MRController<M: Mapper + Clone, R: Reducer + Clone, S: Sharder + Clone> {
    params: MRParameters,
    m: M,
    r: R,
    s: S,
    // How many map partitions have been run?
    map_partitions_run: usize,
}

impl<M: Mapper + Clone, R: Reducer + Clone, S: Sharder + Clone> MRController<M, R, S> {
    /// Create a new mapreduce instance and execute it immediately.
    ///
    /// You can use `DefaultSharder` as the `sharder` argument.
    pub fn run<In: RecordStream>(
        mapper: M,
        reducer: R,
        sharder: S,
        params: MRParameters,
        inp: In,
    ) -> (out: MRJobOutput)
        requires
            inp.inv(),
            params.reducers >= 1,
            inp.remaining_records().len() <= usize::MAX,
        ensures
            cat_views(out.chunks@) == inp.remaining_records(),
            chunks_budgeted(out.chunks@, params.map_partition_size as int),
            out.map_phase_ok(params.reducers as int),
            out.reduce_phase_ok(params.reducers as int, params.reduce_group_insensitive),
    {
        let mut controller = MRController {
            params,
            m: mapper,
            r: reducer,
            s: sharder,
            map_partitions_run: 0,
        };
        let mut inp = inp;
        let out = controller.run_map(&mut inp);
        proof {
            assert(out.reduce_written@ =~= Seq::<Seq<Seq<u8>>>::empty());
        }
        controller.run_reduce_phase(out)
    }

    /// Reads the next input chunk, sized by the configured byte budget.
    fn read_map_input<In: RecordStream>(it: &mut In, approx_bytes: usize) -> (c: InputCache)
        requires
            old(it).inv(),
            old(it).remaining_records().len() <= usize::MAX,
        ensures
            final(it).inv(),
            c.wf(),
            c.inv(),
            c.remaining_records() == c.records(),
            old(it).remaining_records() == c.records() + final(it).remaining_records(),
            old(it).remaining_records().len() > 0 ==> c.records().len() > 0,
            final(it).remaining_records().len() <= old(it).remaining_records().len(),
            final(it).remaining_records().len() > 0 ==> total_bytes(c.records())
                >= approx_bytes,
            forall|j: int| 1 <= j < c.records().len() ==> total_bytes(c.records().take(j))
                < approx_bytes,
    {
        InputCache::from_iter(8192, approx_bytes, it)
    }

    /// Runs one map partition over one chunk.
    fn map_runner(mapper: M, sharder: S, params: MRParameters, inp: InputCache) -> (r: MapOutput)
        requires
            inp.inv(),
            inp.remaining_records() == inp.records(),
            params.reducers >= 1,
        ensures
            r.chunk@ == params.shard_id,
            r.consumed@ == inp.records(),
            r.entries@ == out_insert_all(Seq::<KeyValuesView>::empty(), r.emitted@),
            out_sorted(r.entries@),
            recs_fit(r.emitted@),
            r.shards@.len() == r.entries@.len(),
            forall|k: int| 0 <= k < r.shards@.len() ==> 0 <= #[trigger] r.shards@[k]
                < params.reducers,
            r.files@.len() == params.reducers,
            forall|sr: int| 0 <= sr < params.reducers
                ==> wl_entries((#[trigger] r.files@[sr])@) == shard_stream(
                    r.entries@,
                    r.shards@,
                    sr,
                ),
    {
        let intermed_out = WriteLogGenerator::new();
        let map_part = MapPartition::_new(params, inp, mapper, sharder, intermed_out);
        map_part._run()
    }

    /// Runs the map phase to completion, chunk by chunk.
    fn run_map<In: RecordStream>(&mut self, input: &mut In) -> (out: MRJobOutput)
        requires
            old(input).inv(),
            old(self).params.reducers >= 1,
            old(self).map_partitions_run == 0,
            old(input).remaining_records().len() <= usize::MAX,
        ensures
            final(self).params == old(self).params,
            cat_views(out.chunks@) == old(input).remaining_records(),
            chunks_budgeted(out.chunks@, old(self).params.map_partition_size as int),
            out.map_phase_ok(old(self).params.reducers as int),
            final(self).map_partitions_run == out.chunks@.len(),
            out.outputs@.len() == 0,
            out.reduce_merged@.len() == 0,
            out.reduce_fed@.len() == 0,
            out.reduce_written@.len() == 0,
    {
        let ghost source = input.remaining_records();
        let ghost nred = self.params.reducers as int;
        let ghost budget = self.params.map_partition_size as int;
        let mut intermediates: Vec<Vec<Vec<u8>>> = Vec::new();
        let ghost chunks = Seq::<Seq<RecordView>>::empty();
        let ghost chunk_ids = Seq::<int>::empty();
        let ghost map_entries = Seq::<Seq<KeyValuesView>>::empty();
        let ghost map_shards = Seq::<Seq<int>>::empty();
        let ghost map_emitted = Seq::<Seq<RecordView>>::empty();
        proof {
            assert(cat_views(chunks) + input.remaining_records() =~= source);
        }
        loop
            invariant
                input.inv(),
                self.params == old(self).params,
                self.params.reducers == nred,
                nred >= 1,
                input.remaining_records().len() <= usize::MAX,
                source.len() <= usize::MAX,
                self.params.map_partition_size == budget,
                cat_views(chunks) + input.remaining_records() == source,
                self.map_partitions_run == chunks.len(),
                chunk_ids.len() == chunks.len(),
                forall|i: int| 0 <= i < chunk_ids.len() ==> #[trigger] chunk_ids[i] == i,
                forall|i: int| 0 <= i < chunks.len() ==> {
                    &&& (#[trigger] chunks[i]).len() > 0
                    &&& forall|j: int| 1 <= j < chunks[i].len() ==> total_bytes(
                        chunks[i].take(j),
                    ) < budget
                },
                forall|i: int| 0 <= i < chunks.len() - 1 ==> total_bytes(#[trigger] chunks[i])
                    >= budget,
                input.remaining_records().len() > 0 && chunks.len() > 0 ==> total_bytes(
                    chunks.last(),
                ) >= budget,
                intermediates@.len() == chunks.len(),
                map_entries.len() == chunks.len(),
                map_shards.len() == chunks.len(),
                map_emitted.len() == chunks.len(),
                forall|i: int|
                    0 <= i < chunks.len() ==> {
                        &&& (#[trigger] map_entries[i]) == out_insert_all(
                            Seq::<KeyValuesView>::empty(),
                            map_emitted[i],
                        )
                        &&& out_sorted(map_entries[i])
                        &&& recs_fit(map_emitted[i])
                        &&& map_shards[i].len() == map_entries[i].len()
                        &&& forall|k: int|
                            0 <= k < map_shards[i].len() ==> 0 <= #[trigger] map_shards[i][k]
                                < nred
                        &&& intermediates@[i]@.len() == nred
                        &&& forall|r: int|
                            0 <= r < nred ==> wl_entries(
                                (#[trigger] intermediates@[i]@[r])@,
                            ) == shard_stream(map_entries[i], map_shards[i], r)
                    },
            ensures
                input.inv(),
                self.params == old(self).params,
                cat_views(chunks) == source,
                self.map_partitions_run == chunks.len(),
                chunk_ids.len() == chunks.len(),
                forall|i: int| 0 <= i < chunk_ids.len() ==> #[trigger] chunk_ids[i] == i,
                chunks_budgeted(chunks, budget),
                intermediates@.len() == chunks.len(),
                map_entries.len() == chunks.len(),
                map_shards.len() == chunks.len(),
                map_emitted.len() == chunks.len(),
                forall|i: int|
                    0 <= i < chunks.len() ==> {
                        &&& (#[trigger] map_entries[i]) == out_insert_all(
                            Seq::<KeyValuesView>::empty(),
                            map_emitted[i],
                        )
                        &&& out_sorted(map_entries[i])
                        &&& recs_fit(map_emitted[i])
                        &&& map_shards[i].len() == map_entries[i].len()
                        &&& forall|k: int|
                            0 <= k < map_shards[i].len() ==> 0 <= #[trigger] map_shards[i][k]
                                < nred
                        &&& intermediates@[i]@.len() == nred
                        &&& forall|r: int|
                            0 <= r < nred ==> wl_entries(
                                (#[trigger] intermediates@[i]@[r])@,
                            ) == shard_stream(map_entries[i], map_shards[i], r)
                    },
            decreases input.remaining_records().len(),
        {
            let inp_cache = Self::read_map_input(input, self.params.map_partition_size);
            if inp_cache.len() == 0 {
                proof {
                    assert(cat_views(chunks) + Seq::<RecordView>::empty() =~= cat_views(chunks));
                    assert(input.remaining_records() =~= Seq::<RecordView>::empty());
                }
                break;
            }
            let ghost chunk_records = inp_cache.records();
            let params = self.params.duplicate().set_shard_id(self.map_partitions_run);
            let m2 = self.m.clone();
            let s2 = self.s.clone();
            let map_out = Self::map_runner(m2, s2, params, inp_cache);
            proof {
                lemma_cat_views_push(chunks, chunk_records);
                chunks = chunks.push(chunk_records);
                chunk_ids = chunk_ids.push(map_out.chunk@);
                map_entries = map_entries.push(map_out.entries@);
                map_shards = map_shards.push(map_out.shards@);
                map_emitted = map_emitted.push(map_out.emitted@);
                assert forall|i: int| 0 <= i < chunks.len() implies {
                    &&& (#[trigger] chunks[i]).len() > 0
                    &&& forall|j: int| 1 <= j < chunks[i].len() ==> total_bytes(
                        chunks[i].take(j),
                    ) < budget
                } by {
                    if i < chunks.len() - 1 {
                        assert(chunks[i] == chunks.drop_last()[i]);
                    } else {
                        assert(chunks[i] == chunk_records);
                    }
                }
                assert forall|i: int| 0 <= i < chunks.len() - 1 implies total_bytes(
                    #[trigger] chunks[i],
                ) >= budget by {
                    if i < chunks.len() - 2 {
                        assert(chunks[i] == chunks.drop_last()[i]);
                    } else {
                        assert(chunks[i] == chunks.drop_last().last());
                    }
                }
                lemma_cat_views_count(chunks);
                assert(cat_views(chunks) + input.remaining_records() =~= source);
                assert(chunks.len() <= source.len());
                assert forall|i: int| 0 <= i < chunk_ids.len() implies #[trigger] chunk_ids[i]
                    == i by {
                    if i < chunk_ids.len() - 1 {
                        assert(chunk_ids[i] == chunk_ids.drop_last()[i]);
                    } else {
                        assert(chunk_ids[i] == map_out.chunk@);
                    }
                }
            }
            let ghost pre_entries = map_entries;
            intermediates.push(map_out.files);
            proof {
                assert forall|i: int| 0 <= i < chunks.len() implies {
                    &&& (#[trigger] map_entries[i]) == out_insert_all(
                        Seq::<KeyValuesView>::empty(),
                        map_emitted[i],
                    )
                    &&& out_sorted(map_entries[i])
                    &&& recs_fit(map_emitted[i])
                    &&& map_shards[i].len() == map_entries[i].len()
                    &&& forall|k: int|
                        0 <= k < map_shards[i].len() ==> 0 <= #[trigger] map_shards[i][k] < nred
                    &&& intermediates@[i]@.len() == nred
                    &&& forall|r: int|
                        0 <= r < nred ==> wl_entries((#[trigger] intermediates@[i]@[r])@)
                            == shard_stream(map_entries[i], map_shards[i], r)
                } by {
                    if i < chunks.len() - 1 {
                        assert(map_entries[i] == pre_entries.drop_last()[i]);
                    } else {
                        assert(map_entries[i] == map_out.entries@);
                        assert(map_shards[i] == map_out.shards@);
                        assert(map_emitted[i] == map_out.emitted@);
                        assert(intermediates@[i] == map_out.files);
                    }
                }
            }
            self.map_partitions_run = self.map_partitions_run + 1;
        }
        MRJobOutput {
            intermediates,
            outputs: Vec::new(),
            chunks: Ghost(chunks),
            chunk_ids: Ghost(chunk_ids),
            map_entries: Ghost(map_entries),
            map_shards: Ghost(map_shards),
            map_emitted: Ghost(map_emitted),
            reduce_merged: Ghost(Seq::empty()),
            reduce_fed: Ghost(Seq::empty()),
            reduce_written: Ghost(Seq::empty()),
        }
    }

    /// Runs the reduce phase over the map phase's products and fills in
    /// its half of the job output.
    fn run_reduce_phase(&mut self, out: MRJobOutput) -> (done: MRJobOutput)
        requires
            old(self).params.reducers >= 1,
            out.map_phase_ok(old(self).params.reducers as int),
        ensures
            done.chunks == out.chunks,
            done.chunk_ids == out.chunk_ids,
            done.intermediates == out.intermediates,
            done.map_entries == out.map_entries,
            done.map_shards == out.map_shards,
            done.map_emitted == out.map_emitted,
            done.map_phase_ok(old(self).params.reducers as int),
            done.reduce_phase_ok(
                old(self).params.reducers as int,
                old(self).params.reduce_group_insensitive,
            ),
    {
        let MRJobOutput {
            intermediates,
            outputs: _,
            chunks,
            chunk_ids,
            map_entries,
            map_shards,
            map_emitted,
            reduce_merged: _,
            reduce_fed: _,
            reduce_written: _,
        } = out;
        proof {
            assert forall|i: int| 0 <= i < intermediates@.len() implies {
                &&& out_sorted(#[trigger] map_entries@[i])
                &&& map_shards@[i].len() == map_entries@[i].len()
                &&& intermediates@[i]@.len() == old(self).params.reducers
                &&& forall|rr: int|
                    0 <= rr < old(self).params.reducers ==> wl_entries(
                        (#[trigger] intermediates@[i]@[rr])@,
                    ) == shard_stream(map_entries@[i], map_shards@[i], rr)
            } by {
                assert(map_entries@[i] == out_insert_all(
                    Seq::<KeyValuesView>::empty(),
                    map_emitted@[i],
                ));
            }
        }
        let (outputs, reduce_ghosts) = self.run_reduce(
            &intermediates,
            Ghost((map_entries@, map_shards@)),
        );
        MRJobOutput {
            intermediates,
            outputs,
            chunks,
            chunk_ids,
            map_entries,
            map_shards,
            map_emitted,
            reduce_merged: Ghost(reduce_ghosts@.0),
            reduce_fed: Ghost(reduce_ghosts@.1),
            reduce_written: Ghost(reduce_ghosts@.2),
        }
    }

    /// Runs one reduce partition per shard over the intermediate buffers.
    fn run_reduce(
        &mut self,
        intermediates: &Vec<Vec<Vec<u8>>>,
        phase: Ghost<(Seq<Seq<KeyValuesView>>, Seq<Seq<int>>)>,
    ) -> (r: (Vec<Vec<u8>>, Ghost<(Seq<Seq<RecordView>>, Seq<Seq<MultiRecordView>>, Seq<Seq<Seq<u8>>>)>))
        requires
            old(self).params.reducers >= 1,
            phase@.0.len() == intermediates@.len(),
            phase@.1.len() == intermediates@.len(),
            forall|i: int|
                0 <= i < intermediates@.len() ==> {
                    &&& out_sorted(#[trigger] phase@.0[i])
                    &&& phase@.1[i].len() == phase@.0[i].len()
                    &&& intermediates@[i]@.len() == old(self).params.reducers
                    &&& forall|rr: int|
                        0 <= rr < old(self).params.reducers ==> wl_entries(
                            (#[trigger] intermediates@[i]@[rr])@,
                        ) == shard_stream(phase@.0[i], phase@.1[i], rr)
                },
        ensures
            final(self).params == old(self).params,
            r.0@.len() == old(self).params.reducers,
            r.1@.0.len() == old(self).params.reducers,
            r.1@.1.len() == old(self).params.reducers,
            r.1@.2.len() == old(self).params.reducers,
            forall|rr: int|
                0 <= rr < old(self).params.reducers ==> {
                    &&& rec_keys_sorted(#[trigger] r.1@.0[rr])
                    &&& r.1@.0[rr] == merge_rec_all(
                        Seq::new(
                            intermediates@.len(),
                            |i: int| records_of(wl_entries(intermediates@[i]@[rr]@)),
                        ),
                    )
                    &&& r.1@.0[rr].to_multiset() == views_union(
                        Seq::new(
                            intermediates@.len(),
                            |i: int| records_of(wl_entries(intermediates@[i]@[rr]@)),
                        ),
                    )
                    &&& r.1@.1[rr] == groups(
                        r.1@.0[rr],
                        old(self).params.reduce_group_insensitive,
                    )
                    &&& r.0@[rr]@ == lines_stream(r.1@.2[rr])
                },
    {
        let ghost nred = self.params.reducers as int;
        let mut outputs: Vec<Vec<u8>> = Vec::new();
        let ghost merged_all = Seq::<Seq<RecordView>>::empty();
        let ghost fed_all = Seq::<Seq<MultiRecordView>>::empty();
        let ghost written_all = Seq::<Seq<Seq<u8>>>::empty();
        let mut i: usize = 0;
        while i < self.params.reducers
            invariant
                self.params == old(self).params,
                self.params.reducers == nred,
                i <= nred,
                outputs@.len() == i,
                merged_all.len() == i,
                fed_all.len() == i,
                written_all.len() == i,
                phase@.0.len() == intermediates@.len(),
                phase@.1.len() == intermediates@.len(),
                forall|k: int|
                    0 <= k < intermediates@.len() ==> {
                        &&& out_sorted(#[trigger] phase@.0[k])
                        &&& phase@.1[k].len() == phase@.0[k].len()
                        &&& intermediates@[k]@.len() == nred
                        &&& forall|rr: int|
                            0 <= rr < nred ==> wl_entries(
                                (#[trigger] intermediates@[k]@[rr])@,
                            ) == shard_stream(phase@.0[k], phase@.1[k], rr)
                    },
                forall|rr: int|
                    0 <= rr < i ==> {
                        &&& rec_keys_sorted(#[trigger] merged_all[rr])
                        &&& merged_all[rr] == merge_rec_all(
                            Seq::new(
                                intermediates@.len(),
                                |k: int| records_of(wl_entries(intermediates@[k]@[rr]@)),
                            ),
                        )
                        &&& merged_all[rr].to_multiset() == views_union(
                            Seq::new(
                                intermediates@.len(),
                                |k: int| records_of(wl_entries(intermediates@[k]@[rr]@)),
                            ),
                        )
                        &&& fed_all[rr] == groups(
                            merged_all[rr],
                            self.params.reduce_group_insensitive,
                        )
                        &&& outputs@[rr]@ == lines_stream(written_all[rr])
                    },
            decreases nred - i,
        {
            proof {
                assert forall|j: int| 0 <= j < intermediates@.len() implies (
                #[trigger] intermediates@[j])@.len() == nred by {
                    assert(out_sorted(phase@.0[j]));
                }
            }
            let mut files: Vec<Vec<u8>> = Vec::new();
            let mut k: usize = 0;
            while k < intermediates.len()
                invariant
                    k <= intermediates@.len(),
                    files@.len() == k,
                    0 <= i < nred,
                    self.params == old(self).params,
                    self.params.reducers == nred,
                    forall|j: int|
                        0 <= j < intermediates@.len() ==> (
                        #[trigger] intermediates@[j])@.len() == nred,
                    forall|j: int| 0 <= j < k ==> (#[trigger] files@[j])@
                        == intermediates@[j]@[i as int]@,
                decreases intermediates@.len() - k,
            {
                let row = &intermediates[k];
                files.push(copy_bytes(&row[i]));
                k = k + 1;
            }
            let srcs = open_reduce_inputs(files);
            proof {
                assert forall|j: int| 0 <= j < srcs@.len() implies rec_keys_sorted(
                    (#[trigger] srcs@[j]).remaining_records(),
                ) by {
                    assert(vecs_view(files@)[j] == files@[j]@);
                    lemma_intermediate_sorted(phase@.0[j], phase@.1[j], i as int);
                }
            }
            let params = self.params.duplicate().set_shard_id(i);
            let r2 = self.r.clone();
            let reduce_part = ReducePartition::new(
                r2,
                params,
                srcs,
                LinesWriter::new_to_write(Vec::new()),
            );
            let ghost the_views = reduce_part.src_views();
            let rout = reduce_part._run();
            proof {
                assert(the_views =~= Seq::new(
                    intermediates@.len(),
                    |kk: int| records_of(wl_entries(intermediates@[kk]@[i as int]@)),
                ));
                merged_all = merged_all.push(rout.merged@);
                fed_all = fed_all.push(rout.fed@);
                written_all = written_all.push(rout.written@);
            }
            let out_bytes = rout.dst.into_bytes();
            proof {
                assert(Seq::<u8>::empty() + lines_stream(rout.written@) =~= lines_stream(
                    rout.written@,
                ));
            }
            outputs.push(out_bytes);
            i = i + 1;
        }
        (outputs, Ghost((merged_all, fed_all, written_all)))
    }
}


/// Sort in intermediates, on a finished run: every intermediate file of
/// every chunk holds its records in non-decreasing key order.
pub proof fn lemma_job_intermediates_sorted(out: MRJobOutput, reducers: int, i: int, r: int)
    requires
        out.map_phase_ok(reducers),
        0 <= i < out.intermediates@.len(),
        0 <= r < reducers,
    ensures
        rec_keys_sorted(records_of(wl_entries(out.intermediates@[i]@[r]@))),
{
    lemma_intermediate_sorted(out.map_entries@[i], out.map_shards@[i], r);
}

/// Sharding correctness, on a finished run: within one chunk, records of
/// two intermediate files never fold to the same key unless the files
/// are the same.
pub proof fn lemma_job_sharding_unique(
    out: MRJobOutput,
    reducers: int,
    i: int,
    r1: int,
    r2: int,
    p1: int,
    p2: int,
)
    requires
        out.map_phase_ok(reducers),
        0 <= i < out.intermediates@.len(),
        0 <= r1 < reducers,
        0 <= r2 < reducers,
        0 <= p1 < records_of(wl_entries(out.intermediates@[i]@[r1]@)).len(),
        0 <= p2 < records_of(wl_entries(out.intermediates@[i]@[r2]@)).len(),
        dict_eq(
            records_of(wl_entries(out.intermediates@[i]@[r1]@))[p1].key,
            records_of(wl_entries(out.intermediates@[i]@[r2]@))[p2].key,
        ),
    ensures
        r1 == r2,
{
    lemma_sharding_unique(out.map_entries@[i], out.map_shards@[i], r1, r2, p1, p2);
}

/// Completeness, on a finished run: the folded (key, value) pairs across
/// one chunk's intermediate files are exactly the chunk's emissions.
pub proof fn lemma_job_completeness(out: MRJobOutput, reducers: int, i: int)
    requires
        out.map_phase_ok(reducers),
        0 <= i < out.intermediates@.len(),
    ensures
        shards_pairs(out.map_entries@[i], out.map_shards@[i], reducers) == pairs_lower(
            out.map_emitted@[i],
        ).to_multiset(),
{
    lemma_map_completeness(
        out.map_entries@[i],
        out.map_shards@[i],
        out.map_emitted@[i],
        reducers,
    );
}

/// Group-by law, on a finished run: each shard's reducer saw every
/// merged value exactly once, in order, and, under case-insensitive
/// grouping, no two of its groups shared a key.
pub proof fn lemma_job_groups(out: MRJobOutput, reducers: int, insensitive: bool, r: int)
    requires
        out.reduce_phase_ok(reducers, insensitive),
        0 <= r < reducers,
    ensures
        groups_values(out.reduce_fed@[r]) == values_of(out.reduce_merged@[r]),
        insensitive ==> forall|p: int, q: int|
            0 <= p < q < out.reduce_fed@[r].len() ==> (#[trigger] out.reduce_fed@[r][p]).key
                != (#[trigger] out.reduce_fed@[r][q]).key,
{
    lemma_group_by_values(out.reduce_merged@[r], insensitive);
    if insensitive {
        lemma_sorted_clustered(out.reduce_merged@[r]);
        lemma_group_by_keys(out.reduce_merged@[r], insensitive);
    }
}

} // verus!
