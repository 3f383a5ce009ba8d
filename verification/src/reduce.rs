//! The reduce phase: merge the sorted intermediate streams of one shard,
//! group the records by key and drive the reduce function over the
//! groups.

use vstd::prelude::*;
use vstd::multiset::Multiset;
use crate::formats::lines::LinesWriter;
use crate::formats::util::RecordReadIterator;
use crate::mapreducer::Reducer;
use crate::parameters::MRParameters;
use crate::record_types::{
    MultiRecord, MultiRecordView, REmitter, Record, RecordStream, RecordView, rec_keys_sorted,
    recs_view, values_of, vecs_view,
};
use crate::shard_merge::{
    MergeOrder, ShardMergeIterator, all_sorted, merge_all, merge_seqs, seqs_of, sorted_le,
    sources_elems,
};
use crate::sort::{dict_le, lower};

verus! {

broadcast use vstd::multiset::group_multiset_axioms, vstd::seq_lib::group_to_multiset_ensures;

/// The key a record is grouped under: folded to lower case when grouping
/// is case-insensitive.
pub open spec fn group_key(k: Seq<u8>, insensitive: bool) -> Seq<u8> {
    if insensitive {
        lower(k)
    } else {
        k
    }
}

/// The groups a sorted record sequence falls into: maximal runs of
/// records sharing a group key; each group holds the run's values in
/// stream order.
pub open spec fn groups(s: Seq<RecordView>, insensitive: bool) -> Seq<MultiRecordView>
    decreases s.len(),
{
    if s.len() == 0 {
        Seq::empty()
    } else {
        let rest = groups(s.drop_first(), insensitive);
        let gk = group_key(s[0].key, insensitive);
        if s.len() > 1 && group_key(s[1].key, insensitive) == gk {
            seq![MultiRecordView { key: gk, values: seq![s[0].value] + rest[0].values }]
                + rest.drop_first()
        } else {
            seq![MultiRecordView { key: gk, values: seq![s[0].value] }] + rest
        }
    }
}

/// Peels the first group off a non-empty record sequence: it covers the
/// maximal run of records whose group key matches the head's.
proof fn lemma_groups_run(s: Seq<RecordView>, insensitive: bool) -> (n: int)
    requires
        s.len() > 0,
    ensures
        1 <= n <= s.len(),
        forall|i: int| 0 <= i < n ==> group_key((#[trigger] s[i]).key, insensitive)
            == group_key(s[0].key, insensitive),
        n < s.len() ==> group_key(s[n as int].key, insensitive) != group_key(
            s[0].key,
            insensitive,
        ),
        groups(s, insensitive) == seq![
            MultiRecordView {
                key: group_key(s[0].key, insensitive),
                values: values_of(s.take(n)),
            },
        ] + groups(s.skip(n), insensitive),
    decreases s.len(),
{
    let gk = group_key(s[0].key, insensitive);
    if s.len() == 1 || group_key(s[1].key, insensitive) != gk {
        let n: int = 1;
        assert(values_of(s.take(1)) =~= seq![s[0].value]);
        assert(s.skip(1) =~= s.drop_first());
        assert(groups(s, insensitive) == seq![MultiRecordView { key: gk, values: seq![
            s[0].value,
        ] }] + groups(s.drop_first(), insensitive));
        n
    } else {
        let st = s.drop_first();
        let m = lemma_groups_run(st, insensitive);
        let n = m + 1;
        assert(st[0] == s[1]);
        assert forall|i: int| 0 <= i < n implies group_key((#[trigger] s[i]).key, insensitive)
            == gk by {
            if i > 0 {
                assert(st[i - 1] == s[i]);
            }
        }
        if n < s.len() {
            assert(st[m] == s[n]);
        }
        let rest = groups(st, insensitive);
        assert(seq![s[0].value] + rest[0].values =~= seq![s[0].value] + values_of(st.take(m)));
        assert(values_of(s.take(n)) =~= seq![s[0].value] + values_of(st.take(m)));
        assert(st.skip(m) =~= s.skip(n));
        assert(groups(s, insensitive) =~= seq![
            MultiRecordView { key: gk, values: values_of(s.take(n)) },
        ] + groups(s.skip(n), insensitive));
        n
    }
}

/// Decides whether `key` belongs to the group named `gk` (which is
/// already folded when grouping is case-insensitive).
fn key_matches(key: &Vec<u8>, gk: &Vec<u8>, insensitive: bool) -> (r: bool)
    ensures
        r == (group_key(key@, insensitive) == gk@),
{
    if key.len() != gk.len() {
        proof {
            assert(group_key(key@, insensitive).len() == key@.len());
        }
        return false;
    }
    let mut i: usize = 0;
    loop
        invariant
            i <= key@.len(),
            key@.len() == gk@.len(),
            forall|j: int| 0 <= j < i ==> group_key(key@, insensitive)[j] == gk@[j],
        ensures
            i == key@.len(),
            forall|j: int| 0 <= j < key@.len() ==> group_key(key@, insensitive)[j] == gk@[j],
        decreases key@.len() - i,
    {
        if i == key.len() {
            break;
        }
        let kb = if insensitive {
            crate::sort::byte_to_lower(key[i])
        } else {
            key[i]
        };
        if kb != gk[i] {
            proof {
                assert(group_key(key@, insensitive)[i as int] != gk@[i as int]);
            }
            return false;
        }
        i = i + 1;
    }
    proof {
        assert(group_key(key@, insensitive) =~= gk@);
    }
    true
}

/// Iterator adapter: converts a stream of records into a stream of
/// MultiRecords by grouping subsequent records with the same group key.
/// The record stream must be sorted, or at least ordered so that records
/// with the same group key are adjacent.
pub struct RecordsToMultiRecords {
    it: Vec<Record>,
    pos: usize,
    params: MRParameters,
}

impl RecordsToMultiRecords {
    /// The records not yet grouped.
    pub closed spec fn remaining(&self) -> Seq<RecordView> {
        recs_view(self.it@).skip(self.pos as int)
    }

    /// Whether grouping folds keys to lower case.
    pub closed spec fn insensitive(&self) -> bool {
        self.params.reduce_group_insensitive
    }

    pub closed spec fn wf(&self) -> bool {
        self.pos <= self.it@.len()
    }

    pub fn new(it: Vec<Record>, params: MRParameters) -> (r: RecordsToMultiRecords)
        ensures
            r.wf(),
            r.remaining() == recs_view(it@),
            r.insensitive() == params.reduce_group_insensitive,
    {
        let r = RecordsToMultiRecords { it, pos: 0, params };
        proof {
            assert(recs_view(r.it@).skip(0) =~= recs_view(r.it@));
        }
        r
    }

    /// Yields the next group: the maximal run of records at the head of
    /// the stream that share a group key, its values in stream order.
    pub fn next(&mut self) -> (r: Option<MultiRecord>)
        requires
            old(self).wf(),
        ensures
            final(self).wf(),
            final(self).insensitive() == old(self).insensitive(),
            match r {
                None => old(self).remaining().len() == 0 && final(self).remaining()
                    == old(self).remaining(),
                Some(mr) => {
                    &&& groups(old(self).remaining(), old(self).insensitive()).len() > 0
                    &&& 1 <= mr@.values.len() <= old(self).remaining().len()
                    &&& mr@ == groups(old(self).remaining(), old(self).insensitive())[0]
                    &&& groups(final(self).remaining(), final(self).insensitive()) == groups(
                        old(self).remaining(),
                        old(self).insensitive(),
                    ).drop_first()
                    &&& final(self).remaining() == old(self).remaining().skip(
                        mr@.values.len() as int,
                    )
                },
            },
    {
        let ghost rem0 = self.remaining();
        let ghost ins = self.insensitive();
        if self.pos >= self.it.len() {
            return None;
        }
        let first = self.it[self.pos].duplicate();
        let insensitive = self.params.reduce_group_insensitive;
        let gk = if insensitive {
            crate::sort::bytes_to_lower(&first.key)
        } else {
            first.key
        };
        let mut collection: Vec<Vec<u8>> = Vec::with_capacity(
            self.params.reduce_group_prealloc_size,
        );
        collection.push(first.value);
        self.pos = self.pos + 1;
        proof {
            assert(rem0[0] == recs_view(self.it@)[old(self).pos as int]);
            assert(gk@ == group_key(rem0[0].key, ins));
            assert(vecs_view(collection@) =~= values_of(rem0.take(1)));
        }
        loop
            invariant
                self.it == old(self).it,
                self.params == old(self).params,
                rem0 == recs_view(self.it@).skip(old(self).pos as int),
                ins == self.params.reduce_group_insensitive,
                insensitive == ins,
                old(self).pos < self.it@.len(),
                old(self).pos < self.pos <= self.it@.len(),
                collection@.len() == self.pos - old(self).pos,
                gk@ == group_key(rem0[0].key, ins),
                forall|i: int| 0 <= i < collection@.len() ==> group_key(
                    (#[trigger] rem0[i]).key,
                    ins,
                ) == gk@,
                vecs_view(collection@) == values_of(rem0.take(collection@.len() as int)),
            ensures
                self.it == old(self).it,
                self.params == old(self).params,
                old(self).pos < self.pos <= self.it@.len(),
                collection@.len() == self.pos - old(self).pos,
                gk@ == group_key(rem0[0].key, ins),
                forall|i: int| 0 <= i < collection@.len() ==> group_key(
                    (#[trigger] rem0[i]).key,
                    ins,
                ) == gk@,
                vecs_view(collection@) == values_of(rem0.take(collection@.len() as int)),
                collection@.len() == rem0.len() || group_key(
                    rem0[collection@.len() as int].key,
                    ins,
                ) != gk@,
            decreases self.it@.len() - self.pos,
        {
            if self.pos == self.it.len() {
                break;
            }
            proof {
                assert(recs_view(self.it@)[self.pos as int]
                    == rem0[self.pos - old(self).pos]);
            }
            if !key_matches(&self.it[self.pos].key, &gk, insensitive) {
                proof {
                    assert(group_key(
                        rem0[(self.pos - old(self).pos) as int].key,
                        ins,
                    ) != gk@);
                }
                break;
            }
            let value = crate::record_types::copy_bytes(&self.it[self.pos].value);
            proof {
                let c = collection@.len() as int;
                assert(vecs_view(collection@.push(value)) =~= vecs_view(collection@).push(
                    value@,
                ));
                assert(values_of(rem0.take(c + 1)) =~= values_of(rem0.take(c)).push(
                    rem0[c].value,
                ));
            }
            collection.push(value);
            self.pos = self.pos + 1;
            proof {
                assert forall|i: int| 0 <= i < collection@.len() implies group_key(
                    (#[trigger] rem0[i]).key,
                    ins,
                ) == gk@ by {
                    if i == collection@.len() - 1 {
                        assert(rem0[i] == recs_view(self.it@)[self.pos - 1]);
                    }
                }
            }
        }
        proof {
            let n = lemma_groups_run(rem0, ins);
            let c = collection@.len() as int;
            if n < c {
                assert(group_key(rem0[n].key, ins) == gk@);
            }
            if c < n {
                assert(group_key(rem0[c].key, ins) == gk@);
            }
            assert(n == c);
            assert(self.remaining() =~= rem0.skip(c));
        }
        Some(MultiRecord::new(gk, collection))
    }
}


/// The stable two-way merge of record streams by key, in the
/// case-insensitive dictionary order; the left stream wins ties.
pub open spec fn merge_rec_seqs(a: Seq<RecordView>, b: Seq<RecordView>) -> Seq<RecordView>
    decreases a.len() + b.len(),
{
    if a.len() == 0 {
        b
    } else if b.len() == 0 {
        a
    } else if dict_le(a[0].key, b[0].key) {
        seq![a[0]] + merge_rec_seqs(a.drop_first(), b)
    } else {
        seq![b[0]] + merge_rec_seqs(a, b.drop_first())
    }
}

/// The stable K-way merge of record streams: on key ties a record of an
/// earlier stream comes first.
pub open spec fn merge_rec_all(ss: Seq<Seq<RecordView>>) -> Seq<RecordView>
    decreases ss.len(),
{
    if ss.len() == 0 {
        Seq::empty()
    } else {
        merge_rec_seqs(ss[0], merge_rec_all(ss.drop_first()))
    }
}

/// Merging records and then taking their contents is merging the
/// contents.
proof fn lemma_merge_views(a: Seq<Record>, b: Seq<Record>)
    ensures
        recs_view(merge_seqs(a, b)) == merge_rec_seqs(recs_view(a), recs_view(b)),
    decreases a.len() + b.len(),
{
    if a.len() == 0 {
        assert(recs_view(a) =~= Seq::<RecordView>::empty());
    } else if b.len() == 0 {
        assert(recs_view(b) =~= Seq::<RecordView>::empty());
    } else {
        assert(recs_view(a)[0] == a[0]@);
        assert(recs_view(b)[0] == b[0]@);
        assert(recs_view(a.drop_first()) =~= recs_view(a).drop_first());
        assert(recs_view(b.drop_first()) =~= recs_view(b).drop_first());
        if a[0].le_spec(&b[0]) {
            lemma_merge_views(a.drop_first(), b);
            assert(recs_view(merge_seqs(a, b)) =~= seq![a[0]@] + recs_view(
                merge_seqs(a.drop_first(), b),
            ));
            assert(merge_rec_seqs(recs_view(a), recs_view(b)) == seq![recs_view(a)[0]]
                + merge_rec_seqs(recs_view(a).drop_first(), recs_view(b)));
        } else {
            lemma_merge_views(a, b.drop_first());
            assert(recs_view(merge_seqs(a, b)) =~= seq![b[0]@] + recs_view(
                merge_seqs(a, b.drop_first()),
            ));
            assert(merge_rec_seqs(recs_view(a), recs_view(b)) == seq![recs_view(b)[0]]
                + merge_rec_seqs(recs_view(a), recs_view(b).drop_first()));
        }
    }
}

/// The K-way form of the previous lemma, over streams with the given
/// contents.
proof fn lemma_merge_views_all(inputs: Seq<Vec<Record>>, views: Seq<Seq<RecordView>>)
    requires
        inputs.len() == views.len(),
        forall|i: int| 0 <= i < inputs.len() ==> recs_view((#[trigger] inputs[i])@) == views[i],
    ensures
        recs_view(merge_all(seqs_of(inputs))) == merge_rec_all(views),
    decreases inputs.len(),
{
    if inputs.len() == 0 {
        assert(seqs_of(inputs) =~= Seq::<Seq<Record>>::empty());
        assert(merge_all(Seq::<Seq<Record>>::empty()) == Seq::<Record>::empty());
        assert(recs_view(Seq::<Record>::empty()) =~= Seq::<RecordView>::empty());
    } else {
        assert forall|i: int| 0 <= i < inputs.drop_first().len() implies recs_view(
            (#[trigger] inputs.drop_first()[i])@,
        ) == views.drop_first()[i] by {
            assert(inputs.drop_first()[i] == inputs[i + 1]);
            assert(views.drop_first()[i] == views[i + 1]);
        }
        lemma_merge_views_all(inputs.drop_first(), views.drop_first());
        assert(seqs_of(inputs).drop_first() =~= seqs_of(inputs.drop_first()));
        assert(seqs_of(inputs)[0] == inputs[0]@);
        lemma_merge_views(inputs[0]@, merge_all(seqs_of(inputs.drop_first())));
    }
}

/// The records of several streams, one after the other.
pub open spec fn concat_records(inputs: Seq<Vec<Record>>) -> Seq<Record>
    decreases inputs.len(),
{
    if inputs.len() == 0 {
        Seq::empty()
    } else {
        inputs[0]@ + concat_records(inputs.drop_first())
    }
}

/// The union of the contents of several record streams.
pub open spec fn views_union(ss: Seq<Seq<RecordView>>) -> Multiset<RecordView>
    decreases ss.len(),
{
    if ss.len() == 0 {
        Multiset::empty()
    } else {
        ss[0].to_multiset().add(views_union(ss.drop_first()))
    }
}

/// Concatenating the streams realizes their union.
proof fn lemma_concat_records_elems(inputs: Seq<Vec<Record>>)
    ensures
        concat_records(inputs).to_multiset() == sources_elems(inputs),
    decreases inputs.len(),
{
    if inputs.len() == 0 {
        assert(concat_records(inputs).to_multiset() =~= Multiset::<Record>::empty());
    } else {
        lemma_concat_records_elems(inputs.drop_first());
        vstd::seq_lib::lemma_multiset_commutative(
            inputs[0]@,
            concat_records(inputs.drop_first()),
        );
    }
}

/// Record sequences with the same contents have the same contents in
/// view form.
proof fn lemma_recs_view_multiset(a: Seq<Record>, b: Seq<Record>)
    requires
        a.to_multiset() == b.to_multiset(),
    ensures
        recs_view(a).to_multiset() == recs_view(b).to_multiset(),
    decreases a.len(),
{
    if a.len() == 0 {
        assert(a.to_multiset().len() == 0);
        assert(b.len() == 0);
        assert(recs_view(a) =~= Seq::<RecordView>::empty());
        assert(recs_view(b) =~= Seq::<RecordView>::empty());
    } else {
        let x = a[0];
        assert(a.to_multiset().contains(x)) by {
            assert(a.contains(x));
        }
        assert(b.to_multiset().contains(x));
        assert(b.contains(x));
        let i = choose|i: int| 0 <= i < b.len() && b[i] == x;
        assert(a.remove(0).to_multiset() == a.to_multiset().remove(x));
        assert(b.remove(i).to_multiset() == b.to_multiset().remove(x));
        assert(a.remove(0) =~= a.drop_first());
        lemma_recs_view_multiset(a.drop_first(), b.remove(i));
        assert(recs_view(a.drop_first()) =~= recs_view(a).remove(0));
        assert(recs_view(b.remove(i)) =~= recs_view(b).remove(i));
        assert(recs_view(a).remove(0).to_multiset() == recs_view(a).to_multiset().remove(
            recs_view(a)[0],
        ));
        assert(recs_view(b).remove(i).to_multiset() == recs_view(b).to_multiset().remove(
            recs_view(b)[i],
        ));
        assert(recs_view(a)[0] == x@);
        assert(recs_view(b)[i] == x@);
        assert(recs_view(a).to_multiset().contains(x@)) by {
            assert(recs_view(a).contains(x@));
        }
        assert(recs_view(b).to_multiset().contains(x@)) by {
            assert(recs_view(b).contains(x@));
        }
        assert(recs_view(a).to_multiset() =~= recs_view(a).to_multiset().remove(x@).insert(x@));
        assert(recs_view(b).to_multiset() =~= recs_view(b).to_multiset().remove(x@).insert(x@));
    }
}

/// Concatenating streams with the given contents yields the union of
/// those contents.
proof fn lemma_concat_records_views(inputs: Seq<Vec<Record>>, views: Seq<Seq<RecordView>>)
    requires
        inputs.len() == views.len(),
        forall|i: int| 0 <= i < inputs.len() ==> recs_view((#[trigger] inputs[i])@) == views[i],
    ensures
        recs_view(concat_records(inputs)).to_multiset() == views_union(views),
    decreases inputs.len(),
{
    if inputs.len() == 0 {
        assert(recs_view(concat_records(inputs)) =~= Seq::<RecordView>::empty());
        assert(Seq::<RecordView>::empty().to_multiset() =~= Multiset::<RecordView>::empty());
    } else {
        assert forall|i: int| 0 <= i < inputs.drop_first().len() implies recs_view(
            (#[trigger] inputs.drop_first()[i])@,
        ) == views.drop_first()[i] by {
            assert(inputs.drop_first()[i] == inputs[i + 1]);
            assert(views.drop_first()[i] == views[i + 1]);
        }
        lemma_concat_records_views(inputs.drop_first(), views.drop_first());
        assert(recs_view(concat_records(inputs)) =~= recs_view(inputs[0]@) + recs_view(
            concat_records(inputs.drop_first()),
        ));
        vstd::seq_lib::lemma_multiset_commutative(
            recs_view(inputs[0]@),
            recs_view(concat_records(inputs.drop_first())),
        );
    }
}

/// One newline-terminated line per written byte string.
pub open spec fn lines_stream(ws: Seq<Seq<u8>>) -> Seq<u8>
    decreases ws.len(),
{
    if ws.len() == 0 {
        Seq::empty()
    } else {
        ws[0] + seq![10u8] + lines_stream(ws.drop_first())
    }
}

/// Writing one more line extends the stream by that line.
proof fn lemma_lines_stream_push(ws: Seq<Seq<u8>>, w: Seq<u8>)
    ensures
        lines_stream(ws.push(w)) == lines_stream(ws) + w + seq![10u8],
    decreases ws.len(),
{
    if ws.len() == 0 {
        assert(ws.push(w)[0] == w);
        assert(ws.push(w).drop_first() =~= Seq::<Seq<u8>>::empty());
        assert(lines_stream(Seq::<Seq<u8>>::empty()) == Seq::<u8>::empty());
        assert(lines_stream(ws.push(w)) =~= lines_stream(ws) + w + seq![10u8]);
    } else {
        assert(ws.push(w)[0] == ws[0]);
        assert(ws.push(w).drop_first() =~= ws.drop_first().push(w));
        lemma_lines_stream_push(ws.drop_first(), w);
        assert(lines_stream(ws.push(w)) =~= lines_stream(ws) + w + seq![10u8]);
    }
}

/// What one reduce partition leaves behind: the output sink it wrote,
/// and, as ghost data, the byte strings written, the groups handed to the
/// reducer and the merged record stream they came from.
pub struct ReduceOutput {
    pub dst: LinesWriter,
    pub written: Ghost<Seq<Seq<u8>>>,
    pub fed: Ghost<Seq<MultiRecordView>>,
    pub merged: Ghost<Seq<RecordView>>,
}

/// One reduce partition: merges the sorted streams of its shard, groups
/// them by key and drives the reduce function, writing every emission to
/// the output sink.
pub struct ReducePartition<R: Reducer> {
    mr: R,
    params: MRParameters,
    srcs: Vec<RecordReadIterator>,
    dstfile: LinesWriter,
}

impl<R: Reducer> ReducePartition<R> {
    /// The contents of the partition's input streams, in order.
    pub closed spec fn src_views(&self) -> Seq<Seq<RecordView>> {
        Seq::new(self.srcs@.len(), |i: int| self.srcs@[i].remaining_records())
    }

    pub closed spec fn wf(&self) -> bool {
        forall|i: int| 0 <= i < self.srcs@.len() ==> (#[trigger] self.srcs@[i]).inv()
            && rec_keys_sorted(self.srcs@[i].remaining_records())
    }

    /// Whether grouping folds keys to lower case.
    pub closed spec fn insensitive(&self) -> bool {
        self.params.reduce_group_insensitive
    }

    /// The untouched output sink.
    pub closed spec fn dst_log(&self) -> Seq<u8> {
        self.dstfile.log()
    }

    /// Create a new reduce partition for the given reducer, parameters,
    /// input streams and output sink. The input streams must be sorted,
    /// as the intermediate files written by the map phase are.
    pub fn new(mr: R, params: MRParameters, srcs: Vec<RecordReadIterator>, outp: LinesWriter)
        -> (r: ReducePartition<R>)
        requires
            forall|i: int| 0 <= i < srcs@.len() ==> (#[trigger] srcs@[i]).inv()
                && rec_keys_sorted(srcs@[i].remaining_records()),
        ensures
            r.wf(),
            r.src_views() == Seq::new(srcs@.len(), |i: int| srcs@[i].remaining_records()),
            r.insensitive() == params.reduce_group_insensitive,
            r.dst_log() == outp.log(),
    {
        ReducePartition { mr, params, srcs, dstfile: outp }
    }

    /// Run the reduce partition: the input streams are merged into their
    /// stable K-way merge — sorted by key, a record of an earlier stream
    /// first on a tie — and grouped into maximal same-key runs; the
    /// reducer sees every group in ascending key order, and each of its
    /// emissions is written to the sink as one line.
    pub fn _run(self) -> (r: ReduceOutput)
        requires
            self.wf(),
        ensures
            r.merged@ == merge_rec_all(self.src_views()),
            rec_keys_sorted(r.merged@),
            r.merged@.to_multiset() == views_union(self.src_views()),
            r.fed@ == groups(r.merged@, self.insensitive()),
            r.dst.log() == self.dst_log() + lines_stream(r.written@),
    {
        let ghost views0 = self.src_views();
        let mut this = self;
        let mut inputs: Vec<Vec<Record>> = Vec::new();
        let ghost n_srcs = this.srcs@.len() as int;
        loop
            invariant
                inputs@.len() + this.srcs@.len() == n_srcs,
                forall|i: int| 0 <= i < this.srcs@.len() ==> (#[trigger] this.srcs@[i]).inv()
                    && rec_keys_sorted(this.srcs@[i].remaining_records()),
                forall|i: int| 0 <= i < this.srcs@.len()
                    ==> (#[trigger] this.srcs@[i]).remaining_records() == views0[inputs@.len()
                    + i],
                forall|k: int| 0 <= k < inputs@.len() ==> recs_view((#[trigger] inputs@[k])@)
                    == views0[k] && sorted_le(inputs@[k]@),
                views0.len() == n_srcs,
                this.params == self.params,
                this.dstfile == self.dstfile,
                this.mr == self.mr,
            ensures
                this.srcs@.len() == 0,
                inputs@.len() == n_srcs,
                forall|k: int| 0 <= k < inputs@.len() ==> recs_view((#[trigger] inputs@[k])@)
                    == views0[k] && sorted_le(inputs@[k]@),
                this.params == self.params,
                this.dstfile == self.dstfile,
                this.mr == self.mr,
            decreases this.srcs@.len(),
        {
            if this.srcs.len() == 0 {
                break;
            }
            let ghost srcs0 = this.srcs@;
            let mut src = this.srcs.remove(0);
            proof {
                assert forall|i: int| 0 <= i < this.srcs@.len() implies (
                #[trigger] this.srcs@[i]).inv() && rec_keys_sorted(
                    this.srcs@[i].remaining_records(),
                ) && this.srcs@[i].remaining_records() == views0[inputs@.len() + 1 + i] by {
                    assert(this.srcs@[i] == srcs0[i + 1]);
                }
            }
            let recs = crate::util::drain_records(&mut src);
            proof {
                assert forall|i: int, j: int| 0 <= i < j < recs@.len() implies #[trigger] recs@[i].le_spec(&recs@[j]) by {
                    assert(recs_view(recs@)[i] == recs@[i]@);
                    assert(recs_view(recs@)[j] == recs@[j]@);
                }
            }
            inputs.push(recs);
        }
        proof {
            assert forall|k: int| 0 <= k < seqs_of(inputs@).len() implies sorted_le(
                #[trigger] seqs_of(inputs@)[k],
            ) by {
                assert(seqs_of(inputs@)[k] == inputs@[k]@);
            }
            assert(all_sorted(seqs_of(inputs@)));
        }
        let ghost inputs_v = inputs@;
        let merge = ShardMergeIterator::<Record>::build(inputs);
        let merged = merge.into_sorted_vec();
        let ghost merged_v = recs_view(merged@);
        proof {
            lemma_merge_views_all(inputs_v, views0);
            lemma_concat_records_elems(inputs_v);
            lemma_concat_records_views(inputs_v, views0);
            lemma_recs_view_multiset(merged@, concat_records(inputs_v));
            assert forall|i: int, j: int| 0 <= i < j < merged_v.len() implies dict_le(
                (#[trigger] merged_v[i]).key,
                (#[trigger] merged_v[j]).key,
            ) by {
                assert(merged@[i].le_spec(&merged@[j]));
                assert(merged_v[i] == merged@[i]@);
                assert(merged_v[j] == merged@[j]@);
            }
        }
        let params2 = this.params.duplicate();
        this.reduce(RecordsToMultiRecords::new(merged, params2), Ghost(merged_v))
    }

    /// Feeds every group to the reducer and writes each emission to the
    /// output sink as one line.
    fn reduce(self, inp: RecordsToMultiRecords, merged: Ghost<Seq<RecordView>>) -> (r:
        ReduceOutput)
        requires
            inp.wf(),
            inp.remaining() == merged@,
            inp.insensitive() == self.insensitive(),
        ensures
            r.merged@ == merged@,
            r.fed@ == groups(merged@, self.insensitive()),
            r.dst.log() == self.dst_log() + lines_stream(r.written@),
    {
        let ghost gs = groups(merged@, self.insensitive());
        let mut this = self;
        let mut inp = inp;
        let ghost fed = Seq::<MultiRecordView>::empty();
        let ghost written = Seq::<Seq<u8>>::empty();
        proof {
            assert(this.dstfile.log() + lines_stream(written) =~= this.dstfile.log());
        }
        loop
            invariant
                inp.wf(),
                inp.insensitive() == self.insensitive(),
                fed + groups(inp.remaining(), self.insensitive()) == gs,
                this.dstfile.log() == self.dst_log() + lines_stream(written),
                this.params == self.params,
            ensures
                fed == gs,
                this.dstfile.log() == self.dst_log() + lines_stream(written),
            decreases inp.remaining().len(),
        {
            let multirec = match inp.next() {
                None => {
                    proof {
                        assert(groups(inp.remaining(), self.insensitive())
                            =~= Seq::<MultiRecordView>::empty());
                        assert(fed + Seq::<MultiRecordView>::empty() =~= fed);
                    }
                    break;
                },
                Some(multirec) => multirec,
            };
            proof {
                assert(fed.push(multirec@) + groups(inp.remaining(), self.insensitive())
                    =~= gs);
            }
            let ghost mr_view = multirec@;
            let mut emitter = REmitter::new();
            this.mr.reduce(&mut emitter, multirec);
            let mut results = emitter._get();
            loop
                invariant
                    this.dstfile.log() == self.dst_log() + lines_stream(written),
                    this.params == self.params,
                ensures
                    this.dstfile.log() == self.dst_log() + lines_stream(written),
                    this.params == self.params,
                decreases results@.len(),
            {
                if results.len() == 0 {
                    break;
                }
                let result = results.remove(0);
                proof {
                    lemma_lines_stream_push(written, result@);
                    vstd::seq_lib::lemma_concat_associative(
                        self.dst_log(),
                        lines_stream(written),
                        result@ + seq![10u8],
                    );
                    vstd::seq_lib::lemma_concat_associative(
                        lines_stream(written),
                        result@,
                        seq![10u8],
                    );
                    vstd::seq_lib::lemma_concat_associative(
                        self.dst_log(),
                        lines_stream(written) + result@,
                        seq![10u8],
                    );
                    vstd::seq_lib::lemma_concat_associative(
                        self.dst_log(),
                        lines_stream(written),
                        result@,
                    );
                }
                this.dstfile.write(&result);
                proof {
                    written = written.push(result@);
                }
            }
            proof {
                fed = fed.push(mr_view);
            }
        }
        ReduceOutput {
            dst: this.dstfile,
            written: Ghost(written),
            fed: Ghost(fed),
            merged,
        }
    }
}


/// The values of a sequence of groups, joined back together.
pub open spec fn groups_values(gs: Seq<MultiRecordView>) -> Seq<Seq<u8>>
    decreases gs.len(),
{
    if gs.len() == 0 {
        Seq::empty()
    } else {
        gs[0].values + groups_values(gs.drop_first())
    }
}

/// Records with the same group key sit next to each other.
pub open spec fn keys_clustered(s: Seq<RecordView>, insensitive: bool) -> bool {
    forall|i: int, j: int, k: int|
        0 <= i < j < k < s.len() && group_key((#[trigger] s[i]).key, insensitive) == group_key(
            (#[trigger] s[k]).key,
            insensitive,
        ) ==> group_key((#[trigger] s[j]).key, insensitive) == group_key(s[i].key, insensitive)
}

/// Group-by law, first half: grouping loses and reorders no value — the
/// concatenation of the groups' values is exactly the records' values.
pub proof fn lemma_group_by_values(s: Seq<RecordView>, insensitive: bool)
    ensures
        groups_values(groups(s, insensitive)) == values_of(s),
    decreases s.len(),
{
    if s.len() == 0 {
        assert(groups_values(groups(s, insensitive)) =~= values_of(s));
    } else {
        let st = s.drop_first();
        let rest = groups(st, insensitive);
        lemma_group_by_values(st, insensitive);
        let gk = group_key(s[0].key, insensitive);
        assert(values_of(s) =~= seq![s[0].value] + values_of(st));
        if s.len() > 1 && group_key(s[1].key, insensitive) == gk {
            assert(st.len() > 0);
            assert(rest.len() > 0);
            assert(groups_values(rest) == rest[0].values + groups_values(rest.drop_first()));
            let g = groups(s, insensitive);
            assert(g[0].values == seq![s[0].value] + rest[0].values);
            assert(g.drop_first() =~= rest.drop_first());
            assert(groups_values(g) == g[0].values + groups_values(rest.drop_first()));
            assert(groups_values(g) =~= values_of(s));
        } else {
            let g = groups(s, insensitive);
            assert(g[0].values == seq![s[0].value]);
            assert(g.drop_first() =~= rest);
            assert(groups_values(g) =~= values_of(s));
        }
    }
}

/// Every group's key is the group key of some record.
proof fn lemma_groups_keys_member(s: Seq<RecordView>, insensitive: bool)
    ensures
        forall|p: int|
            0 <= p < groups(s, insensitive).len() ==> exists|idx: int|
                0 <= idx < s.len() && (#[trigger] groups(s, insensitive)[p]).key == group_key(
                    s[idx].key,
                    insensitive,
                ),
    decreases s.len(),
{
    if s.len() > 0 {
        let st = s.drop_first();
        let rest = groups(st, insensitive);
        lemma_groups_keys_member(st, insensitive);
        let g = groups(s, insensitive);
        assert forall|p: int| 0 <= p < g.len() implies exists|idx: int|
            0 <= idx < s.len() && (#[trigger] g[p]).key == group_key(s[idx].key, insensitive) by {
            if p == 0 {
                assert(g[0].key == group_key(s[0].key, insensitive));
            } else {
                let q: int = if s.len() > 1 && group_key(s[1].key, insensitive) == group_key(
                    s[0].key,
                    insensitive,
                ) {
                    p
                } else {
                    p - 1
                };
                assert(g[p] == rest[q]);
                let idx = choose|idx: int|
                    0 <= idx < st.len() && (#[trigger] rest[q]).key == group_key(
                        st[idx].key,
                        insensitive,
                    );
                assert(st[idx] == s[idx + 1]);
            }
        }
    }
}

/// Group-by law, second half: when records with the same group key are
/// adjacent, as they are in a sorted stream, every emitted group carries
/// a distinct key.
pub proof fn lemma_group_by_keys(s: Seq<RecordView>, insensitive: bool)
    requires
        keys_clustered(s, insensitive),
    ensures
        forall|p: int, q: int|
            0 <= p < q < groups(s, insensitive).len() ==> (#[trigger] groups(
                s,
                insensitive,
            )[p]).key != (#[trigger] groups(s, insensitive)[q]).key,
    decreases s.len(),
{
    if s.len() == 0 {
    } else {
        let n = lemma_groups_run(s, insensitive);
        let tail = s.skip(n);
        let g = groups(s, insensitive);
        let gt = groups(tail, insensitive);
        assert forall|i: int, j: int, k: int|
            0 <= i < j < k < tail.len() && group_key((#[trigger] tail[i]).key, insensitive)
                == group_key((#[trigger] tail[k]).key, insensitive) implies group_key(
            (#[trigger] tail[j]).key,
            insensitive,
        ) == group_key(tail[i].key, insensitive) by {
            assert(tail[i] == s[n + i]);
            assert(tail[j] == s[n + j]);
            assert(tail[k] == s[n + k]);
        }
        lemma_group_by_keys(tail, insensitive);
        lemma_groups_keys_member(tail, insensitive);
        assert forall|p: int, q: int| 0 <= p < q < g.len() implies (#[trigger] g[p]).key != (
        #[trigger] g[q]).key by {
            if p == 0 {
                assert(g[q] == gt[q - 1]);
                let idx = choose|idx: int|
                    0 <= idx < tail.len() && (#[trigger] gt[q - 1]).key == group_key(
                        tail[idx].key,
                        insensitive,
                    );
                assert(tail[idx] == s[n + idx]);
                if g[q].key == g[0].key {
                    assert(group_key(s[n + idx].key, insensitive) == group_key(
                        s[0].key,
                        insensitive,
                    ));
                    assert(n < s.len());
                    if n + idx == n {
                        assert(group_key(s[n as int].key, insensitive) != group_key(
                            s[0].key,
                            insensitive,
                        ));
                    } else {
                        assert(0 < n < n + idx < s.len());
                        assert(group_key(s[n as int].key, insensitive) == group_key(
                            s[0].key,
                            insensitive,
                        ));
                    }
                }
            } else {
                assert(g[p] == gt[p - 1]);
                assert(g[q] == gt[q - 1]);
            }
        }
    }
}

/// A sorted stream clusters keys for case-insensitive grouping: records
/// whose keys fold alike are adjacent.
pub proof fn lemma_sorted_clustered(s: Seq<RecordView>)
    requires
        rec_keys_sorted(s),
    ensures
        keys_clustered(s, true),
{
    assert forall|i: int, j: int, k: int|
        0 <= i < j < k < s.len() && group_key((#[trigger] s[i]).key, true) == group_key(
            (#[trigger] s[k]).key,
            true,
        ) implies group_key((#[trigger] s[j]).key, true) == group_key(s[i].key, true) by {
        crate::sort::lemma_dict_eq_lower(s[i].key, s[k].key);
        assert(crate::sort::dict_eq(s[i].key, s[k].key));
        crate::sort::lemma_dict_cmp_flip(s[i].key, s[k].key);
        crate::sort::lemma_dict_le_trans(s[k].key, s[i].key, s[j].key);
        crate::sort::lemma_dict_cmp_flip(s[j].key, s[k].key);
        assert(crate::sort::dict_eq(s[j].key, s[k].key));
        crate::sort::lemma_dict_eq_lower(s[j].key, s[k].key);
        crate::sort::lemma_dict_eq_lower(s[i].key, s[k].key);
    }
}

} // verus!
