//! Holds one map chunk's input records in memory, in fixed-capacity
//! chunks, in a way that is both efficient to store and efficient to walk.

use vstd::prelude::*;
use crate::record_types::{Record, RecordStream, RecordView, recs_view};

verus! {

/// The memory footprint of a record: the lengths of its key and value.
pub open spec fn rec_bytes(r: RecordView) -> int {
    r.key.len() + r.value.len() as int
}

/// The memory footprint of a sequence of records.
pub open spec fn total_bytes(s: Seq<RecordView>) -> int
    decreases s.len(),
{
    if s.len() == 0 {
        0
    } else {
        rec_bytes(s[0]) + total_bytes(s.drop_first())
    }
}

/// The records held by a list of chunks, in order.
pub open spec fn chunks_view(cs: Seq<Vec<Record>>) -> Seq<RecordView>
    decreases cs.len(),
{
    if cs.len() == 0 {
        Seq::empty()
    } else {
        recs_view(cs[0]@) + chunks_view(cs.drop_first())
    }
}

/// Appending a chunk appends its records.
pub proof fn lemma_chunks_view_push(cs: Seq<Vec<Record>>, c: Vec<Record>)
    ensures
        chunks_view(cs.push(c)) == chunks_view(cs) + recs_view(c@),
    decreases cs.len(),
{
    if cs.len() == 0 {
        assert(cs.push(c)[0] == c);
        assert(cs.push(c).drop_first() =~= Seq::<Vec<Record>>::empty());
        assert(chunks_view(Seq::<Vec<Record>>::empty()) == Seq::<RecordView>::empty());
        assert(recs_view(c@) + Seq::<RecordView>::empty() =~= recs_view(c@));
        assert(chunks_view(cs) + recs_view(c@) =~= recs_view(c@));
    } else {
        assert(cs.push(c).drop_first() =~= cs.drop_first().push(c));
        lemma_chunks_view_push(cs.drop_first(), c);
        assert(cs.push(c)[0] == cs[0]);
        vstd::seq_lib::lemma_concat_associative(
            recs_view(cs[0]@),
            chunks_view(cs.drop_first()),
            recs_view(c@),
        );
    }
}

/// The footprint of a sequence grows by the footprint of a pushed record.
pub proof fn lemma_total_bytes_push(s: Seq<RecordView>, r: RecordView)
    ensures
        total_bytes(s.push(r)) == total_bytes(s) + rec_bytes(r),
    decreases s.len(),
{
    if s.len() == 0 {
        assert(s.push(r)[0] == r);
        assert(s.push(r).drop_first() =~= Seq::<RecordView>::empty());
        assert(total_bytes(Seq::<RecordView>::empty()) == 0);
    } else {
        assert(s.push(r)[0] == s[0]);
        assert(s.push(r).drop_first() =~= s.drop_first().push(r));
        lemma_total_bytes_push(s.drop_first(), r);
    }
}

/// Holds inputs to the map phase in memory.
pub struct InputCache {
    chunks: Vec<Vec<Record>>,
    ci: usize,
    ri: usize,
    length: usize,
}

impl InputCache {
    /// All records the cache was built with, in insertion order.
    pub closed spec fn records(&self) -> Seq<RecordView> {
        chunks_view(self.chunks@)
    }

    pub closed spec fn wf(&self) -> bool {
        &&& self.length == chunks_view(self.chunks@).len()
        &&& self.ci <= self.chunks@.len()
        &&& (self.ci < self.chunks@.len() ==> self.ri < self.chunks@[self.ci as int]@.len())
        &&& (self.ci == self.chunks@.len() ==> self.ri == 0)
        &&& forall|i: int| 0 <= i < self.chunks@.len()
            ==> (#[trigger] self.chunks@[i])@.len() > 0
    }

    /// The records not yet yielded by the traversal.
    pub closed spec fn remaining(&self) -> Seq<RecordView> {
        if self.ci >= self.chunks@.len() {
            Seq::empty()
        } else {
            recs_view(self.chunks@[self.ci as int]@).skip(self.ri as int) + chunks_view(
                self.chunks@.skip(self.ci + 1),
            )
        }
    }

    /// How many records the cache holds in total: the number it was built
    /// with, unchanged as the traversal is consumed.
    pub fn len(&self) -> (r: usize)
        requires
            self.wf(),
        ensures
            r == self.records().len(),
            r == self.source_records().len(),
    {
        self.length
    }

    /// Reads up to `max_bytes` worth of records off `it`, in chunks of
    /// `chunk_length` records. Stops right after the record that crosses
    /// the budget; a stream that ends earlier is drained whole.
    pub fn from_iter<It: RecordStream>(chunk_length: usize, max_bytes: usize, it: &mut It) -> (c:
        InputCache)
        requires
            old(it).inv(),
            chunk_length >= 1,
            old(it).remaining_records().len() <= usize::MAX,
        ensures
            final(it).inv(),
            c.wf(),
            c.inv(),
            c.remaining() == c.records(),
            c.remaining_records() == c.records(),
            c.source_records() == c.records(),
            old(it).remaining_records() == c.records() + final(it).remaining_records(),
            old(it).remaining_records().len() > 0 ==> c.records().len() > 0,
            final(it).remaining_records().len() > 0 ==> total_bytes(c.records()) >= max_bytes,
            forall|j: int| 1 <= j < c.records().len()
                ==> total_bytes(c.records().take(j)) < max_bytes,
    {
        let ghost source = old(it).remaining_records();
        let mut chunklist: Vec<Vec<Record>> = Vec::new();
        let mut chunk: Vec<Record> = Vec::new();
        let mut i: usize = 0;
        let mut complete_length: usize = 0;
        let mut bytes_read: usize = 0;
        let ghost taken = Seq::<RecordView>::empty();
        proof {
            assert(chunks_view(chunklist@) + recs_view(chunk@) =~= taken);
            assert(source.skip(0) =~= source);
        }
        loop
            invariant_except_break
                forall|j: int| 1 <= j <= taken.len() ==> total_bytes(taken.take(j)) < max_bytes,
            invariant
                it.inv(),
                chunk_length >= 1,
                source.len() <= usize::MAX,
                taken.len() <= source.len(),
                source == taken + it.remaining_records(),
                chunks_view(chunklist@) + recs_view(chunk@) == taken,
                complete_length == taken.len(),
                i == chunk@.len(),
                i < chunk_length,
                bytes_read == if total_bytes(taken) <= usize::MAX {
                    total_bytes(taken)
                } else {
                    usize::MAX as int
                },
                forall|k: int| 0 <= k < chunklist@.len()
                    ==> (#[trigger] chunklist@[k])@.len() > 0,
            ensures
                it.inv(),
                source.len() <= usize::MAX,
                source == taken + it.remaining_records(),
                chunks_view(chunklist@) + recs_view(chunk@) == taken,
                complete_length == taken.len(),
                it.remaining_records().len() > 0 ==> total_bytes(taken) >= max_bytes,
                taken.len() == 0 ==> it.remaining_records().len() == source.len(),
                source.len() > 0 ==> taken.len() > 0,
                forall|j: int| 1 <= j < taken.len() ==> total_bytes(taken.take(j)) < max_bytes,
                forall|k: int| 0 <= k < chunklist@.len()
                    ==> (#[trigger] chunklist@[k])@.len() > 0,
            decreases it.remaining_records().len(),
        {
            let v = match it.next() {
                None => {
                    break;
                },
                Some(v) => v,
            };
            proof {
                assert(taken.push(v@) =~= source.take(taken.len() as int + 1));
                assert(source.take(taken.len() as int + 1) + it.remaining_records() =~= source);
                lemma_total_bytes_push(taken, v@);
                assert(recs_view(chunk@.push(v)) =~= recs_view(chunk@).push(v@));
                assert((chunks_view(chunklist@) + recs_view(chunk@)).push(v@)
                    =~= chunks_view(chunklist@) + recs_view(chunk@).push(v@));
                assert forall|j: int| 1 <= j <= taken.len() implies total_bytes(
                    taken.push(v@).take(j),
                ) < max_bytes by {
                    assert(taken.push(v@).take(j) =~= taken.take(j));
                }
            }
            i = i + 1;
            complete_length = complete_length + 1;
            let vb = if v.key.len() > usize::MAX - v.value.len() {
                usize::MAX
            } else {
                v.key.len() + v.value.len()
            };
            bytes_read = if bytes_read > usize::MAX - vb {
                usize::MAX
            } else {
                bytes_read + vb
            };
            chunk.push(v);
            proof {
                taken = taken.push(v@);
            }
            if i >= chunk_length {
                proof {
                    lemma_chunks_view_push(chunklist@, chunk);
                }
                chunklist.push(chunk);
                chunk = Vec::new();
                proof {
                    assert(recs_view(chunk@) =~= Seq::<RecordView>::empty());
                    assert(chunks_view(chunklist@) + Seq::<RecordView>::empty()
                        =~= chunks_view(chunklist@));
                }
                i = 0;
            }
            if bytes_read >= max_bytes {
                proof {
                    assert(taken.take(taken.len() as int) =~= taken);
                }
                break;
            }
            proof {
                assert(taken.take(taken.len() as int) =~= taken);
            }
        }
        if chunk.len() > 0 {
            proof {
                lemma_chunks_view_push(chunklist@, chunk);
            }
            chunklist.push(chunk);
        } else {
            proof {
                assert(chunks_view(chunklist@) + recs_view(chunk@) =~= chunks_view(chunklist@));
            }
        }
        let c = InputCache { chunks: chunklist, ci: 0, ri: 0, length: complete_length };
        proof {
            assert(c.records() == taken);
            if c.ci < c.chunks@.len() {
                assert(c.remaining() =~= c.records()) by {
                    assert(recs_view(c.chunks@[0]@).skip(0) =~= recs_view(c.chunks@[0]@));
                    assert(c.chunks@.skip(1) =~= c.chunks@.drop_first());
                }
            } else {
                assert(c.remaining() =~= c.records());
            }
        }
        c
    }
}

impl RecordStream for InputCache {
    closed spec fn inv(&self) -> bool {
        self.wf()
    }

    closed spec fn source_records(&self) -> Seq<RecordView> {
        self.records()
    }

    closed spec fn remaining_records(&self) -> Seq<RecordView> {
        self.remaining()
    }

    fn next(&mut self) -> (r: Option<Record>) {
        if self.ci >= self.chunks.len() {
            return None;
        }
        let ghost rem0 = self.remaining();
        let rec = self.chunks[self.ci][self.ri].duplicate();
        proof {
            assert(rem0[0] == recs_view(self.chunks@[self.ci as int]@)[self.ri as int]);
        }
        let cl = self.chunks[self.ci].len();
        self.ri = self.ri + 1;
        if self.ri >= cl {
            self.ci = self.ci + 1;
            self.ri = 0;
            proof {
                if self.ci < self.chunks@.len() {
                    assert(self.chunks@.skip(self.ci as int)
                        =~= seq![self.chunks@[self.ci as int]]
                        + self.chunks@.skip(self.ci + 1));
                    assert(chunks_view(self.chunks@.skip(self.ci as int))
                        == recs_view(self.chunks@[self.ci as int]@)
                        + chunks_view(self.chunks@.skip(self.ci + 1))) by {
                        let tail = self.chunks@.skip(self.ci as int);
                        assert(tail[0] == self.chunks@[self.ci as int]);
                        assert(tail.drop_first() =~= self.chunks@.skip(self.ci + 1));
                    }
                    assert(recs_view(self.chunks@[self.ci as int]@).skip(0)
                        =~= recs_view(self.chunks@[self.ci as int]@));
                    assert(self.remaining() =~= rem0.drop_first()) by {
                        assert(chunks_view(old(self).chunks@.skip(old(self).ci + 1))
                            == chunks_view(self.chunks@.skip(self.ci as int)));
                        assert(recs_view(old(self).chunks@[old(self).ci as int]@).skip(
                            old(self).ri as int,
                        ).len() == 1);
                    }
                } else {
                    assert(old(self).chunks@.skip(old(self).ci + 1).len() == 0);
                    assert(chunks_view(old(self).chunks@.skip(old(self).ci + 1))
                        =~= Seq::<RecordView>::empty());
                    assert(self.remaining() =~= rem0.drop_first());
                }
            }
        } else {
            proof {
                assert(recs_view(self.chunks@[self.ci as int]@).skip(self.ri as int)
                    =~= recs_view(self.chunks@[self.ci as int]@).skip(old(self).ri as int)
                        .drop_first());
                assert(self.remaining() =~= rem0.drop_first());
            }
        }
        Some(rec)
    }
}

} // verus!
