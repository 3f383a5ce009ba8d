//! Iterator adapters used between input/output formats and the engine.

use vstd::prelude::*;
use crate::formats::writelog::{
    WriteLogReader, has_entry, head_entry, records_of, tail_entries, wl_entries,
};
use crate::record_types::{Record, RecordStream, RecordView, copy_bytes};
use crate::util::{dec_u64, positional_records, u64_to_dec};

verus! {

/// Transforms a sequence of plain values into a stream of records whose
/// key is the position of the value, starting with 1. Mainly used as input
/// in the mapping phase, from sources that only yield values, no keys.
pub struct PosRecordIterator {
    i: Vec<Vec<u8>>,
    counter: u64,
}

impl PosRecordIterator {
    pub fn new(it: Vec<Vec<u8>>) -> (r: PosRecordIterator)
        requires
            it@.len() <= u64::MAX,
        ensures
            r.inv(),
            r.source_records() == positional_records(it@, 0),
            r.remaining_records() == positional_records(it@, 0),
    {
        PosRecordIterator { i: it, counter: 0 }
    }
}

impl RecordStream for PosRecordIterator {
    closed spec fn inv(&self) -> bool {
        self.counter <= self.i@.len()
    }

    closed spec fn source_records(&self) -> Seq<RecordView> {
        positional_records(self.i@, 0)
    }

    closed spec fn remaining_records(&self) -> Seq<RecordView> {
        positional_records(self.i@, self.counter as int)
    }

    fn next(&mut self) -> (r: Option<Record>) {
        if self.counter as usize >= self.i.len() {
            return None;
        }
        let val = copy_bytes(&self.i[self.counter as usize]);
        self.counter = self.counter + 1;
        let key = u64_to_dec(self.counter);
        proof {
            assert(self.remaining_records() =~= old(self).remaining_records().drop_first());
        }
        Some(Record { key, value: val })
    }
}

/// Reads records off a WriteLog stream: one entry as the key, the next as
/// the value. A trailing unpaired entry ends the stream.
pub struct RecordReadIterator {
    i: WriteLogReader,
}

impl RecordReadIterator {
    pub fn new(it: WriteLogReader) -> (r: RecordReadIterator)
        requires
            it.wf(),
        ensures
            r.inv(),
            r.source_records() == records_of(wl_entries(it.source())),
            r.remaining_records() == records_of(wl_entries(it.remaining())),
    {
        RecordReadIterator { i: it }
    }
}

impl RecordStream for RecordReadIterator {
    closed spec fn inv(&self) -> bool {
        self.i.wf()
    }

    closed spec fn source_records(&self) -> Seq<RecordView> {
        records_of(wl_entries(self.i.source()))
    }

    closed spec fn remaining_records(&self) -> Seq<RecordView> {
        records_of(wl_entries(self.i.remaining()))
    }

    fn next(&mut self) -> (r: Option<Record>) {
        let ghost rem0 = self.i.remaining();
        let key = match self.i.next() {
            None => {
                proof {
                    assert(wl_entries(rem0) =~= Seq::<Seq<u8>>::empty());
                    assert(wl_entries(self.i.remaining()) =~= Seq::<Seq<u8>>::empty());
                }
                return None;
            },
            Some(k) => k,
        };
        let ghost rem1 = self.i.remaining();
        let value = match self.i.next() {
            None => {
                proof {
                    assert(wl_entries(rem1) =~= Seq::<Seq<u8>>::empty());
                    assert(wl_entries(rem0) =~= seq![head_entry(rem0)]);
                    assert(records_of(wl_entries(rem0)) =~= Seq::<RecordView>::empty());
                    assert(wl_entries(self.i.remaining()) =~= Seq::<Seq<u8>>::empty());
                }
                return None;
            },
            Some(v) => v,
        };
        proof {
            let es = wl_entries(rem0);
            assert(es == seq![head_entry(rem0)] + wl_entries(rem1));
            assert(wl_entries(rem1) == seq![head_entry(rem1)] + wl_entries(self.i.remaining()));
            assert(es[0] == head_entry(rem0));
            assert(es[1] == head_entry(rem1));
            assert(es.len() >= 2);
            assert(es.skip(2) =~= wl_entries(self.i.remaining()));
            assert(records_of(es)
                == seq![RecordView { key: es[0], value: es[1] }] + records_of(es.skip(2)));
            assert(records_of(es)[0] == RecordView { key: key@, value: value@ });
            assert(records_of(es).drop_first() =~= records_of(wl_entries(self.i.remaining())));
        }
        Some(Record { key, value })
    }
}

} // verus!
