//! Small helpers: decimal rendering of counters and a positional record
//! iterator over plain values.

use vstd::prelude::*;
use crate::record_types::{Record, RecordStream, RecordView, copy_bytes};

verus! {

/// The decimal digits of `n`, most significant first, as ASCII bytes.
pub open spec fn dec_u64(n: nat) -> Seq<u8>
    decreases n,
{
    if n < 10 {
        seq![(48 + n) as u8]
    } else {
        dec_u64(n / 10).push((48 + n % 10) as u8)
    }
}

/// Renders `n` in decimal.
pub fn u64_to_dec(n: u64) -> (r: Vec<u8>)
    ensures
        r@ == dec_u64(n as nat),
    decreases n,
{
    if n < 10 {
        let mut r: Vec<u8> = Vec::new();
        r.push(48 + n as u8);
        proof {
            assert(r@ =~= dec_u64(n as nat));
        }
        r
    } else {
        let mut r = u64_to_dec(n / 10);
        r.push(48 + (n % 10) as u8);
        r
    }
}

/// The records a positional iterator over `vals` yields from position
/// `pos` on: the key of the record at index `i` is the decimal rendering
/// of `i + 1`.
pub open spec fn positional_records(vals: Seq<Vec<u8>>, pos: int) -> Seq<RecordView>
    recommends
        0 <= pos <= vals.len(),
{
    Seq::new((vals.len() - pos) as nat, |i: int| RecordView {
        key: dec_u64((pos + i + 1) as nat),
        value: vals[pos + i]@,
    })
}

/// Transforms a sequence of plain values into a stream of records whose
/// key is the position of the value, starting with 1. Mainly used as input
/// in the mapping phase, from sources that only yield values, no keys.
pub struct RecordIterator {
    i: Vec<Vec<u8>>,
    counter: u64,
}

impl RecordIterator {
    pub fn new(it: Vec<Vec<u8>>) -> (r: RecordIterator)
        requires
            it@.len() <= u64::MAX,
        ensures
            r.inv(),
            r.source_records() == positional_records(it@, 0),
            r.remaining_records() == positional_records(it@, 0),
    {
        RecordIterator { i: it, counter: 0 }
    }
}

impl RecordStream for RecordIterator {
    closed spec fn inv(&self) -> bool {
        self.counter <= self.i@.len()
    }

    closed spec fn source_records(&self) -> Seq<RecordView> {
        positional_records(self.i@, 0)
    }

    closed spec fn remaining_records(&self) -> Seq<RecordView> {
        positional_records(self.i@, self.counter as int)
    }

    fn next(&mut self) -> (r: Option<Record>) {
        if self.counter as usize >= self.i.len() {
            return None;
        }
        let val = copy_bytes(&self.i[self.counter as usize]);
        self.counter = self.counter + 1;
        let key = u64_to_dec(self.counter);
        proof {
            assert(self.remaining_records() =~= old(self).remaining_records().drop_first());
        }
        Some(Record { key, value: val })
    }
}


/// Drains a record stream into a vector, in stream order.
pub fn drain_records<It: RecordStream>(it: &mut It) -> (out: Vec<Record>)
    requires
        old(it).inv(),
    ensures
        final(it).inv(),
        final(it).remaining_records().len() == 0,
        crate::record_types::recs_view(out@) == old(it).remaining_records(),
{
    let ghost source = old(it).remaining_records();
    let mut out: Vec<Record> = Vec::new();
    proof {
        assert(crate::record_types::recs_view(out@) =~= source.take(0));
    }
    loop
        invariant
            it.inv(),
            out@.len() <= source.len(),
            crate::record_types::recs_view(out@) == source.take(out@.len() as int),
            source.skip(out@.len() as int) == it.remaining_records(),
        ensures
            it.inv(),
            it.remaining_records().len() == 0,
            crate::record_types::recs_view(out@) == source,
        decreases it.remaining_records().len(),
    {
        let rec = match it.next() {
            None => {
                proof {
                    assert(source.take(out@.len() as int) =~= source);
                }
                break;
            },
            Some(rec) => rec,
        };
        proof {
            let n = out@.len() as int;
            assert(rec@ == source.skip(n)[0]);
            assert(crate::record_types::recs_view(out@.push(rec))
                =~= crate::record_types::recs_view(out@).push(rec@));
            assert(source.take(n).push(source[n]) =~= source.take(n + 1));
            assert(source.skip(n).drop_first() =~= source.skip(n + 1));
        }
        out.push(rec);
    }
    out
}

} // verus!
