//! Record types: the units of data flowing through every stage of the
//! engine, and the emitters handed to the user-supplied map and reduce
//! functions.
//!
//! Keys and values are arbitrary byte strings.

use vstd::prelude::*;

verus! {

/// A (key, value) pair of byte strings.
pub struct Record {
    pub key: Vec<u8>,
    pub value: Vec<u8>,
}

/// The mathematical content of a [`Record`].
pub struct RecordView {
    pub key: Seq<u8>,
    pub value: Seq<u8>,
}

impl View for Record {
    type V = RecordView;

    open spec fn view(&self) -> RecordView {
        RecordView { key: self.key@, value: self.value@ }
    }
}

/// The contents of a sequence of records.
pub open spec fn recs_view(s: Seq<Record>) -> Seq<RecordView> {
    s.map_values(|r: Record| r@)
}

/// The contents of a sequence of byte strings.
pub open spec fn vecs_view(s: Seq<Vec<u8>>) -> Seq<Seq<u8>> {
    s.map_values(|v: Vec<u8>| v@)
}

/// The values of a sequence of records.
pub open spec fn values_of(s: Seq<RecordView>) -> Seq<Seq<u8>> {
    s.map_values(|r: RecordView| r.value)
}

/// The keys of a record sequence are non-decreasing in the dictionary
/// order.
pub open spec fn rec_keys_sorted(s: Seq<RecordView>) -> bool {
    forall|i: int, j: int|
        0 <= i < j < s.len() ==> crate::sort::dict_le((#[trigger] s[i]).key, (#[trigger] s[j]).key)
}

/// A key and a value small enough for the intermediate stream's 4-byte
/// length prefix.
pub open spec fn fits_entry(k: Seq<u8>, v: Seq<u8>) -> bool {
    k.len() < 0x100000000 && v.len() < 0x100000000
}

impl Record {
    /// An exact copy of this record.
    pub fn duplicate(&self) -> (r: Record)
        ensures
            r@ == self@,
    {
        Record { key: copy_bytes(&self.key), value: copy_bytes(&self.value) }
    }
}

/// An exact copy of a byte string.
pub fn copy_bytes(v: &Vec<u8>) -> (r: Vec<u8>)
    ensures
        r@ == v@,
{
    let mut r: Vec<u8> = Vec::new();
    let mut i: usize = 0;
    while i < v.len()
        invariant
            i <= v@.len(),
            r@ == v@.take(i as int),
        decreases v@.len() - i,
    {
        r.push(v[i]);
        proof {
            assert(v@.take(i + 1) =~= v@.take(i as int).push(v@[i as int]));
        }
        i = i + 1;
    }
    proof {
        assert(v@.take(v@.len() as int) =~= v@);
    }
    r
}

/// A (key, values) pair delivered to one reduce invocation.
pub struct MultiRecord {
    key: Vec<u8>,
    values: Vec<Vec<u8>>,
}

/// The mathematical content of a [`MultiRecord`].
pub struct MultiRecordView {
    pub key: Seq<u8>,
    pub values: Seq<Seq<u8>>,
}

impl View for MultiRecord {
    type V = MultiRecordView;

    closed spec fn view(&self) -> MultiRecordView {
        MultiRecordView { key: self.key@, values: vecs_view(self.values@) }
    }
}

impl MultiRecord {
    pub fn new(key: Vec<u8>, values: Vec<Vec<u8>>) -> (r: MultiRecord)
        ensures
            r@.key == key@,
            r@.values == vecs_view(values@),
    {
        MultiRecord { key, values }
    }

    /// Retrieves the key of the record.
    pub fn key(&self) -> (r: &Vec<u8>)
        ensures
            r@ == self@.key,
    {
        &self.key
    }

    /// Hands out the values, in the order they were collected.
    pub fn into_values(self) -> (r: Vec<Vec<u8>>)
        ensures
            vecs_view(r@) == self@.values,
    {
        self.values
    }
}

/// Emitter used in the map phase to collect (key, value) pairs.
pub struct MEmitter {
    r: Vec<Record>,
}

impl View for MEmitter {
    type V = Seq<RecordView>;

    closed spec fn view(&self) -> Seq<RecordView> {
        recs_view(self.r@)
    }
}

impl MEmitter {
    /// Every collected record fits the intermediate stream's length
    /// prefixes.
    #[verifier::type_invariant]
    closed spec fn bounded(&self) -> bool {
        forall|i: int|
            0 <= i < self.r@.len() ==> fits_entry(
                (#[trigger] self.r@[i])@.key,
                self.r@[i]@.value,
            )
    }

    pub fn new() -> (e: MEmitter)
        ensures
            e@ == Seq::<RecordView>::empty(),
    {
        let e = MEmitter { r: Vec::new() };
        proof {
            assert(e@ =~= Seq::<RecordView>::empty());
        }
        e
    }

    /// Collects one (key, value) pair. A pair whose key or value is too
    /// large for the intermediate stream's 4-byte length prefix is
    /// discarded.
    pub fn emit(&mut self, key: Vec<u8>, val: Vec<u8>)
        ensures
            final(self)@ == if fits_entry(key@, val@) {
                old(self)@.push(RecordView { key: key@, value: val@ })
            } else {
                old(self)@
            },
    {
        proof {
            use_type_invariant(&*self);
        }
        if (key.len() as u64) < 0x100000000u64 && (val.len() as u64) < 0x100000000u64 {
            let ghost prev = self.r@;
            let mut tmp: Vec<Record> = Vec::new();
            core::mem::swap(&mut tmp, &mut self.r);
            tmp.push(Record { key, value: val });
            core::mem::swap(&mut tmp, &mut self.r);
            proof {
                assert(recs_view(self.r@) =~= recs_view(prev).push(self.r@.last()@));
            }
        }
    }

    /// Hands the collected records over to the engine.
    pub fn _get(self) -> (r: Vec<Record>)
        ensures
            recs_view(r@) == self@,
            forall|i: int|
                0 <= i < r@.len() ==> fits_entry((#[trigger] r@[i])@.key, r@[i]@.value),
    {
        proof {
            use_type_invariant(&self);
        }
        self.r
    }
}

/// Emitter used in the reduce phase to collect output byte strings.
pub struct REmitter {
    r: Vec<Vec<u8>>,
}

impl View for REmitter {
    type V = Seq<Seq<u8>>;

    closed spec fn view(&self) -> Seq<Seq<u8>> {
        vecs_view(self.r@)
    }
}

impl REmitter {
    pub fn new() -> (e: REmitter)
        ensures
            e@ == Seq::<Seq<u8>>::empty(),
    {
        let e = REmitter { r: Vec::new() };
        proof {
            assert(e@ =~= Seq::<Seq<u8>>::empty());
        }
        e
    }

    pub fn emit(&mut self, val: Vec<u8>)
        ensures
            final(self)@ == old(self)@.push(val@),
    {
        let ghost prev = self.r@;
        self.r.push(val);
        proof {
            assert(vecs_view(self.r@) =~= vecs_view(prev).push(self.r@.last()@));
        }
    }

    /// Hands the collected byte strings over to the engine.
    pub fn _get(self) -> (r: Vec<Vec<u8>>)
        ensures
            vecs_view(r@) == self@,
    {
        self.r
    }
}


/// A finite forward stream of records: the engine's input contract. The
/// controller consumes such a stream once, sequentially.
pub trait RecordStream: Sized {
    /// The stream's internal consistency condition.
    spec fn inv(&self) -> bool;

    /// All records the stream was created over; fixed for its lifetime.
    spec fn source_records(&self) -> Seq<RecordView>;

    /// The records not yet handed out, in order.
    spec fn remaining_records(&self) -> Seq<RecordView>;

    /// Hands out the next record, or nothing once the stream is finished.
    fn next(&mut self) -> (r: Option<Record>)
        requires
            old(self).inv(),
        ensures
            final(self).inv(),
            final(self).source_records() == old(self).source_records(),
            match r {
                Some(rec) => {
                    &&& old(self).remaining_records().len() > 0
                    &&& rec@ == old(self).remaining_records()[0]
                    &&& final(self).remaining_records()
                        == old(self).remaining_records().drop_first()
                },
                None => {
                    &&& old(self).remaining_records().len() == 0
                    &&& final(self).remaining_records() == old(self).remaining_records()
                },
            },
    ;
}

} // verus!
