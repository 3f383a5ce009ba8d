//! The map phase: sorts one chunk of input, runs the mapper over it in
//! key order, groups the emissions by key, shards them and renders one
//! intermediate WriteLog stream per reduce shard.

use vstd::prelude::*;
use core::cmp::Ordering;
use crate::formats::writelog::{
    WriteLogGenerator, WriteLogWriter, encode_all, lemma_writelog_round_trip, wl_entries,
};
use crate::mapreducer::{Mapper, Sharder};
use crate::parameters::MRParameters;
use crate::formats::writelog::records_of;
use crate::record_types::{
    MEmitter, Record, RecordStream, RecordView, fits_entry, rec_keys_sorted, recs_view,
    vecs_view,
};
use crate::sort::{
    dict_cmp, dict_eq, dict_le, dict_string_compare, lemma_dict_cmp_flip, lemma_dict_eq_lower,
    lemma_dict_le_lt_trans, lemma_dict_lt_le_trans, lower,
};
use vstd::multiset::Multiset;

verus! {

broadcast use vstd::multiset::group_multiset_axioms, vstd::seq_lib::group_to_multiset_ensures;

/// One sorted-output entry: a key with every value mapped to it so far.
pub struct KeyValues {
    pub key: Vec<u8>,
    pub values: Vec<Vec<u8>>,
}

/// The mathematical content of a [`KeyValues`].
pub struct KeyValuesView {
    pub key: Seq<u8>,
    pub values: Seq<Seq<u8>>,
}

impl View for KeyValues {
    type V = KeyValuesView;

    open spec fn view(&self) -> KeyValuesView {
        KeyValuesView { key: self.key@, values: vecs_view(self.values@) }
    }
}

/// The contents of a sequence of sorted-output entries.
pub open spec fn kvs_view(s: Seq<KeyValues>) -> Seq<KeyValuesView> {
    s.map_values(|e: KeyValues| e@)
}

/// Keys strictly ascend under the dictionary order; in particular no two
/// of them fold to the same byte string.
pub open spec fn kv_sorted(s: Seq<RecordView>) -> bool {
    forall|i: int, j: int|
        0 <= i < j < s.len() ==> dict_cmp((#[trigger] s[i]).key, (#[trigger] s[j]).key)
            == Ordering::Less
}

/// Keys strictly ascend under the dictionary order.
pub open spec fn out_sorted(s: Seq<KeyValuesView>) -> bool {
    forall|i: int, j: int|
        0 <= i < j < s.len() ==> dict_cmp((#[trigger] s[i]).key, (#[trigger] s[j]).key)
            == Ordering::Less
}

/// Inserting into the sorted input: a record whose key folds like a
/// stored one replaces that record's value and keeps the stored key, as
/// an ordered map's insert does; any other key opens a fresh slot at its
/// sort position.
pub open spec fn kv_insert(s: Seq<RecordView>, k: Seq<u8>, v: Seq<u8>) -> Seq<RecordView>
    decreases s.len(),
{
    if s.len() == 0 {
        seq![RecordView { key: k, value: v }]
    } else if dict_cmp(k, s[0].key) == Ordering::Less {
        seq![RecordView { key: k, value: v }] + s
    } else if dict_eq(k, s[0].key) {
        seq![RecordView { key: s[0].key, value: v }] + s.drop_first()
    } else {
        seq![s[0]] + kv_insert(s.drop_first(), k, v)
    }
}

/// The sorted input after feeding it a whole sequence of records, in
/// order.
pub open spec fn kv_insert_all(s: Seq<RecordView>, recs: Seq<RecordView>) -> Seq<RecordView>
    decreases recs.len(),
{
    if recs.len() == 0 {
        s
    } else {
        kv_insert_all(kv_insert(s, recs[0].key, recs[0].value), recs.drop_first())
    }
}

/// Inserting into the sorted output: a record whose key folds like a
/// stored one appends its value there, and the stored key is replaced by
/// the record's; any other key opens a fresh entry at its sort position.
pub open spec fn out_insert(s: Seq<KeyValuesView>, k: Seq<u8>, v: Seq<u8>) -> Seq<KeyValuesView>
    decreases s.len(),
{
    if s.len() == 0 {
        seq![KeyValuesView { key: k, values: seq![v] }]
    } else if dict_cmp(k, s[0].key) == Ordering::Less {
        seq![KeyValuesView { key: k, values: seq![v] }] + s
    } else if dict_eq(k, s[0].key) {
        seq![KeyValuesView { key: k, values: s[0].values.push(v) }] + s.drop_first()
    } else {
        seq![s[0]] + out_insert(s.drop_first(), k, v)
    }
}

/// The sorted output after grouping a whole sequence of emissions, in
/// order.
pub open spec fn out_insert_all(s: Seq<KeyValuesView>, recs: Seq<RecordView>) -> Seq<
    KeyValuesView>
    decreases recs.len(),
{
    if recs.len() == 0 {
        s
    } else {
        out_insert_all(out_insert(s, recs[0].key, recs[0].value), recs.drop_first())
    }
}

/// Every key of `kv_insert(s, k, v)` is `k` or a key of `s`.
proof fn lemma_kv_insert_keys(s: Seq<RecordView>, k: Seq<u8>, v: Seq<u8>)
    ensures
        forall|m: int|
            0 <= m < kv_insert(s, k, v).len() ==> dict_eq((#[trigger] kv_insert(s, k, v)[m]).key, k)
                || exists|j: int| 0 <= j < s.len() && kv_insert(s, k, v)[m].key == (#[trigger] s[j]).key,
    decreases s.len(),
{
    lemma_dict_cmp_flip(k, k);
    if s.len() == 0 {
    } else if dict_cmp(k, s[0].key) == Ordering::Less {
    } else if dict_eq(k, s[0].key) {
    } else {
        lemma_kv_insert_keys(s.drop_first(), k, v);
        assert forall|m: int| 0 <= m < kv_insert(s, k, v).len() implies dict_eq(
            (#[trigger] kv_insert(s, k, v)[m]).key,
            k,
        ) || exists|j: int|
            0 <= j < s.len() && kv_insert(s, k, v)[m].key == (#[trigger] s[j]).key by {
            if m == 0 {
                assert(kv_insert(s, k, v)[0].key == s[0].key);
            } else {
                let inner = kv_insert(s.drop_first(), k, v);
                assert(kv_insert(s, k, v)[m] == inner[m - 1]);
                if !dict_eq(inner[m - 1].key, k) {
                    let j = choose|j: int|
                        0 <= j < s.drop_first().len() && inner[m - 1].key == s.drop_first()[j].key;
                    assert(s.drop_first()[j] == s[j + 1]);
                }
            }
        }
    }
}

/// Inserting keeps the sorted input strictly sorted.
proof fn lemma_kv_insert_sorted(s: Seq<RecordView>, k: Seq<u8>, v: Seq<u8>)
    requires
        kv_sorted(s),
    ensures
        kv_sorted(kv_insert(s, k, v)),
    decreases s.len(),
{
    let r = kv_insert(s, k, v);
    if s.len() == 0 {
    } else if dict_cmp(k, s[0].key) == Ordering::Less {
        assert forall|i: int, j: int| 0 <= i < j < r.len() implies dict_cmp(
            r[i].key,
            r[j].key,
        ) == Ordering::Less by {
            if i == 0 && j > 1 {
                lemma_dict_lt_le_trans(k, s[0].key, s[j - 1].key);
            }
        }
    } else if dict_eq(k, s[0].key) {
        assert forall|i: int, j: int| 0 <= i < j < r.len() implies dict_cmp(
            r[i].key,
            r[j].key,
        ) == Ordering::Less by {
            assert(r[0].key == s[0].key);
            if i > 0 {
                assert(r[i] == s[i] && r[j] == s[j]);
            }
        }
    } else {
        lemma_kv_insert_sorted(s.drop_first(), k, v);
        lemma_kv_insert_keys(s.drop_first(), k, v);
        let inner = kv_insert(s.drop_first(), k, v);
        assert forall|i: int, j: int| 0 <= i < j < r.len() implies dict_cmp(
            r[i].key,
            r[j].key,
        ) == Ordering::Less by {
            if i == 0 {
                lemma_dict_cmp_flip(k, s[0].key);
                assert(r[j] == inner[j - 1]);
                if dict_eq(inner[j - 1].key, k) {
                    lemma_dict_cmp_flip(inner[j - 1].key, k);
                    lemma_dict_lt_le_trans(s[0].key, k, inner[j - 1].key);
                } else {
                    let m = choose|m: int|
                        0 <= m < s.drop_first().len() && inner[j - 1].key
                            == s.drop_first()[m].key;
                    assert(s.drop_first()[m] == s[m + 1]);
                    assert(dict_cmp(s[0].key, s[m + 1].key) == Ordering::Less);
                }
            } else {
                assert(r[i] == inner[i - 1] && r[j] == inner[j - 1]);
            }
        }
    }
}

/// Every key of `out_insert(s, k, v)` is `k` or a key of `s`.
proof fn lemma_out_insert_keys(s: Seq<KeyValuesView>, k: Seq<u8>, v: Seq<u8>)
    ensures
        forall|m: int|
            0 <= m < out_insert(s, k, v).len() ==> dict_eq(
                (#[trigger] out_insert(s, k, v)[m]).key,
                k,
            ) || exists|j: int|
                0 <= j < s.len() && out_insert(s, k, v)[m].key == (#[trigger] s[j]).key,
    decreases s.len(),
{
    lemma_dict_cmp_flip(k, k);
    if s.len() == 0 {
    } else if dict_cmp(k, s[0].key) == Ordering::Less {
    } else if dict_eq(k, s[0].key) {
    } else {
        lemma_out_insert_keys(s.drop_first(), k, v);
        assert forall|m: int| 0 <= m < out_insert(s, k, v).len() implies dict_eq(
            (#[trigger] out_insert(s, k, v)[m]).key,
            k,
        ) || exists|j: int|
            0 <= j < s.len() && out_insert(s, k, v)[m].key == (#[trigger] s[j]).key by {
            if m == 0 {
                assert(out_insert(s, k, v)[0].key == s[0].key);
            } else {
                let inner = out_insert(s.drop_first(), k, v);
                assert(out_insert(s, k, v)[m] == inner[m - 1]);
                if !dict_eq(inner[m - 1].key, k) {
                    let j = choose|j: int|
                        0 <= j < s.drop_first().len() && inner[m - 1].key == s.drop_first()[j].key;
                    assert(s.drop_first()[j] == s[j + 1]);
                }
            }
        }
    }
}

/// Inserting keeps the sorted output strictly sorted.
proof fn lemma_out_insert_sorted(s: Seq<KeyValuesView>, k: Seq<u8>, v: Seq<u8>)
    requires
        out_sorted(s),
    ensures
        out_sorted(out_insert(s, k, v)),
    decreases s.len(),
{
    let r = out_insert(s, k, v);
    if s.len() == 0 {
    } else if dict_cmp(k, s[0].key) == Ordering::Less {
        assert forall|i: int, j: int| 0 <= i < j < r.len() implies dict_cmp(
            r[i].key,
            r[j].key,
        ) == Ordering::Less by {
            if i == 0 && j > 1 {
                lemma_dict_lt_le_trans(k, s[0].key, s[j - 1].key);
            }
        }
    } else if dict_eq(k, s[0].key) {
        assert forall|i: int, j: int| 0 <= i < j < r.len() implies dict_cmp(
            r[i].key,
            r[j].key,
        ) == Ordering::Less by {
            assert(r[0].key == k);
            if i == 0 {
                assert(r[j] == s[j]);
                lemma_dict_le_lt_trans(k, s[0].key, s[j].key);
            } else {
                assert(r[i] == s[i] && r[j] == s[j]);
            }
        }
    } else {
        lemma_out_insert_sorted(s.drop_first(), k, v);
        lemma_out_insert_keys(s.drop_first(), k, v);
        let inner = out_insert(s.drop_first(), k, v);
        assert forall|i: int, j: int| 0 <= i < j < r.len() implies dict_cmp(
            r[i].key,
            r[j].key,
        ) == Ordering::Less by {
            if i == 0 {
                lemma_dict_cmp_flip(k, s[0].key);
                assert(r[j] == inner[j - 1]);
                if dict_eq(inner[j - 1].key, k) {
                    lemma_dict_cmp_flip(inner[j - 1].key, k);
                    lemma_dict_lt_le_trans(s[0].key, k, inner[j - 1].key);
                } else {
                    let m = choose|m: int|
                        0 <= m < s.drop_first().len() && inner[j - 1].key
                            == s.drop_first()[m].key;
                    assert(s.drop_first()[m] == s[m + 1]);
                    assert(dict_cmp(s[0].key, s[m + 1].key) == Ordering::Less);
                }
            } else {
                assert(r[i] == inner[i - 1] && r[j] == inner[j - 1]);
            }
        }
    }
}


/// Skipping a strictly smaller prefix commutes with inserting into the
/// sorted input.
proof fn lemma_kv_insert_prefix(s: Seq<RecordView>, k: Seq<u8>, v: Seq<u8>, i: int)
    requires
        0 <= i <= s.len(),
        forall|j: int| 0 <= j < i ==> dict_cmp(k, (#[trigger] s[j]).key) == Ordering::Greater,
    ensures
        kv_insert(s, k, v) == s.take(i) + kv_insert(s.skip(i), k, v),
    decreases i,
{
    if i == 0 {
        assert(s.take(0) =~= Seq::<RecordView>::empty());
        assert(s.skip(0) =~= s);
        assert(s.take(0) + kv_insert(s, k, v) =~= kv_insert(s, k, v));
    } else {
        let st = s.drop_first();
        assert(dict_cmp(k, s[0].key) == Ordering::Greater);
        assert forall|j: int| 0 <= j < i - 1 implies dict_cmp(k, (#[trigger] st[j]).key)
            == Ordering::Greater by {
            assert(st[j] == s[j + 1]);
        }
        lemma_kv_insert_prefix(st, k, v, i - 1);
        assert(st.skip(i - 1) =~= s.skip(i));
        assert(seq![s[0]] + (st.take(i - 1) + kv_insert(st.skip(i - 1), k, v))
            =~= s.take(i) + kv_insert(s.skip(i), k, v));
    }
}

/// Skipping a strictly smaller prefix commutes with inserting into the
/// sorted output.
proof fn lemma_out_insert_prefix(s: Seq<KeyValuesView>, k: Seq<u8>, v: Seq<u8>, i: int)
    requires
        0 <= i <= s.len(),
        forall|j: int| 0 <= j < i ==> dict_cmp(k, (#[trigger] s[j]).key) == Ordering::Greater,
    ensures
        out_insert(s, k, v) == s.take(i) + out_insert(s.skip(i), k, v),
    decreases i,
{
    if i == 0 {
        assert(s.take(0) =~= Seq::<KeyValuesView>::empty());
        assert(s.skip(0) =~= s);
        assert(s.take(0) + out_insert(s, k, v) =~= out_insert(s, k, v));
    } else {
        let st = s.drop_first();
        assert(dict_cmp(k, s[0].key) == Ordering::Greater);
        assert forall|j: int| 0 <= j < i - 1 implies dict_cmp(k, (#[trigger] st[j]).key)
            == Ordering::Greater by {
            assert(st[j] == s[j + 1]);
        }
        lemma_out_insert_prefix(st, k, v, i - 1);
        assert(st.skip(i - 1) =~= s.skip(i));
        assert(seq![s[0]] + (st.take(i - 1) + out_insert(st.skip(i - 1), k, v))
            =~= s.take(i) + out_insert(s.skip(i), k, v));
    }
}

/// The sorted input of a map partition: an ordered map from folded key to
/// the record stored under it.
pub struct SortedInputMap {
    entries: Vec<Record>,
}

impl View for SortedInputMap {
    type V = Seq<RecordView>;

    closed spec fn view(&self) -> Seq<RecordView> {
        recs_view(self.entries@)
    }
}

impl SortedInputMap {
    pub fn new() -> (m: SortedInputMap)
        ensures
            m@ == Seq::<RecordView>::empty(),
    {
        let m = SortedInputMap { entries: Vec::new() };
        proof {
            assert(m@ =~= Seq::<RecordView>::empty());
        }
        m
    }

    pub fn len(&self) -> (r: usize)
        ensures
            r == self@.len(),
    {
        self.entries.len()
    }

    /// Inserts one record, as `kv_insert` describes.
    pub fn insert(&mut self, key: Vec<u8>, value: Vec<u8>)
        requires
            kv_sorted(old(self)@),
        ensures
            final(self)@ == kv_insert(old(self)@, key@, value@),
            kv_sorted(final(self)@),
    {
        proof {
            lemma_kv_insert_sorted(self@, key@, value@);
        }
        let ghost s = self@;
        let mut i: usize = 0;
        loop
            invariant
                i <= self.entries@.len(),
                s == recs_view(self.entries@),
                forall|j: int| 0 <= j < i ==> dict_cmp(key@, (#[trigger] s[j]).key)
                    == Ordering::Greater,
            ensures
                i <= s.len(),
                forall|j: int| 0 <= j < i ==> dict_cmp(key@, (#[trigger] s[j]).key)
                    == Ordering::Greater,
                i < s.len() ==> dict_cmp(key@, s[i as int].key) != Ordering::Greater,
            decreases self.entries@.len() - i,
        {
            if i == self.entries.len() {
                break;
            }
            let o = dict_string_compare(&key, &self.entries[i].key);
            match o {
                Ordering::Greater => {
                    i = i + 1;
                },
                _ => {
                    break;
                },
            }
        }
        proof {
            lemma_kv_insert_prefix(s, key@, value@, i as int);
        }
        if i < self.entries.len() {
            let o = dict_string_compare(&key, &self.entries[i].key);
            match o {
                Ordering::Equal => {
                    let old_rec = self.entries.remove(i);
                    self.entries.insert(i, Record { key: old_rec.key, value });
                    proof {
                        assert(s.skip(i as int)[0] == s[i as int]);
                        assert(s.skip(i as int).drop_first() =~= s.skip(i as int + 1));
                        assert(recs_view(self.entries@) =~= s.take(i as int) + (seq![
                            RecordView { key: s[i as int].key, value: value@ },
                        ] + s.skip(i as int + 1)));
                    }
                    return;
                },
                _ => {
                    self.entries.insert(i, Record { key, value });
                    proof {
                        assert(s.skip(i as int)[0] == s[i as int]);
                        assert(recs_view(self.entries@) =~= s.take(i as int) + (seq![
                            RecordView { key: key@, value: value@ },
                        ] + s.skip(i as int)));
                    }
                    return;
                },
            }
        }
        self.entries.insert(i, Record { key, value });
        proof {
            assert(s.skip(i as int) =~= Seq::<RecordView>::empty());
            assert(kv_insert(Seq::<RecordView>::empty(), key@, value@)
                == seq![RecordView { key: key@, value: value@ }]);
            assert(recs_view(self.entries@) =~= s.take(i as int) + seq![
                RecordView { key: key@, value: value@ },
            ]);
        }
    }

    /// Removes and returns the record with the least key.
    pub fn pop_first(&mut self) -> (r: Option<Record>)
        requires
            kv_sorted(old(self)@),
        ensures
            kv_sorted(final(self)@),
            match r {
                None => final(self)@ == old(self)@ && old(self)@.len() == 0,
                Some(rec) => old(self)@.len() > 0 && rec@ == old(self)@[0] && final(self)@
                    == old(self)@.drop_first(),
            },
    {
        if self.entries.len() == 0 {
            return None;
        }
        let rec = self.entries.remove(0);
        proof {
            assert(recs_view(self.entries@) =~= recs_view(old(self).entries@).drop_first());
        }
        Some(rec)
    }
}

/// The sorted output of a map partition: an ordered map from folded key
/// to every value mapped to it, in emission order.
pub struct SortedOutputMap {
    entries: Vec<KeyValues>,
}

impl View for SortedOutputMap {
    type V = Seq<KeyValuesView>;

    closed spec fn view(&self) -> Seq<KeyValuesView> {
        kvs_view(self.entries@)
    }
}

impl SortedOutputMap {
    pub fn new() -> (m: SortedOutputMap)
        ensures
            m@ == Seq::<KeyValuesView>::empty(),
    {
        let m = SortedOutputMap { entries: Vec::new() };
        proof {
            assert(m@ =~= Seq::<KeyValuesView>::empty());
        }
        m
    }

    pub fn len(&self) -> (r: usize)
        ensures
            r == self@.len(),
    {
        self.entries.len()
    }

    /// Files one emission under its key, as `out_insert` describes.
    pub fn insert(&mut self, key: Vec<u8>, value: Vec<u8>)
        requires
            out_sorted(old(self)@),
        ensures
            final(self)@ == out_insert(old(self)@, key@, value@),
            out_sorted(final(self)@),
    {
        proof {
            lemma_out_insert_sorted(self@, key@, value@);
        }
        let ghost s = self@;
        let mut i: usize = 0;
        loop
            invariant
                i <= self.entries@.len(),
                s == kvs_view(self.entries@),
                forall|j: int| 0 <= j < i ==> dict_cmp(key@, (#[trigger] s[j]).key)
                    == Ordering::Greater,
            ensures
                i <= s.len(),
                forall|j: int| 0 <= j < i ==> dict_cmp(key@, (#[trigger] s[j]).key)
                    == Ordering::Greater,
                i < s.len() ==> dict_cmp(key@, s[i as int].key) != Ordering::Greater,
            decreases self.entries@.len() - i,
        {
            if i == self.entries.len() {
                break;
            }
            let o = dict_string_compare(&key, &self.entries[i].key);
            match o {
                Ordering::Greater => {
                    i = i + 1;
                },
                _ => {
                    break;
                },
            }
        }
        proof {
            lemma_out_insert_prefix(s, key@, value@, i as int);
        }
        if i < self.entries.len() {
            let o = dict_string_compare(&key, &self.entries[i].key);
            match o {
                Ordering::Equal => {
                    let mut e = self.entries.remove(i);
                    let ghost vals0 = vecs_view(e.values@);
                    e.values.push(value);
                    proof {
                        assert(vecs_view(e.values@) =~= vals0.push(value@));
                    }
                    self.entries.insert(i, KeyValues { key, values: e.values });
                    proof {
                        assert(s.skip(i as int)[0] == s[i as int]);
                        assert(s.skip(i as int).drop_first() =~= s.skip(i as int + 1));
                        assert(kvs_view(self.entries@) =~= s.take(i as int) + (seq![
                            KeyValuesView { key: key@, values: s[i as int].values.push(value@) },
                        ] + s.skip(i as int + 1)));
                    }
                    return;
                },
                _ => {
                    let mut vals: Vec<Vec<u8>> = Vec::new();
                    vals.push(value);
                    proof {
                        assert(vecs_view(vals@) =~= seq![value@]);
                    }
                    self.entries.insert(i, KeyValues { key, values: vals });
                    proof {
                        assert(s.skip(i as int)[0] == s[i as int]);
                        assert(kvs_view(self.entries@) =~= s.take(i as int) + (seq![
                            KeyValuesView { key: key@, values: seq![value@] },
                        ] + s.skip(i as int)));
                    }
                    return;
                },
            }
        }
        let mut vals: Vec<Vec<u8>> = Vec::new();
        vals.push(value);
        proof {
            assert(vecs_view(vals@) =~= seq![value@]);
        }
        self.entries.insert(i, KeyValues { key, values: vals });
        proof {
            assert(s.skip(i as int) =~= Seq::<KeyValuesView>::empty());
            assert(out_insert(Seq::<KeyValuesView>::empty(), key@, value@)
                == seq![KeyValuesView { key: key@, values: seq![value@] }]);
            assert(kvs_view(self.entries@) =~= s.take(i as int) + seq![
                KeyValuesView { key: key@, values: seq![value@] },
            ]);
        }
    }

    /// Removes and returns the entry with the least key.
    pub fn pop_first(&mut self) -> (r: Option<KeyValues>)
        requires
            out_sorted(old(self)@),
        ensures
            out_sorted(final(self)@),
            match r {
                None => final(self)@ == old(self)@ && old(self)@.len() == 0,
                Some(e) => old(self)@.len() > 0 && e@ == old(self)@[0] && final(self)@
                    == old(self)@.drop_first(),
            },
    {
        if self.entries.len() == 0 {
            return None;
        }
        let e = self.entries.remove(0);
        proof {
            assert(kvs_view(self.entries@) =~= kvs_view(old(self).entries@).drop_first());
        }
        Some(e)
    }
}


/// Every key and value of the entries fits the intermediate stream's
/// length prefixes.
pub open spec fn out_fits(s: Seq<KeyValuesView>) -> bool {
    forall|i: int, j: int|
        0 <= i < s.len() && 0 <= j < s[i].values.len() ==> fits_entry(
            (#[trigger] s[i]).key,
            #[trigger] s[i].values[j],
        )
}

/// Every emission fits the intermediate stream's length prefixes.
pub open spec fn recs_fit(s: Seq<RecordView>) -> bool {
    forall|i: int| 0 <= i < s.len() ==> fits_entry((#[trigger] s[i]).key, s[i].value)
}

/// Feeding one more record extends the fold.
proof fn lemma_kv_insert_all_push(s: Seq<RecordView>, recs: Seq<RecordView>, r: RecordView)
    ensures
        kv_insert_all(s, recs.push(r)) == kv_insert(kv_insert_all(s, recs), r.key, r.value),
    decreases recs.len(),
{
    if recs.len() == 0 {
        assert(recs.push(r)[0] == r);
        assert(recs.push(r).drop_first() =~= Seq::<RecordView>::empty());
        assert(kv_insert_all(kv_insert(s, r.key, r.value), Seq::<RecordView>::empty())
            == kv_insert(s, r.key, r.value));
        assert(kv_insert_all(s, Seq::<RecordView>::empty()) == s);
    } else {
        assert(recs.push(r)[0] == recs[0]);
        assert(recs.push(r).drop_first() =~= recs.drop_first().push(r));
        lemma_kv_insert_all_push(kv_insert(s, recs[0].key, recs[0].value), recs.drop_first(), r);
    }
}

/// Grouping one more emission extends the fold.
proof fn lemma_out_insert_all_push(s: Seq<KeyValuesView>, recs: Seq<RecordView>, r: RecordView)
    ensures
        out_insert_all(s, recs.push(r)) == out_insert(out_insert_all(s, recs), r.key, r.value),
    decreases recs.len(),
{
    if recs.len() == 0 {
        assert(recs.push(r)[0] == r);
        assert(recs.push(r).drop_first() =~= Seq::<RecordView>::empty());
        assert(out_insert_all(out_insert(s, r.key, r.value), Seq::<RecordView>::empty())
            == out_insert(s, r.key, r.value));
        assert(out_insert_all(s, Seq::<RecordView>::empty()) == s);
    } else {
        assert(recs.push(r)[0] == recs[0]);
        assert(recs.push(r).drop_first() =~= recs.drop_first().push(r));
        lemma_out_insert_all_push(out_insert(s, recs[0].key, recs[0].value), recs.drop_first(), r);
    }
}

/// Inserting a fitting emission keeps every entry fitting.
proof fn lemma_out_insert_fits(s: Seq<KeyValuesView>, k: Seq<u8>, v: Seq<u8>)
    requires
        out_fits(s),
        fits_entry(k, v),
    ensures
        out_fits(out_insert(s, k, v)),
    decreases s.len(),
{
    let r = out_insert(s, k, v);
    if s.len() == 0 {
    } else if dict_cmp(k, s[0].key) == Ordering::Less {
    } else if dict_eq(k, s[0].key) {
        assert forall|i: int, j: int|
            0 <= i < r.len() && 0 <= j < r[i].values.len() implies fits_entry(
            (#[trigger] r[i]).key,
            #[trigger] r[i].values[j],
        ) by {
            if i == 0 {
                if j < s[0].values.len() {
                    assert(r[0].values[j] == s[0].values[j]);
                    assert(fits_entry(s[0].key, s[0].values[j]));
                } else {
                    assert(r[0].values[j] == v);
                }
            } else {
                assert(r[i] == s[i]);
            }
        }
    } else {
        lemma_out_insert_fits(s.drop_first(), k, v);
        let inner = out_insert(s.drop_first(), k, v);
        assert forall|i: int, j: int|
            0 <= i < r.len() && 0 <= j < r[i].values.len() implies fits_entry(
            (#[trigger] r[i]).key,
            #[trigger] r[i].values[j],
        ) by {
            if i == 0 {
                assert(fits_entry(s[0].key, s[0].values[j]));
            } else {
                assert(r[i] == inner[i - 1]);
            }
        }
    }
}

/// The stream entries one sorted-output entry produces: its key before
/// each of its values.
pub open spec fn entry_stream(e: KeyValuesView) -> Seq<Seq<u8>> {
    Seq::new(2 * e.values.len(), |j: int| if j % 2 == 0 {
        e.key
    } else {
        e.values[j / 2]
    })
}

/// The stream entries one intermediate file receives: the entry streams
/// of every sorted-output entry routed to shard `r`, in sorted order.
pub open spec fn shard_stream(entries: Seq<KeyValuesView>, sh: Seq<int>, r: int) -> Seq<Seq<u8>>
    decreases entries.len(),
{
    if entries.len() == 0 {
        Seq::empty()
    } else {
        (if sh[0] == r {
            entry_stream(entries[0])
        } else {
            Seq::empty()
        }) + shard_stream(entries.drop_first(), sh.drop_first(), r)
    }
}

/// Routing one more entry appends its stream to its shard's file and to
/// no other.
proof fn lemma_shard_stream_push(entries: Seq<KeyValuesView>, sh: Seq<int>, e: KeyValuesView, s:
    int, r: int)
    requires
        entries.len() == sh.len(),
    ensures
        shard_stream(entries.push(e), sh.push(s), r) == shard_stream(entries, sh, r) + (if s == r {
            entry_stream(e)
        } else {
            Seq::empty()
        }),
    decreases entries.len(),
{
    let tailseq: Seq<Seq<u8>> = if s == r {
        entry_stream(e)
    } else {
        Seq::empty()
    };
    if entries.len() == 0 {
        assert(entries.push(e)[0] == e);
        assert(sh.push(s)[0] == s);
        assert(entries.push(e).drop_first() =~= Seq::<KeyValuesView>::empty());
        assert(sh.push(s).drop_first() =~= Seq::<int>::empty());
        assert(shard_stream(Seq::<KeyValuesView>::empty(), Seq::<int>::empty(), r)
            == Seq::<Seq<u8>>::empty());
        assert(shard_stream(entries.push(e), sh.push(s), r) =~= shard_stream(entries, sh, r)
            + tailseq);
    } else {
        assert(entries.push(e)[0] == entries[0]);
        assert(sh.push(s)[0] == sh[0]);
        assert(entries.push(e).drop_first() =~= entries.drop_first().push(e));
        assert(sh.push(s).drop_first() =~= sh.drop_first().push(s));
        lemma_shard_stream_push(entries.drop_first(), sh.drop_first(), e, s, r);
        assert(shard_stream(entries.push(e), sh.push(s), r) =~= shard_stream(entries, sh, r)
            + tailseq);
    }
}

/// Every entry of a shard's stream fits its length prefix.
proof fn lemma_shard_stream_fits(entries: Seq<KeyValuesView>, sh: Seq<int>, r: int)
    requires
        out_fits(entries),
    ensures
        forall|m: int| 0 <= m < shard_stream(entries, sh, r).len()
            ==> (#[trigger] shard_stream(entries, sh, r)[m]).len() < 0x100000000,
    decreases entries.len(),
{
    if entries.len() > 0 {
        assert forall|i: int, j: int|
            0 <= i < entries.drop_first().len() && 0 <= j
                < entries.drop_first()[i].values.len() implies fits_entry(
            (#[trigger] entries.drop_first()[i]).key,
            #[trigger] entries.drop_first()[i].values[j],
        ) by {
            assert(entries.drop_first()[i] == entries[i + 1]);
        }
        lemma_shard_stream_fits(entries.drop_first(), sh.drop_first(), r);
        let head: Seq<Seq<u8>> = if sh[0] == r {
            entry_stream(entries[0])
        } else {
            Seq::empty()
        };
        let tail = shard_stream(entries.drop_first(), sh.drop_first(), r);
        assert forall|m: int| 0 <= m < head.len() implies (#[trigger] head[m]).len()
            < 0x100000000 by {
            if m % 2 == 0 {
                assert(fits_entry(entries[0].key, entries[0].values[m / 2]));
            } else {
                assert(fits_entry(entries[0].key, entries[0].values[m / 2]));
            }
        }
        assert forall|m: int| 0 <= m < shard_stream(entries, sh, r).len() implies (
        #[trigger] shard_stream(entries, sh, r)[m]).len() < 0x100000000 by {
            assert(shard_stream(entries, sh, r) == head + tail);
            if m < head.len() {
                assert(shard_stream(entries, sh, r)[m] == head[m]);
            } else {
                assert(shard_stream(entries, sh, r)[m] == tail[m - head.len()]);
            }
        }
    }
}

/// The side products of one map partition: the intermediate file buffer
/// for every reduce shard, and, as ghost data, the grouped entries, the
/// shard each entry was routed to, the emissions that produced them and
/// the input records consumed.
pub struct MapOutput {
    pub files: Vec<Vec<u8>>,
    pub chunk: Ghost<int>,
    pub entries: Ghost<Seq<KeyValuesView>>,
    pub shards: Ghost<Seq<int>>,
    pub emitted: Ghost<Seq<RecordView>>,
    pub consumed: Ghost<Seq<RecordView>>,
}

/// The base of the mapping phase: one instance handles one input chunk.
pub struct MapPartition<M: Mapper, S: Sharder, In: RecordStream> {
    m: M,
    sharder: S,
    params: MRParameters,
    input: In,
    sink: WriteLogGenerator,
    sorted_input: SortedInputMap,
    sorted_output: SortedOutputMap,
    consumed: Ghost<Seq<RecordView>>,
    emitted: Ghost<Seq<RecordView>>,
}

impl<M: Mapper, S: Sharder, In: RecordStream> MapPartition<M, S, In> {
    /// A partition that has not run yet.
    pub closed spec fn fresh(&self) -> bool {
        &&& self.input.inv()
        &&& self.params.reducers >= 1
        &&& self.sorted_input@ =~= Seq::<RecordView>::empty()
        &&& self.sorted_output@ =~= Seq::<KeyValuesView>::empty()
        &&& self.consumed@ =~= Seq::<RecordView>::empty()
        &&& self.emitted@ =~= Seq::<RecordView>::empty()
    }

    /// How many reduce shards the partition writes for.
    pub closed spec fn reducers(&self) -> int {
        self.params.reducers as int
    }

    /// The id of the chunk this partition was configured for.
    pub closed spec fn shard_id(&self) -> int {
        self.params.shard_id as int
    }

    /// The records the partition will read.
    pub closed spec fn input_records(&self) -> Seq<RecordView> {
        self.input.remaining_records()
    }

    pub fn _new(params: MRParameters, input: In, mapper: M, sharder: S, output:
        WriteLogGenerator) -> (r: MapPartition<M, S, In>)
        requires
            input.inv(),
            params.reducers >= 1,
        ensures
            r.fresh(),
            r.reducers() == params.reducers,
            r.shard_id() == params.shard_id,
            r.input_records() == input.remaining_records(),
    {
        MapPartition {
            m: mapper,
            sharder,
            params,
            input,
            sink: output,
            sorted_input: SortedInputMap::new(),
            sorted_output: SortedOutputMap::new(),
            consumed: Ghost(Seq::empty()),
            emitted: Ghost(Seq::empty()),
        }
    }

    /// Runs the partition: sort the input, map it in key order, group the
    /// emissions and render one intermediate stream per reduce shard.
    pub fn _run(self) -> (r: MapOutput)
        requires
            self.fresh(),
        ensures
            r.chunk@ == self.shard_id(),
            r.consumed@ == self.input_records(),
            r.entries@ == out_insert_all(Seq::<KeyValuesView>::empty(), r.emitted@),
            out_sorted(r.entries@),
            recs_fit(r.emitted@),
            r.shards@.len() == r.entries@.len(),
            forall|i: int| 0 <= i < r.shards@.len() ==> 0 <= #[trigger] r.shards@[i]
                < self.reducers(),
            r.files@.len() == self.reducers(),
            forall|sr: int| 0 <= sr < self.reducers()
                ==> wl_entries((#[trigger] r.files@[sr])@) == shard_stream(
                    r.entries@,
                    r.shards@,
                    sr,
                ),
    {
        let mut this = self;
        this.sort_input();
        this.do_map();
        this.write_output()
    }

    /// Sorts input into the sorted input map, moving the records on the
    /// way. A later record whose key folds like an earlier one replaces
    /// the earlier record's value.
    fn sort_input(&mut self)
        requires
            old(self).input.inv(),
            kv_sorted(old(self).sorted_input@),
        ensures
            final(self).input.inv(),
            final(self).input.remaining_records().len() == 0,
            final(self).sorted_input@ == kv_insert_all(
                old(self).sorted_input@,
                old(self).input.remaining_records(),
            ),
            kv_sorted(final(self).sorted_input@),
            final(self).consumed@ == old(self).consumed@
                + old(self).input.remaining_records(),
            final(self).m == old(self).m,
            final(self).sharder == old(self).sharder,
            final(self).params == old(self).params,
            final(self).sink == old(self).sink,
            final(self).sorted_output == old(self).sorted_output,
            final(self).emitted == old(self).emitted,
    {
        let ghost source = self.input.remaining_records();
        let ghost taken = Seq::<RecordView>::empty();
        proof {
            assert(taken + source =~= source);
            assert(self.consumed@ + taken =~= self.consumed@);
        }
        loop
            invariant
                self.input.inv(),
                kv_sorted(self.sorted_input@),
                taken + self.input.remaining_records() == source,
                self.sorted_input@ == kv_insert_all(old(self).sorted_input@, taken),
                self.consumed@ == old(self).consumed@ + taken,
                self.m == old(self).m,
                self.sharder == old(self).sharder,
                self.params == old(self).params,
                self.sink == old(self).sink,
                self.sorted_output == old(self).sorted_output,
                self.emitted == old(self).emitted,
            ensures
                self.input.inv(),
                self.input.remaining_records().len() == 0,
                kv_sorted(self.sorted_input@),
                taken == source,
                self.sorted_input@ == kv_insert_all(old(self).sorted_input@, taken),
                self.consumed@ == old(self).consumed@ + taken,
                self.m == old(self).m,
                self.sharder == old(self).sharder,
                self.params == old(self).params,
                self.sink == old(self).sink,
                self.sorted_output == old(self).sorted_output,
                self.emitted == old(self).emitted,
            decreases self.input.remaining_records().len(),
        {
            let record = match self.input.next() {
                None => {
                    proof {
                        assert(taken =~= source);
                    }
                    break;
                },
                Some(record) => record,
            };
            proof {
                lemma_kv_insert_all_push(old(self).sorted_input@, taken, record@);
                assert(taken.push(record@) + self.input.remaining_records() =~= source);
                assert((old(self).consumed@ + taken).push(record@)
                    =~= old(self).consumed@ + taken.push(record@));
            }
            self.sorted_input.insert(record.key, record.value);
            proof {
                taken = taken.push(record@);
                self.consumed@ = self.consumed@.push(record@);
                assert(self.consumed@ =~= old(self).consumed@ + taken);
            }
        }
    }

    /// Executes the mapping phase: drains the sorted input in key order,
    /// runs the mapper on each record and groups every emission.
    fn do_map(&mut self)
        requires
            kv_sorted(old(self).sorted_input@),
            out_sorted(old(self).sorted_output@),
            old(self).sorted_output@ == out_insert_all(
                Seq::<KeyValuesView>::empty(),
                old(self).emitted@,
            ),
            recs_fit(old(self).emitted@),
        ensures
            final(self).sorted_input@.len() == 0,
            out_sorted(final(self).sorted_output@),
            final(self).sorted_output@ == out_insert_all(
                Seq::<KeyValuesView>::empty(),
                final(self).emitted@,
            ),
            recs_fit(final(self).emitted@),
            final(self).params == old(self).params,
            final(self).sink == old(self).sink,
            final(self).input == old(self).input,
            final(self).consumed == old(self).consumed,
    {
        loop
            invariant
                kv_sorted(self.sorted_input@),
                out_sorted(self.sorted_output@),
                self.sorted_output@ == out_insert_all(
                    Seq::<KeyValuesView>::empty(),
                    self.emitted@,
                ),
                recs_fit(self.emitted@),
                self.params == old(self).params,
                self.sink == old(self).sink,
                self.input == old(self).input,
                self.consumed == old(self).consumed,
            ensures
                self.sorted_input@.len() == 0,
                out_sorted(self.sorted_output@),
                self.sorted_output@ == out_insert_all(
                    Seq::<KeyValuesView>::empty(),
                    self.emitted@,
                ),
                recs_fit(self.emitted@),
                self.params == old(self).params,
                self.sink == old(self).sink,
                self.input == old(self).input,
                self.consumed == old(self).consumed,
            decreases self.sorted_input@.len(),
        {
            let record = match self.sorted_input.pop_first() {
                None => {
                    break;
                },
                Some(record) => record,
            };
            let mut e = MEmitter::new();
            self.m.map(&mut e, record);
            self.insert_result(e);
        }
    }

    /// Groups the records collected by one mapper invocation into the
    /// sorted output, in emission order.
    fn insert_result(&mut self, emitter: MEmitter)
        requires
            out_sorted(old(self).sorted_output@),
            old(self).sorted_output@ == out_insert_all(
                Seq::<KeyValuesView>::empty(),
                old(self).emitted@,
            ),
            recs_fit(old(self).emitted@),
        ensures
            out_sorted(final(self).sorted_output@),
            final(self).sorted_output@ == out_insert_all(
                Seq::<KeyValuesView>::empty(),
                final(self).emitted@,
            ),
            final(self).emitted@ == old(self).emitted@ + emitter@,
            recs_fit(final(self).emitted@),
            final(self).params == old(self).params,
            final(self).sink == old(self).sink,
            final(self).input == old(self).input,
            final(self).consumed == old(self).consumed,
            final(self).sorted_input == old(self).sorted_input,
            final(self).m == old(self).m,
            final(self).sharder == old(self).sharder,
    {
        let ghost all = emitter@;
        let mut recs = emitter._get();
        let ghost done = Seq::<RecordView>::empty();
        proof {
            assert(done + recs_view(recs@) =~= all);
            assert(self.emitted@ + done =~= self.emitted@);
        }
        loop
            invariant
                out_sorted(self.sorted_output@),
                self.sorted_output@ == out_insert_all(
                    Seq::<KeyValuesView>::empty(),
                    self.emitted@,
                ),
                self.emitted@ == old(self).emitted@ + done,
                recs_fit(self.emitted@),
                done + recs_view(recs@) == all,
                forall|i: int|
                    0 <= i < recs@.len() ==> fits_entry(
                        (#[trigger] recs@[i])@.key,
                        recs@[i]@.value,
                    ),
                self.params == old(self).params,
                self.sink == old(self).sink,
                self.input == old(self).input,
                self.consumed == old(self).consumed,
                self.sorted_input == old(self).sorted_input,
                self.m == old(self).m,
                self.sharder == old(self).sharder,
            ensures
                out_sorted(self.sorted_output@),
                self.sorted_output@ == out_insert_all(
                    Seq::<KeyValuesView>::empty(),
                    self.emitted@,
                ),
                self.emitted@ == old(self).emitted@ + all,
                recs_fit(self.emitted@),
                self.params == old(self).params,
                self.sink == old(self).sink,
                self.input == old(self).input,
                self.consumed == old(self).consumed,
                self.sorted_input == old(self).sorted_input,
                self.m == old(self).m,
                self.sharder == old(self).sharder,
            decreases recs@.len(),
        {
            if recs.len() == 0 {
                proof {
                    assert(recs_view(recs@) =~= Seq::<RecordView>::empty());
                    assert(done =~= all);
                }
                break;
            }
            let ghost recs0 = recs@;
            let r = recs.remove(0);
            proof {
                assert(recs_view(recs@) =~= recs_view(recs0).drop_first());
                assert(recs_view(recs0)[0] == r@);
                lemma_out_insert_all_push(Seq::<KeyValuesView>::empty(), self.emitted@, r@);
                assert(done.push(r@) + recs_view(recs@) =~= all);
                assert((old(self).emitted@ + done).push(r@) =~= old(self).emitted@ + done.push(
                    r@,
                ));
                assert forall|i: int|
                    0 <= i < self.emitted@.push(r@).len() implies fits_entry(
                    (#[trigger] self.emitted@.push(r@)[i]).key,
                    self.emitted@.push(r@)[i].value,
                ) by {
                    if i < self.emitted@.len() {
                        assert(self.emitted@.push(r@)[i] == self.emitted@[i]);
                    }
                }
            }
            self.sorted_output.insert(r.key, r.value);
            proof {
                self.emitted@ = self.emitted@.push(r@);
                done = done.push(r@);
            }
        }
    }

    /// Creates one in-memory sink per reduce shard.
    fn setup_output(&self) -> (outputs: Vec<WriteLogWriter>)
        ensures
            outputs@.len() == self.params.reducers,
            forall|r: int| 0 <= r < outputs@.len() ==> (#[trigger] outputs@[r]).wf()
                && outputs@[r].base() == Seq::<u8>::empty() && outputs@[r].entries()
                == Seq::<Seq<u8>>::empty(),
    {
        let mut outputs: Vec<WriteLogWriter> = Vec::new();
        let mut i: usize = 0;
        while i < self.params.reducers
            invariant
                i <= self.params.reducers,
                outputs@.len() == i,
                forall|r: int| 0 <= r < outputs@.len() ==> (#[trigger] outputs@[r]).wf()
                    && outputs@[r].base() == Seq::<u8>::empty() && outputs@[r].entries()
                    == Seq::<Seq<u8>>::empty(),
            decreases self.params.reducers - i,
        {
            let out = self.sink.new_buffer_output();
            outputs.push(out);
            i = i + 1;
        }
        outputs
    }

    /// Renders the sorted output: every entry is routed to the shard its
    /// key belongs in, and its key/value pairs are appended to that
    /// shard's stream.
    #[verifier::spinoff_prover]
    #[verifier::rlimit(100)]
    fn write_output(&mut self) -> (r: MapOutput)
        requires
            old(self).params.reducers >= 1,
            out_sorted(old(self).sorted_output@),
            old(self).sorted_output@ == out_insert_all(
                Seq::<KeyValuesView>::empty(),
                old(self).emitted@,
            ),
            recs_fit(old(self).emitted@),
        ensures
            r.chunk@ == old(self).params.shard_id,
            r.consumed@ == old(self).consumed@,
            r.emitted@ == old(self).emitted@,
            r.entries@ == old(self).sorted_output@,
            r.shards@.len() == r.entries@.len(),
            forall|i: int| 0 <= i < r.shards@.len() ==> 0 <= #[trigger] r.shards@[i]
                < old(self).params.reducers,
            r.files@.len() == old(self).params.reducers,
            forall|sr: int| 0 <= sr < old(self).params.reducers
                ==> wl_entries((#[trigger] r.files@[sr])@) == shard_stream(
                    r.entries@,
                    r.shards@,
                    sr,
                ),
    {
        let ghost entries0 = self.sorted_output@;
        let ghost nred = self.params.reducers as int;
        let mut outputs = self.setup_output();
        let ghost done = Seq::<KeyValuesView>::empty();
        let ghost sh = Seq::<int>::empty();
        proof {
            assert(done + self.sorted_output@ =~= entries0);
            lemma_out_insert_all_fits(old(self).emitted@);
        }
        loop
            invariant
                self.params == old(self).params,
                self.params.reducers == nred,
                nred >= 1,
                self.consumed == old(self).consumed,
                self.emitted == old(self).emitted,
                out_sorted(self.sorted_output@),
                out_fits(entries0),
                done + self.sorted_output@ == entries0,
                sh.len() == done.len(),
                forall|i: int| 0 <= i < sh.len() ==> 0 <= #[trigger] sh[i] < nred,
                outputs@.len() == nred,
                forall|rr: int| 0 <= rr < outputs@.len() ==> (#[trigger] outputs@[rr]).wf()
                    && outputs@[rr].base() == Seq::<u8>::empty() && outputs@[rr].entries()
                    == shard_stream(done, sh, rr),
            ensures
                self.params == old(self).params,
                self.consumed == old(self).consumed,
                self.emitted == old(self).emitted,
                done == entries0,
                sh.len() == done.len(),
                forall|i: int| 0 <= i < sh.len() ==> 0 <= #[trigger] sh[i] < nred,
                outputs@.len() == nred,
                forall|rr: int| 0 <= rr < outputs@.len() ==> (#[trigger] outputs@[rr]).wf()
                    && outputs@[rr].base() == Seq::<u8>::empty() && outputs@[rr].entries()
                    == shard_stream(done, sh, rr),
            decreases self.sorted_output@.len(),
        {
            let entry = match self.sorted_output.pop_first() {
                None => {
                    proof {
                        assert(done =~= entries0);
                    }
                    break;
                },
                Some(entry) => entry,
            };
            proof {
                assert(done.push(entry@) + self.sorted_output@ =~= entries0);
                assert(entry@ == entries0[done.len() as int]);
            }
            let shard = self.sharder.shard(self.params.reducers, &entry.key);
            let ghost outs_pre = outputs@;
            proof {
                assert(outs_pre[shard as int].wf());
                assert(outs_pre[shard as int].base() == Seq::<u8>::empty());
                assert(outs_pre[shard as int].entries() == shard_stream(done, sh, shard as int));
            }
            let mut w = outputs.remove(shard);
            let ghost wbase = w.entries();
            let mut vi: usize = 0;
            proof {
                assert(entry_stream(entry@).take(0) =~= Seq::<Seq<u8>>::empty());
                assert(wbase + Seq::<Seq<u8>>::empty() =~= wbase);
            }
            while vi < entry.values.len()
                invariant
                    vi <= entry.values.len(),
                    w.wf(),
                    w.base() == Seq::<u8>::empty(),
                    w.entries() == wbase + entry_stream(entry@).take(2 * vi),
                    out_fits(entries0),
                    entry@ == entries0[done.len() as int],
                    0 <= done.len() < entries0.len(),
                decreases entry.values@.len() - vi,
            {
                proof {
                    assert(fits_entry(entry@.key, entry@.values[vi as int]));
                    assert(entry@.values[vi as int] == entry.values@[vi as int]@);
                }
                w.write(&entry.key);
                w.write(&entry.values[vi]);
                proof {
                    assert(entry_stream(entry@).take(2 * (vi + 1)) =~= entry_stream(
                        entry@,
                    ).take(2 * vi).push(entry@.key).push(entry@.values[vi as int]));
                    assert(wbase + entry_stream(entry@).take(2 * (vi + 1)) =~= (wbase
                        + entry_stream(entry@).take(2 * vi)).push(entry@.key).push(
                        entry@.values[vi as int],
                    ));
                }
                vi = vi + 1;
            }
            proof {
                assert(entry_stream(entry@).take(2 * entry.values@.len() as int)
                    =~= entry_stream(entry@));
            }
            outputs.insert(shard, w);
            proof {
                assert(outputs@ =~= outs_pre.update(shard as int, w));
                assert forall|rr: int| 0 <= rr < outputs@.len() implies (
                #[trigger] outputs@[rr]).wf() && outputs@[rr].base() == Seq::<u8>::empty()
                    && outputs@[rr].entries() == shard_stream(
                    done.push(entry@),
                    sh.push(shard as int),
                    rr,
                ) by {
                    lemma_shard_stream_push(done, sh, entry@, shard as int, rr);
                    if rr != shard {
                        assert(outputs@[rr] == outs_pre[rr]);
                        assert(shard_stream(done, sh, rr) + Seq::<Seq<u8>>::empty()
                            =~= shard_stream(done, sh, rr));
                    } else {
                        assert(outputs@[rr] == w);
                    }
                }
                done = done.push(entry@);
                sh = sh.push(shard as int);
            }
        }
        let mut files: Vec<Vec<u8>> = Vec::new();
        loop
            invariant
                files@.len() + outputs@.len() == nred,
                forall|rr: int| 0 <= rr < files@.len()
                    ==> wl_entries((#[trigger] files@[rr])@) == shard_stream(entries0, sh, rr),
                forall|j: int| 0 <= j < outputs@.len() ==> (#[trigger] outputs@[j]).wf()
                    && outputs@[j].base() == Seq::<u8>::empty() && outputs@[j].entries()
                    == shard_stream(entries0, sh, files@.len() + j),
                out_fits(entries0),
                self.params == old(self).params,
                self.consumed == old(self).consumed,
                self.emitted == old(self).emitted,
            ensures
                outputs@.len() == 0,
                files@.len() == nred,
                forall|rr: int| 0 <= rr < files@.len()
                    ==> wl_entries((#[trigger] files@[rr])@) == shard_stream(entries0, sh, rr),
                self.params == old(self).params,
                self.consumed == old(self).consumed,
                self.emitted == old(self).emitted,
            decreases outputs@.len(),
        {
            if outputs.len() == 0 {
                break;
            }
            let ghost outs0 = outputs@;
            let w = outputs.remove(0);
            let ghost widx = files@.len() as int;
            let b = w.into_bytes();
            proof {
                lemma_shard_stream_fits(entries0, sh, widx);
                lemma_writelog_round_trip(w.entries());
                assert(Seq::<u8>::empty() + encode_all(w.entries()) =~= encode_all(
                    w.entries(),
                ));
                assert forall|j: int| 0 <= j < outputs@.len() implies (
                #[trigger] outputs@[j]).wf() && outputs@[j].base() == Seq::<u8>::empty()
                    && outputs@[j].entries() == shard_stream(
                    entries0,
                    sh,
                    files@.len() + 1 + j,
                ) by {
                    assert(outputs@[j] == outs0[j + 1]);
                }
            }
            files.push(b);
        }
        MapOutput {
            files,
            chunk: Ghost(self.params.shard_id as int),
            entries: Ghost(entries0),
            shards: Ghost(sh),
            emitted: Ghost(self.emitted@),
            consumed: Ghost(self.consumed@),
        }
    }
}

/// The fold of fitting emissions has fitting entries.
proof fn lemma_out_insert_all_fits(emitted: Seq<RecordView>)
    requires
        recs_fit(emitted),
    ensures
        out_fits(out_insert_all(Seq::<KeyValuesView>::empty(), emitted)),
{
    lemma_out_insert_all_fits_from(Seq::<KeyValuesView>::empty(), emitted);
}

/// The fold of fitting emissions over fitting entries stays fitting.
proof fn lemma_out_insert_all_fits_from(s: Seq<KeyValuesView>, emitted: Seq<RecordView>)
    requires
        out_fits(s),
        recs_fit(emitted),
    ensures
        out_fits(out_insert_all(s, emitted)),
    decreases emitted.len(),
{
    if emitted.len() > 0 {
        lemma_out_insert_fits(s, emitted[0].key, emitted[0].value);
        assert forall|i: int|
            0 <= i < emitted.drop_first().len() implies fits_entry(
            (#[trigger] emitted.drop_first()[i]).key,
            emitted.drop_first()[i].value,
        ) by {
            assert(emitted.drop_first()[i] == emitted[i + 1]);
        }
        lemma_out_insert_all_fits_from(
            out_insert(s, emitted[0].key, emitted[0].value),
            emitted.drop_first(),
        );
    }
}


/// The records one sorted-output entry contributes to its intermediate
/// file: its key paired with each of its values, in order.
pub open spec fn entry_records(e: KeyValuesView) -> Seq<RecordView> {
    Seq::new(e.values.len(), |j: int| RecordView { key: e.key, value: e.values[j] })
}

/// The records of the intermediate file of shard `r`, in order.
pub open spec fn shard_records(entries: Seq<KeyValuesView>, sh: Seq<int>, r: int) -> Seq<
    RecordView>
    decreases entries.len(),
{
    if entries.len() == 0 {
        Seq::empty()
    } else {
        (if sh[0] == r {
            entry_records(entries[0])
        } else {
            Seq::empty()
        }) + shard_records(entries.drop_first(), sh.drop_first(), r)
    }
}

/// Pairing entries into records distributes over concatenation at an
/// entry boundary.
proof fn lemma_records_of_even(a: Seq<Seq<u8>>, b: Seq<Seq<u8>>)
    requires
        a.len() % 2 == 0,
    ensures
        records_of(a + b) == records_of(a) + records_of(b),
    decreases a.len(),
{
    if a.len() == 0 {
        assert(a + b =~= b);
        assert(records_of(a) =~= Seq::<RecordView>::empty());
        assert(records_of(a) + records_of(b) =~= records_of(b));
    } else {
        assert((a + b).skip(2) =~= a.skip(2) + b);
        lemma_records_of_even(a.skip(2), b);
        assert((a + b)[0] == a[0]);
        assert((a + b)[1] == a[1]);
        assert(records_of(a)[0] == RecordView { key: a[0], value: a[1] });
        assert(records_of(a + b) =~= records_of(a) + records_of(b));
    }
}

/// The stream of one entry parses back into that entry's records.
proof fn lemma_entry_stream_records(e: KeyValuesView)
    ensures
        entry_stream(e).len() == 2 * e.values.len(),
        records_of(entry_stream(e)) == entry_records(e),
    decreases e.values.len(),
{
    if e.values.len() == 0 {
        assert(records_of(entry_stream(e)) =~= entry_records(e));
    } else {
        let e2 = KeyValuesView { key: e.key, values: e.values.drop_first() };
        lemma_entry_stream_records(e2);
        assert(entry_stream(e).skip(2) =~= entry_stream(e2));
        assert(entry_stream(e)[0] == e.key);
        assert(entry_stream(e)[1] == e.values[0]);
        assert(records_of(entry_stream(e)) =~= entry_records(e));
    }
}

/// A shard's stream parses back into that shard's records.
pub proof fn lemma_shard_stream_records(entries: Seq<KeyValuesView>, sh: Seq<int>, r: int)
    ensures
        records_of(shard_stream(entries, sh, r)) == shard_records(entries, sh, r),
    decreases entries.len(),
{
    if entries.len() == 0 {
        assert(records_of(shard_stream(entries, sh, r)) =~= shard_records(entries, sh, r));
    } else {
        let head: Seq<Seq<u8>> = if sh[0] == r {
            entry_stream(entries[0])
        } else {
            Seq::empty()
        };
        lemma_entry_stream_records(entries[0]);
        lemma_records_of_even(head, shard_stream(entries.drop_first(), sh.drop_first(), r));
        lemma_shard_stream_records(entries.drop_first(), sh.drop_first(), r);
    }
}

/// Sortedness and provenance of a shard's records: their keys ascend,
/// and every one of them carries the key of an entry routed to `r`.
proof fn lemma_shard_records_keys(entries: Seq<KeyValuesView>, sh: Seq<int>, r: int)
    requires
        out_sorted(entries),
        sh.len() == entries.len(),
    ensures
        rec_keys_sorted(shard_records(entries, sh, r)),
        forall|p: int|
            0 <= p < shard_records(entries, sh, r).len() ==> exists|m: int|
                0 <= m < entries.len() && (#[trigger] shard_records(entries, sh, r)[p]).key
                    == entries[m].key && sh[m] == r,
    decreases entries.len(),
{
    let recs = shard_records(entries, sh, r);
    if entries.len() == 0 {
    } else {
        let head: Seq<RecordView> = if sh[0] == r {
            entry_records(entries[0])
        } else {
            Seq::empty()
        };
        let rest = entries.drop_first();
        let shrest = sh.drop_first();
        let tail = shard_records(rest, shrest, r);
        assert forall|i: int, j: int| 0 <= i < j < rest.len() implies dict_cmp(
            (#[trigger] rest[i]).key,
            (#[trigger] rest[j]).key,
        ) == Ordering::Less by {
            assert(rest[i] == entries[i + 1]);
            assert(rest[j] == entries[j + 1]);
        }
        lemma_shard_records_keys(rest, shrest, r);
        assert forall|p: int, q: int| 0 <= p < q < recs.len() implies dict_le(
            (#[trigger] recs[p]).key,
            (#[trigger] recs[q]).key,
        ) by {
            if q < head.len() {
                lemma_dict_cmp_flip(entries[0].key, entries[0].key);
            } else if p < head.len() {
                assert(recs[p].key == entries[0].key);
                assert(recs[q] == tail[q - head.len()]);
                let m = choose|m: int|
                    0 <= m < rest.len() && (#[trigger] tail[q - head.len()]).key
                        == rest[m].key && shrest[m] == r;
                assert(rest[m] == entries[m + 1]);
                assert(dict_cmp(entries[0].key, entries[m + 1].key) == Ordering::Less);
            } else {
                assert(recs[p] == tail[p - head.len()]);
                assert(recs[q] == tail[q - head.len()]);
            }
        }
        assert forall|p: int| 0 <= p < recs.len() implies exists|m: int|
            0 <= m < entries.len() && (#[trigger] recs[p]).key == entries[m].key && sh[m]
                == r by {
            if p < head.len() {
                assert(recs[p].key == entries[0].key && sh[0] == r);
            } else {
                assert(recs[p] == tail[p - head.len()]);
                let m = choose|m: int|
                    0 <= m < rest.len() && (#[trigger] tail[p - head.len()]).key
                        == rest[m].key && shrest[m] == r;
                assert(rest[m] == entries[m + 1]);
                assert(shrest[m] == sh[m + 1]);
                assert(recs[p].key == entries[m + 1].key && sh[m + 1] == r);
            }
        }
    }
}

/// Sort in intermediates: every intermediate file's records carry
/// non-decreasing keys under the case-insensitive dictionary order.
pub proof fn lemma_intermediate_sorted(entries: Seq<KeyValuesView>, sh: Seq<int>, r: int)
    requires
        out_sorted(entries),
        sh.len() == entries.len(),
    ensures
        rec_keys_sorted(records_of(shard_stream(entries, sh, r))),
{
    lemma_shard_stream_records(entries, sh, r);
    lemma_shard_records_keys(entries, sh, r);
}

/// Sharding correctness: a key appears in at most one of the
/// intermediate files a map chunk writes; records of two files whose
/// keys fold alike can only come from the same file.
pub proof fn lemma_sharding_unique(
    entries: Seq<KeyValuesView>,
    sh: Seq<int>,
    r1: int,
    r2: int,
    p1: int,
    p2: int,
)
    requires
        out_sorted(entries),
        sh.len() == entries.len(),
        0 <= p1 < records_of(shard_stream(entries, sh, r1)).len(),
        0 <= p2 < records_of(shard_stream(entries, sh, r2)).len(),
        dict_eq(
            records_of(shard_stream(entries, sh, r1))[p1].key,
            records_of(shard_stream(entries, sh, r2))[p2].key,
        ),
    ensures
        r1 == r2,
{
    lemma_shard_stream_records(entries, sh, r1);
    lemma_shard_stream_records(entries, sh, r2);
    lemma_shard_records_keys(entries, sh, r1);
    lemma_shard_records_keys(entries, sh, r2);
    let recs1 = shard_records(entries, sh, r1);
    let recs2 = shard_records(entries, sh, r2);
    let m1 = choose|m: int|
        0 <= m < entries.len() && (#[trigger] recs1[p1]).key == entries[m].key && sh[m] == r1;
    let m2 = choose|m: int|
        0 <= m < entries.len() && (#[trigger] recs2[p2]).key == entries[m].key && sh[m] == r2;
    if m1 < m2 {
        assert(dict_cmp(entries[m1].key, entries[m2].key) == Ordering::Less);
    } else if m2 < m1 {
        assert(dict_cmp(entries[m2].key, entries[m1].key) == Ordering::Less);
        lemma_dict_cmp_flip(entries[m2].key, entries[m1].key);
    }
    assert(m1 == m2);
}


/// The (folded key, value) pairs of a record sequence. The map side
/// groups keys case-insensitively, so the pairs it preserves are the
/// folded ones.
pub open spec fn pairs_lower(s: Seq<RecordView>) -> Seq<(Seq<u8>, Seq<u8>)> {
    s.map_values(|r: RecordView| (lower(r.key), r.value))
}

/// All records held by the sorted output, entry after entry.
pub open spec fn all_records(entries: Seq<KeyValuesView>) -> Seq<RecordView>
    decreases entries.len(),
{
    if entries.len() == 0 {
        Seq::empty()
    } else {
        entry_records(entries[0]) + all_records(entries.drop_first())
    }
}

/// The pairs across every intermediate file of one chunk, shard by
/// shard.
pub open spec fn shards_pairs(entries: Seq<KeyValuesView>, sh: Seq<int>, nr: int) -> Multiset<
    (Seq<u8>, Seq<u8>)>
    decreases nr,
{
    if nr <= 0 {
        Multiset::empty()
    } else {
        shards_pairs(entries, sh, nr - 1).add(
            pairs_lower(shard_records(entries, sh, nr - 1)).to_multiset(),
        )
    }
}

/// Folding keys distributes over concatenation.
proof fn lemma_pairs_lower_concat(a: Seq<RecordView>, b: Seq<RecordView>)
    ensures
        pairs_lower(a + b) == pairs_lower(a) + pairs_lower(b),
{
    assert(pairs_lower(a + b) =~= pairs_lower(a) + pairs_lower(b));
}

/// Files of a chunk with no entries are empty.
proof fn lemma_shards_pairs_empty(sh: Seq<int>, nr: int)
    ensures
        shards_pairs(Seq::<KeyValuesView>::empty(), sh, nr) == Multiset::<(Seq<u8>, Seq<u8>)>::empty(),
    decreases nr,
{
    if nr > 0 {
        lemma_shards_pairs_empty(sh, nr - 1);
        assert(shard_records(Seq::<KeyValuesView>::empty(), sh, nr - 1)
            == Seq::<RecordView>::empty());
        assert(pairs_lower(Seq::<RecordView>::empty()) =~= Seq::<(Seq<u8>, Seq<u8>)>::empty());
        assert(Seq::<(Seq<u8>, Seq<u8>)>::empty().to_multiset()
            =~= Multiset::<(Seq<u8>, Seq<u8>)>::empty());
        assert(shards_pairs(Seq::<KeyValuesView>::empty(), sh, nr)
            =~= Multiset::<(Seq<u8>, Seq<u8>)>::empty());
    }
}

/// Peeling the first entry off the chunk takes its pairs out of the one
/// file its shard routes it to.
proof fn lemma_shards_pairs_cons(entries: Seq<KeyValuesView>, sh: Seq<int>, nr: int)
    requires
        entries.len() > 0,
        sh.len() == entries.len(),
    ensures
        shards_pairs(entries, sh, nr) == shards_pairs(
            entries.drop_first(),
            sh.drop_first(),
            nr,
        ).add(
            if 0 <= sh[0] < nr {
                pairs_lower(entry_records(entries[0])).to_multiset()
            } else {
                Multiset::empty()
            },
        ),
    decreases nr,
{
    let rest = entries.drop_first();
    let shrest = sh.drop_first();
    let head_ms = pairs_lower(entry_records(entries[0])).to_multiset();
    if nr <= 0 {
        assert(shards_pairs(entries, sh, nr)
            =~= shards_pairs(rest, shrest, nr).add(Multiset::empty()));
    } else {
        lemma_shards_pairs_cons(entries, sh, nr - 1);
        let blk: Seq<RecordView> = if sh[0] == nr - 1 {
            entry_records(entries[0])
        } else {
            Seq::empty()
        };
        assert(shard_records(entries, sh, nr - 1) == blk + shard_records(rest, shrest, nr - 1));
        lemma_pairs_lower_concat(blk, shard_records(rest, shrest, nr - 1));
        vstd::seq_lib::lemma_multiset_commutative(
            pairs_lower(blk),
            pairs_lower(shard_records(rest, shrest, nr - 1)),
        );
        if sh[0] == nr - 1 {
            assert(shards_pairs(entries, sh, nr) =~= shards_pairs(rest, shrest, nr).add(
                head_ms,
            ));
        } else {
            assert(pairs_lower(blk) =~= Seq::<(Seq<u8>, Seq<u8>)>::empty());
            assert(Seq::<(Seq<u8>, Seq<u8>)>::empty().to_multiset()
                =~= Multiset::<(Seq<u8>, Seq<u8>)>::empty());
            if 0 <= sh[0] < nr {
                assert(0 <= sh[0] < nr - 1);
                assert(shards_pairs(entries, sh, nr) =~= shards_pairs(rest, shrest, nr).add(
                    head_ms,
                ));
            } else {
                assert(shards_pairs(entries, sh, nr) =~= shards_pairs(rest, shrest, nr).add(
                    Multiset::empty(),
                ));
            }
        }
    }
}

/// The files of one chunk partition the chunk's records: every pair lands
/// in exactly one file.
proof fn lemma_shards_pairs_partition(entries: Seq<KeyValuesView>, sh: Seq<int>, nr: int)
    requires
        sh.len() == entries.len(),
        forall|i: int| 0 <= i < sh.len() ==> 0 <= #[trigger] sh[i] < nr,
    ensures
        shards_pairs(entries, sh, nr) == pairs_lower(all_records(entries)).to_multiset(),
    decreases entries.len(),
{
    if entries.len() == 0 {
        assert(entries =~= Seq::<KeyValuesView>::empty());
        lemma_shards_pairs_empty(sh, nr);
        assert(all_records(entries) == Seq::<RecordView>::empty());
        assert(pairs_lower(Seq::<RecordView>::empty()) =~= Seq::<(Seq<u8>, Seq<u8>)>::empty());
        assert(Seq::<(Seq<u8>, Seq<u8>)>::empty().to_multiset()
            =~= Multiset::<(Seq<u8>, Seq<u8>)>::empty());
    } else {
        let rest = entries.drop_first();
        let shrest = sh.drop_first();
        lemma_shards_pairs_cons(entries, sh, nr);
        assert forall|i: int| 0 <= i < shrest.len() implies 0 <= #[trigger] shrest[i] < nr by {
            assert(shrest[i] == sh[i + 1]);
        }
        lemma_shards_pairs_partition(rest, shrest, nr);
        lemma_pairs_lower_concat(entry_records(entries[0]), all_records(rest));
        vstd::seq_lib::lemma_multiset_commutative(
            pairs_lower(entry_records(entries[0])),
            pairs_lower(all_records(rest)),
        );
        assert(shards_pairs(entries, sh, nr) =~= pairs_lower(all_records(entries)).to_multiset());
    }
}

/// Grouping one emission adds exactly its folded pair to the sorted
/// output's records.
proof fn lemma_out_insert_pairs(s: Seq<KeyValuesView>, k: Seq<u8>, v: Seq<u8>)
    ensures
        pairs_lower(all_records(out_insert(s, k, v))).to_multiset() == pairs_lower(
            all_records(s),
        ).to_multiset().insert((lower(k), v)),
    decreases s.len(),
{
    let p = (lower(k), v);
    let r = out_insert(s, k, v);
    if s.len() == 0 {
        assert(r[0] == KeyValuesView { key: k, values: seq![v] });
        assert(r.drop_first() =~= Seq::<KeyValuesView>::empty());
        assert(all_records(r) == entry_records(r[0]) + all_records(Seq::<KeyValuesView>::empty()));
        assert(pairs_lower(all_records(r)) =~= seq![p]);
        assert(all_records(s) == Seq::<RecordView>::empty());
        assert(pairs_lower(Seq::<RecordView>::empty()) =~= Seq::<(Seq<u8>, Seq<u8>)>::empty());
        assert(seq![p] =~= Seq::<(Seq<u8>, Seq<u8>)>::empty().push(p));
        assert(Seq::<(Seq<u8>, Seq<u8>)>::empty().to_multiset()
            =~= Multiset::<(Seq<u8>, Seq<u8>)>::empty());
    } else if dict_cmp(k, s[0].key) == Ordering::Less {
        assert(r[0] == KeyValuesView { key: k, values: seq![v] });
        assert(r.drop_first() =~= s);
        assert(all_records(r) == entry_records(r[0]) + all_records(s));
        assert(entry_records(r[0]) =~= seq![RecordView { key: k, value: v }]);
        lemma_pairs_lower_concat(entry_records(r[0]), all_records(s));
        vstd::seq_lib::lemma_multiset_commutative(
            pairs_lower(entry_records(r[0])),
            pairs_lower(all_records(s)),
        );
        assert(pairs_lower(entry_records(r[0])) =~= Seq::<(Seq<u8>, Seq<u8>)>::empty().push(p));
        assert(Seq::<(Seq<u8>, Seq<u8>)>::empty().to_multiset()
            =~= Multiset::<(Seq<u8>, Seq<u8>)>::empty());
        assert(pairs_lower(all_records(r)).to_multiset() =~= pairs_lower(
            all_records(s),
        ).to_multiset().insert(p));
    } else if dict_eq(k, s[0].key) {
        lemma_dict_eq_lower(k, s[0].key);
        let head = r[0];
        assert(head == KeyValuesView { key: k, values: s[0].values.push(v) });
        assert(r.drop_first() =~= s.drop_first());
        assert(all_records(r) == entry_records(head) + all_records(s.drop_first()));
        assert(all_records(s) == entry_records(s[0]) + all_records(s.drop_first()));
        assert(pairs_lower(entry_records(head)) =~= pairs_lower(entry_records(s[0])).push(p));
        lemma_pairs_lower_concat(entry_records(head), all_records(s.drop_first()));
        lemma_pairs_lower_concat(entry_records(s[0]), all_records(s.drop_first()));
        vstd::seq_lib::lemma_multiset_commutative(
            pairs_lower(entry_records(head)),
            pairs_lower(all_records(s.drop_first())),
        );
        vstd::seq_lib::lemma_multiset_commutative(
            pairs_lower(entry_records(s[0])),
            pairs_lower(all_records(s.drop_first())),
        );
        assert(pairs_lower(all_records(r)).to_multiset() =~= pairs_lower(
            all_records(s),
        ).to_multiset().insert(p));
    } else {
        lemma_out_insert_pairs(s.drop_first(), k, v);
        assert(r[0] == s[0]);
        assert(r.drop_first() =~= out_insert(s.drop_first(), k, v));
        assert(all_records(r) == entry_records(s[0]) + all_records(out_insert(
            s.drop_first(),
            k,
            v,
        )));
        assert(all_records(s) == entry_records(s[0]) + all_records(s.drop_first()));
        lemma_pairs_lower_concat(
            entry_records(s[0]),
            all_records(out_insert(s.drop_first(), k, v)),
        );
        lemma_pairs_lower_concat(entry_records(s[0]), all_records(s.drop_first()));
        vstd::seq_lib::lemma_multiset_commutative(
            pairs_lower(entry_records(s[0])),
            pairs_lower(all_records(out_insert(s.drop_first(), k, v))),
        );
        vstd::seq_lib::lemma_multiset_commutative(
            pairs_lower(entry_records(s[0])),
            pairs_lower(all_records(s.drop_first())),
        );
        assert(pairs_lower(all_records(r)).to_multiset() =~= pairs_lower(
            all_records(s),
        ).to_multiset().insert(p));
    }
}

/// The sorted output holds exactly the folded pairs of the emissions
/// grouped into it.
proof fn lemma_out_insert_all_pairs(emitted: Seq<RecordView>)
    ensures
        pairs_lower(all_records(out_insert_all(Seq::<KeyValuesView>::empty(), emitted)))
            .to_multiset() == pairs_lower(emitted).to_multiset(),
    decreases emitted.len(),
{
    if emitted.len() == 0 {
        assert(out_insert_all(Seq::<KeyValuesView>::empty(), emitted)
            == Seq::<KeyValuesView>::empty());
        assert(all_records(Seq::<KeyValuesView>::empty()) == Seq::<RecordView>::empty());
        assert(pairs_lower(Seq::<RecordView>::empty()) =~= pairs_lower(emitted));
    } else {
        let e0 = emitted.drop_last();
        let last = emitted.last();
        assert(e0.push(last) =~= emitted);
        lemma_out_insert_all_push(Seq::<KeyValuesView>::empty(), e0, last);
        lemma_out_insert_all_pairs(e0);
        lemma_out_insert_pairs(
            out_insert_all(Seq::<KeyValuesView>::empty(), e0),
            last.key,
            last.value,
        );
        let p = (lower(last.key), last.value);
        assert(pairs_lower(emitted) =~= pairs_lower(e0).push(p));
        assert(pairs_lower(e0).push(p).to_multiset() == pairs_lower(e0).to_multiset().insert(p));
    }
}

/// Completeness: the multiset of (folded key, value) pairs across all
/// intermediate files of one map chunk equals the multiset of folded
/// pairs the mapper emitted. The keys are compared folded because the
/// map side groups them case-insensitively.
pub proof fn lemma_map_completeness(
    entries: Seq<KeyValuesView>,
    sh: Seq<int>,
    emitted: Seq<RecordView>,
    nr: int,
)
    requires
        entries == out_insert_all(Seq::<KeyValuesView>::empty(), emitted),
        sh.len() == entries.len(),
        forall|i: int| 0 <= i < sh.len() ==> 0 <= #[trigger] sh[i] < nr,
    ensures
        shards_pairs(entries, sh, nr) == pairs_lower(emitted).to_multiset(),
{
    lemma_shards_pairs_partition(entries, sh, nr);
    lemma_out_insert_all_pairs(emitted);
}

} // verus!
