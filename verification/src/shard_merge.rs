//! A merge tree combining an arbitrary number of sorted sources into one
//! sorted stream.
//!
//! The tree is built from two-way merge nodes; every node holds one peeked
//! element per side. The stream a node yields is pinned exactly by
//! [`merge_seqs`]: on a tie the left side wins, so over the whole tree an
//! element from an earlier source comes out before a tied element from a
//! later one, and over sorted sources the output is their stable merge.

use vstd::prelude::*;
use vstd::multiset::Multiset;
use core::cmp::Ordering;
use crate::record_types::Record;
use crate::sort::{dict_cmp, dict_le, dict_string_compare, lemma_dict_cmp_flip,
    lemma_dict_le_trans};

verus! {

broadcast use vstd::multiset::group_multiset_axioms, vstd::seq_lib::group_to_multiset_ensures;

/// The order a merge combines its sources under: a total preorder, given
/// by a boolean `at or before` relation.
pub trait MergeOrder: Sized {
    /// The relation itself.
    spec fn le_spec(&self, other: &Self) -> bool;

    /// Any two elements are comparable.
    proof fn lemma_total(a: &Self, b: &Self)
        ensures
            a.le_spec(b) || b.le_spec(a),
    ;

    /// The relation is transitive.
    proof fn lemma_trans(a: &Self, b: &Self, c: &Self)
        requires
            a.le_spec(b),
            b.le_spec(c),
        ensures
            a.le_spec(c),
    ;

    /// Decides the relation.
    fn le(&self, other: &Self) -> (r: bool)
        ensures
            r == self.le_spec(other),
    ;
}

impl MergeOrder for i64 {
    open spec fn le_spec(&self, other: &Self) -> bool {
        *self <= *other
    }

    proof fn lemma_total(a: &Self, b: &Self) {
    }

    proof fn lemma_trans(a: &Self, b: &Self, c: &Self) {
    }

    fn le(&self, other: &Self) -> (r: bool) {
        *self <= *other
    }
}

/// Records merge by their key, in the case-insensitive dictionary order.
impl MergeOrder for Record {
    open spec fn le_spec(&self, other: &Self) -> bool {
        dict_le(self@.key, other@.key)
    }

    proof fn lemma_total(a: &Self, b: &Self) {
        lemma_dict_cmp_flip(a@.key, b@.key);
    }

    proof fn lemma_trans(a: &Self, b: &Self, c: &Self) {
        lemma_dict_le_trans(a@.key, b@.key, c@.key);
    }

    fn le(&self, other: &Self) -> (r: bool) {
        let o = dict_string_compare(&self.key, &other.key);
        match o {
            Ordering::Greater => false,
            _ => true,
        }
    }
}

/// Dictionary-wrapped strings merge in the order they carry.
impl MergeOrder for crate::sort::DictComparableString {
    open spec fn le_spec(&self, other: &Self) -> bool {
        dict_le(self.view_bytes(), other.view_bytes())
    }

    proof fn lemma_total(a: &Self, b: &Self) {
        lemma_dict_cmp_flip(a.view_bytes(), b.view_bytes());
    }

    proof fn lemma_trans(a: &Self, b: &Self, c: &Self) {
        lemma_dict_le_trans(a.view_bytes(), b.view_bytes(), c.view_bytes());
    }

    fn le(&self, other: &Self) -> (r: bool) {
        let o = self.compare(other);
        match o {
            Ordering::Greater => false,
            _ => true,
        }
    }
}

/// `s` is sorted: every element sits at or before every later one.
pub open spec fn sorted_le<T: MergeOrder>(s: Seq<T>) -> bool {
    forall|i: int, j: int| 0 <= i < j < s.len() ==> #[trigger] s[i].le_spec(&s[j])
}

/// The stable two-way merge: take whichever head sits first, the left one
/// on a tie.
pub open spec fn merge_seqs<T: MergeOrder>(a: Seq<T>, b: Seq<T>) -> Seq<T>
    decreases a.len() + b.len(),
{
    if a.len() == 0 {
        b
    } else if b.len() == 0 {
        a
    } else if a[0].le_spec(&b[0]) {
        seq![a[0]] + merge_seqs(a.drop_first(), b)
    } else {
        seq![b[0]] + merge_seqs(a, b.drop_first())
    }
}

/// The stable K-way merge of the sources, in order: on ties an element of
/// an earlier source comes first.
pub open spec fn merge_all<T: MergeOrder>(ss: Seq<Seq<T>>) -> Seq<T>
    decreases ss.len(),
{
    if ss.len() == 0 {
        Seq::empty()
    } else {
        merge_seqs(ss[0], merge_all(ss.drop_first()))
    }
}

/// The contents of a list of sources.
pub open spec fn seqs_of<T>(sources: Seq<Vec<T>>) -> Seq<Seq<T>> {
    sources.map_values(|v: Vec<T>| v@)
}

/// Every source of a list is sorted.
pub open spec fn all_sorted<T: MergeOrder>(ss: Seq<Seq<T>>) -> bool {
    forall|i: int| 0 <= i < ss.len() ==> sorted_le(#[trigger] ss[i])
}

/// The union of a list of sources.
pub open spec fn sources_elems<T>(s: Seq<Vec<T>>) -> Multiset<T>
    decreases s.len(),
{
    if s.len() == 0 {
        Multiset::empty()
    } else {
        s[0]@.to_multiset().add(sources_elems(s.drop_first()))
    }
}

/// Merging keeps exactly the elements of both sides.
pub proof fn lemma_merge_seqs_multiset<T: MergeOrder>(a: Seq<T>, b: Seq<T>)
    ensures
        merge_seqs(a, b).to_multiset() == (a + b).to_multiset(),
    decreases a.len() + b.len(),
{
    if a.len() == 0 {
        assert(a + b =~= b);
    } else if b.len() == 0 {
        assert(a + b =~= a);
    } else if a[0].le_spec(&b[0]) {
        lemma_merge_seqs_multiset(a.drop_first(), b);
        vstd::seq_lib::lemma_multiset_commutative(seq![a[0]], merge_seqs(a.drop_first(), b));
        vstd::seq_lib::lemma_multiset_commutative(a.drop_first(), b);
        vstd::seq_lib::lemma_multiset_commutative(a, b);
        assert(seq![a[0]] + a.drop_first() =~= a);
        vstd::seq_lib::lemma_multiset_commutative(seq![a[0]], a.drop_first());
        assert(merge_seqs(a, b).to_multiset() =~= (a + b).to_multiset());
    } else {
        lemma_merge_seqs_multiset(a, b.drop_first());
        vstd::seq_lib::lemma_multiset_commutative(seq![b[0]], merge_seqs(a, b.drop_first()));
        vstd::seq_lib::lemma_multiset_commutative(a, b.drop_first());
        vstd::seq_lib::lemma_multiset_commutative(a, b);
        assert(seq![b[0]] + b.drop_first() =~= b);
        vstd::seq_lib::lemma_multiset_commutative(seq![b[0]], b.drop_first());
        assert(merge_seqs(a, b).to_multiset() =~= (a + b).to_multiset());
    }
}

/// The merge of two sorted sides is sorted, and its head is one of the
/// sides' heads.
pub proof fn lemma_merge_seqs_sorted<T: MergeOrder>(a: Seq<T>, b: Seq<T>)
    requires
        sorted_le(a),
        sorted_le(b),
    ensures
        sorted_le(merge_seqs(a, b)),
        merge_seqs(a, b).len() == a.len() + b.len(),
        merge_seqs(a, b).len() > 0 ==> (a.len() > 0 && merge_seqs(a, b)[0] == a[0]) || (b.len()
            > 0 && merge_seqs(a, b)[0] == b[0]),
    decreases a.len() + b.len(),
{
    let m = merge_seqs(a, b);
    if a.len() == 0 || b.len() == 0 {
    } else if a[0].le_spec(&b[0]) {
        assert(sorted_le(a.drop_first()));
        lemma_merge_seqs_sorted(a.drop_first(), b);
        let rest = merge_seqs(a.drop_first(), b);
        assert forall|i: int, j: int| 0 <= i < j < m.len() implies #[trigger] m[i].le_spec(
            &m[j],
        ) by {
            if i == 0 {
                assert(m[j] == rest[j - 1]);
                if rest[0] == b[0] {
                    if j == 1 {
                    } else {
                        T::lemma_trans(&a[0], &rest[0], &rest[j - 1]);
                    }
                } else {
                    assert(a.drop_first().len() > 0 && rest[0] == a.drop_first()[0]);
                    if j == 1 {
                        assert(a[0].le_spec(&a[1]));
                    } else {
                        assert(a[0].le_spec(&a[1]));
                        T::lemma_trans(&a[0], &rest[0], &rest[j - 1]);
                    }
                }
            } else {
                assert(m[i] == rest[i - 1] && m[j] == rest[j - 1]);
            }
        }
    } else {
        assert(sorted_le(b.drop_first()));
        lemma_merge_seqs_sorted(a, b.drop_first());
        let rest = merge_seqs(a, b.drop_first());
        T::lemma_total(&a[0], &b[0]);
        assert forall|i: int, j: int| 0 <= i < j < m.len() implies #[trigger] m[i].le_spec(
            &m[j],
        ) by {
            if i == 0 {
                assert(m[j] == rest[j - 1]);
                if rest.len() > 0 && a.len() > 0 && rest[0] == a[0] {
                    if j == 1 {
                    } else {
                        T::lemma_trans(&b[0], &rest[0], &rest[j - 1]);
                    }
                } else {
                    assert(b.drop_first().len() > 0 && rest[0] == b.drop_first()[0]);
                    assert(b[0].le_spec(&b[1]));
                    if j > 1 {
                        T::lemma_trans(&b[0], &rest[0], &rest[j - 1]);
                    }
                }
            } else {
                assert(m[i] == rest[i - 1] && m[j] == rest[j - 1]);
            }
        }
    }
}

/// The stable merge is associative: pairing sources to the left or to the
/// right yields the same stream.
pub proof fn lemma_merge_seqs_assoc<T: MergeOrder>(a: Seq<T>, b: Seq<T>, c: Seq<T>)
    ensures
        merge_seqs(merge_seqs(a, b), c) == merge_seqs(a, merge_seqs(b, c)),
    decreases a.len() + b.len() + c.len(),
{
    if a.len() == 0 {
        assert(merge_seqs(merge_seqs(a, b), c) =~= merge_seqs(a, merge_seqs(b, c)));
    } else if b.len() == 0 {
        assert(merge_seqs(a, b) == a);
        assert(merge_seqs(b, c) == c);
    } else if c.len() == 0 {
        assert(merge_seqs(merge_seqs(a, b), c) == merge_seqs(a, b));
        assert(merge_seqs(b, c) == b);
    } else {
        let ab = merge_seqs(a, b);
        let bc = merge_seqs(b, c);
        if a[0].le_spec(&b[0]) {
            assert(ab == seq![a[0]] + merge_seqs(a.drop_first(), b));
            assert(ab[0] == a[0]);
            assert(ab.drop_first() =~= merge_seqs(a.drop_first(), b));
            if a[0].le_spec(&c[0]) {
                lemma_merge_seqs_assoc(a.drop_first(), b, c);
                assert(merge_seqs(ab, c) == seq![a[0]] + merge_seqs(ab.drop_first(), c));
                if b[0].le_spec(&c[0]) {
                    assert(bc == seq![b[0]] + merge_seqs(b.drop_first(), c));
                    assert(bc[0] == b[0]);
                } else {
                    assert(bc == seq![c[0]] + merge_seqs(b, c.drop_first()));
                    assert(bc[0] == c[0]);
                }
                assert(a[0].le_spec(&bc[0]));
                assert(merge_seqs(a, bc) == seq![a[0]] + merge_seqs(a.drop_first(), bc));
            } else {
                // c's head sits strictly before a's, hence before b's too.
                T::lemma_total(&a[0], &c[0]);
                if b[0].le_spec(&c[0]) {
                    T::lemma_trans(&a[0], &b[0], &c[0]);
                }
                assert(!b[0].le_spec(&c[0]));
                assert(bc == seq![c[0]] + merge_seqs(b, c.drop_first()));
                assert(bc[0] == c[0]);
                assert(bc.drop_first() =~= merge_seqs(b, c.drop_first()));
                assert(!a[0].le_spec(&bc[0]));
                assert(merge_seqs(a, bc) == seq![c[0]] + merge_seqs(a, bc.drop_first()));
                assert(!ab[0].le_spec(&c[0]));
                assert(merge_seqs(ab, c) == seq![c[0]] + merge_seqs(ab, c.drop_first()));
                lemma_merge_seqs_assoc(a, b, c.drop_first());
            }
        } else {
            T::lemma_total(&a[0], &b[0]);
            assert(ab == seq![b[0]] + merge_seqs(a, b.drop_first()));
            assert(ab[0] == b[0]);
            assert(ab.drop_first() =~= merge_seqs(a, b.drop_first()));
            if b[0].le_spec(&c[0]) {
                assert(bc == seq![b[0]] + merge_seqs(b.drop_first(), c));
                assert(bc[0] == b[0]);
                assert(bc.drop_first() =~= merge_seqs(b.drop_first(), c));
                assert(merge_seqs(ab, c) == seq![b[0]] + merge_seqs(ab.drop_first(), c));
                assert(!a[0].le_spec(&bc[0]));
                assert(merge_seqs(a, bc) == seq![b[0]] + merge_seqs(a, bc.drop_first()));
                lemma_merge_seqs_assoc(a, b.drop_first(), c);
            } else {
                // c's head sits strictly before b's, hence before a's too.
                T::lemma_total(&b[0], &c[0]);
                if a[0].le_spec(&c[0]) {
                    T::lemma_trans(&a[0], &c[0], &b[0]);
                }
                assert(!a[0].le_spec(&c[0]));
                assert(bc == seq![c[0]] + merge_seqs(b, c.drop_first()));
                assert(bc[0] == c[0]);
                assert(bc.drop_first() =~= merge_seqs(b, c.drop_first()));
                assert(!a[0].le_spec(&bc[0]));
                assert(merge_seqs(a, bc) == seq![c[0]] + merge_seqs(a, bc.drop_first()));
                assert(!ab[0].le_spec(&c[0]));
                assert(merge_seqs(ab, c) == seq![c[0]] + merge_seqs(ab, c.drop_first()));
                lemma_merge_seqs_assoc(a, b, c.drop_first());
            }
        }
    }
}


/// Merging a single source, or a source with nothing, changes nothing.
proof fn lemma_merge_all_single<T: MergeOrder>(v: Seq<T>)
    ensures
        merge_all(seq![v]) == v,
        merge_seqs(v, Seq::<T>::empty()) == v,
{
    assert(seq![v].drop_first() =~= Seq::<Seq<T>>::empty());
    assert(merge_all(Seq::<Seq<T>>::empty()) == Seq::<T>::empty());
    assert(seq![v][0] == v);
}

/// The K-way merge of two source lists side by side is the two-way merge
/// of their K-way merges.
pub proof fn lemma_merge_all_concat<T: MergeOrder>(x: Seq<Seq<T>>, y: Seq<Seq<T>>)
    ensures
        merge_all(x + y) == merge_seqs(merge_all(x), merge_all(y)),
    decreases x.len(),
{
    if x.len() == 0 {
        assert(x + y =~= y);
        assert(merge_seqs(Seq::<T>::empty(), merge_all(y)) == merge_all(y));
    } else {
        assert((x + y).drop_first() =~= x.drop_first() + y);
        assert((x + y)[0] == x[0]);
        lemma_merge_all_concat(x.drop_first(), y);
        lemma_merge_seqs_assoc(x[0], merge_all(x.drop_first()), merge_all(y));
    }
}

/// The K-way merge holds exactly the union of the sources.
pub proof fn lemma_merge_all_multiset<T: MergeOrder>(sources: Seq<Vec<T>>)
    ensures
        merge_all(seqs_of(sources)).to_multiset() == sources_elems(sources),
    decreases sources.len(),
{
    if sources.len() == 0 {
        assert(seqs_of(sources) =~= Seq::<Seq<T>>::empty());
        assert(merge_all(Seq::<Seq<T>>::empty()).to_multiset()
            =~= Multiset::<T>::empty());
    } else {
        assert(seqs_of(sources).drop_first() =~= seqs_of(sources.drop_first()));
        lemma_merge_all_multiset(sources.drop_first());
        lemma_merge_seqs_multiset(sources[0]@, merge_all(seqs_of(sources.drop_first())));
        vstd::seq_lib::lemma_multiset_commutative(
            sources[0]@,
            merge_all(seqs_of(sources.drop_first())),
        );
        assert(merge_all(seqs_of(sources)).to_multiset() =~= sources_elems(sources));
    }
}

/// The K-way merge of sorted sources is sorted.
pub proof fn lemma_merge_all_sorted<T: MergeOrder>(ss: Seq<Seq<T>>)
    requires
        all_sorted(ss),
    ensures
        sorted_le(merge_all(ss)),
    decreases ss.len(),
{
    if ss.len() > 0 {
        assert forall|i: int| 0 <= i < ss.drop_first().len() implies sorted_le(
            #[trigger] ss.drop_first()[i],
        ) by {
            assert(ss.drop_first()[i] == ss[i + 1]);
        }
        lemma_merge_all_sorted(ss.drop_first());
        lemma_merge_seqs_sorted(ss[0], merge_all(ss.drop_first()));
    }
}

/// A sorted source feeding a merge leaf. The elements are stored in
/// reverse, so the next one is at the back.
pub struct VecSource<T> {
    items: Vec<T>,
}

/// One side of a merge node: nothing, a source, or a subtree.
pub enum MergeInput<T> {
    Nothing,
    Rows(VecSource<T>),
    Tree(Box<ShardMergeIterator<T>>),
}

/// A two-way merge node; see the module description.
pub struct ShardMergeIterator<T> {
    left: MergeInput<T>,
    right: MergeInput<T>,
    left_peeked: Option<T>,
    right_peeked: Option<T>,
}

/// The contents of a peek slot.
pub open spec fn opt_seq<T>(o: Option<T>) -> Seq<T> {
    match o {
        Some(x) => seq![x],
        None => Seq::empty(),
    }
}

impl<T: MergeOrder> MergeInput<T> {
    /// The stream this side still yields.
    pub closed spec fn seq_view(&self) -> Seq<T>
        decreases self, 0int,
    {
        match self {
            MergeInput::Nothing => Seq::empty(),
            MergeInput::Rows(v) => v.items@.reverse(),
            MergeInput::Tree(t) => t.seq_view(),
        }
    }

    pub closed spec fn wf(&self) -> bool
        decreases self, 0int,
    {
        match self {
            MergeInput::Nothing => true,
            MergeInput::Rows(v) => sorted_le(v.items@.reverse()),
            MergeInput::Tree(t) => t.wf(),
        }
    }

    /// Takes the head of this side's stream.
    fn next(&mut self) -> (r: Option<T>)
        requires
            old(self).wf(),
        ensures
            final(self).wf(),
            match r {
                None => final(self).seq_view() == old(self).seq_view()
                    && final(self).seq_view().len() == 0,
                Some(x) => old(self).seq_view() == seq![x] + final(self).seq_view(),
            },
        decreases *old(self),
    {
        match self {
            MergeInput::Nothing => None,
            MergeInput::Rows(v) => {
                let ghost items0 = v.items@;
                match v.items.pop() {
                    None => {
                        proof {
                            assert(items0.reverse() =~= Seq::<T>::empty());
                        }
                        None
                    },
                    Some(x) => {
                        proof {
                            assert(items0.reverse()[0] == x);
                            assert(items0.reverse().drop_first() =~= v.items@.reverse());
                            assert(items0.reverse() =~= seq![x] + v.items@.reverse());
                            assert forall|i: int, j: int|
                                0 <= i < j < v.items@.reverse().len() implies #[trigger] v
                                .items@.reverse()[i].le_spec(&v.items@.reverse()[j]) by {
                                assert(items0.reverse()[i + 1] == v.items@.reverse()[i]);
                                assert(items0.reverse()[j + 1] == v.items@.reverse()[j]);
                            }
                        }
                        Some(x)
                    },
                }
            },
            MergeInput::Tree(t) => t.next(),
        }
    }
}

impl<T: MergeOrder> ShardMergeIterator<T> {
    /// The left side's stream: the peeked element, then the child's.
    pub closed spec fn left_seq(&self) -> Seq<T>
        decreases self, 0int,
    {
        opt_seq(self.left_peeked) + self.left.seq_view()
    }

    /// The right side's stream.
    pub closed spec fn right_seq(&self) -> Seq<T>
        decreases self, 0int,
    {
        opt_seq(self.right_peeked) + self.right.seq_view()
    }

    /// The stream this node yields: the stable merge of its sides.
    pub closed spec fn seq_view(&self) -> Seq<T>
        decreases self, 1int,
    {
        merge_seqs(self.left_seq(), self.right_seq())
    }

    /// Everything this node still holds.
    pub open spec fn elems(&self) -> Multiset<T> {
        self.seq_view().to_multiset()
    }

    pub closed spec fn wf(&self) -> bool
        decreases self, 1int,
    {
        &&& self.left.wf()
        &&& self.right.wf()
        &&& sorted_le(self.left_seq())
        &&& sorted_le(self.right_seq())
    }

    /// An exhausted node: both sides empty, nothing peeked.
    fn default() -> (r: ShardMergeIterator<T>)
        ensures
            r.wf(),
            r.seq_view() == Seq::<T>::empty(),
    {
        let r = ShardMergeIterator {
            left: MergeInput::Nothing,
            right: MergeInput::Nothing,
            left_peeked: None,
            right_peeked: None,
        };
        proof {
            assert(r.left_seq() =~= Seq::<T>::empty());
            assert(r.right_seq() =~= Seq::<T>::empty());
        }
        r
    }

    /// Yields the head of this node's stream: the smaller of the two
    /// sides' heads, the left one on a tie.
    pub fn next(&mut self) -> (r: Option<T>)
        requires
            old(self).wf(),
        ensures
            final(self).wf(),
            match r {
                None => final(self).seq_view() == old(self).seq_view()
                    && final(self).seq_view().len() == 0,
                Some(x) => old(self).seq_view() == seq![x] + final(self).seq_view(),
            },
        decreases *old(self),
    {
        let ghost lseq0 = self.left_seq();
        let ghost rseq0 = self.right_seq();
        if self.left_peeked.is_none() {
            let got = self.left.next();
            proof {
                assert(opt_seq(self.left_peeked) =~= Seq::<T>::empty());
            }
            self.left_peeked = got;
            proof {
                assert(self.left_seq() =~= lseq0);
            }
        }
        if self.right_peeked.is_none() {
            let got = self.right.next();
            proof {
                assert(opt_seq(self.right_peeked) =~= Seq::<T>::empty());
            }
            self.right_peeked = got;
            proof {
                assert(self.right_seq() =~= rseq0);
            }
        }
        let l = self.left_peeked.take();
        let r = self.right_peeked.take();
        match (l, r) {
            (None, None) => {
                proof {
                    assert(lseq0 =~= Seq::<T>::empty());
                    assert(rseq0 =~= Seq::<T>::empty());
                    assert(self.left_seq() =~= lseq0);
                    assert(self.right_seq() =~= rseq0);
                }
                None
            },
            (Some(x), None) => {
                proof {
                    assert(rseq0 =~= Seq::<T>::empty());
                    assert(self.right_seq() =~= Seq::<T>::empty());
                    assert(merge_seqs(lseq0, rseq0) == lseq0);
                    assert(lseq0[0] == x);
                    assert(self.left_seq() =~= lseq0.drop_first());
                    assert(lseq0 =~= seq![x] + self.left_seq());
                    assert(merge_seqs(self.left_seq(), self.right_seq()) == self.left_seq());
                    assert(sorted_le(self.left_seq())) by {
                        lemma_sorted_drop_first(lseq0);
                    }
                }
                Some(x)
            },
            (None, Some(y)) => {
                proof {
                    assert(lseq0 =~= Seq::<T>::empty());
                    assert(self.left_seq() =~= Seq::<T>::empty());
                    assert(merge_seqs(lseq0, rseq0) == rseq0);
                    assert(rseq0[0] == y);
                    assert(self.right_seq() =~= rseq0.drop_first());
                    assert(rseq0 =~= seq![y] + self.right_seq());
                    assert(merge_seqs(self.left_seq(), self.right_seq()) == self.right_seq());
                    assert(sorted_le(self.right_seq())) by {
                        lemma_sorted_drop_first(rseq0);
                    }
                }
                Some(y)
            },
            (Some(x), Some(y)) => {
                if x.le(&y) {
                    self.right_peeked = Some(y);
                    proof {
                        assert(lseq0[0] == x);
                        assert(rseq0[0] == y);
                        assert(self.right_seq() =~= rseq0);
                        assert(self.left_seq() =~= lseq0.drop_first());
                        assert(merge_seqs(lseq0, rseq0) == seq![x] + merge_seqs(
                            lseq0.drop_first(),
                            rseq0,
                        ));
                        assert(sorted_le(self.left_seq())) by {
                            lemma_sorted_drop_first(lseq0);
                        }
                    }
                    Some(x)
                } else {
                    self.left_peeked = Some(x);
                    proof {
                        assert(lseq0[0] == x);
                        assert(rseq0[0] == y);
                        assert(self.left_seq() =~= lseq0);
                        assert(self.right_seq() =~= rseq0.drop_first());
                        assert(merge_seqs(lseq0, rseq0) == seq![y] + merge_seqs(
                            lseq0,
                            rseq0.drop_first(),
                        ));
                        assert(sorted_le(self.right_seq())) by {
                            lemma_sorted_drop_first(rseq0);
                        }
                    }
                    Some(y)
                }
            },
        }
    }

    /// Drains the merge into a vector: exactly this node's stream. Over
    /// sorted sources that is the sources' stable merge, sorted, with
    /// their union as contents.
    pub fn into_sorted_vec(self) -> (r: Vec<T>)
        requires
            self.wf(),
        ensures
            r@ == self.seq_view(),
            sorted_le(r@),
            r@.to_multiset() == self.elems(),
    {
        let mut it = self;
        let mut out: Vec<T> = Vec::new();
        proof {
            assert(out@ + it.seq_view() =~= it.seq_view());
        }
        loop
            invariant
                it.wf(),
                out@ + it.seq_view() == self.seq_view(),
            ensures
                it.seq_view().len() == 0,
                out@ == self.seq_view(),
            decreases it.seq_view().len(),
        {
            let x = match it.next() {
                None => {
                    proof {
                        assert(out@ + it.seq_view() =~= out@);
                    }
                    break;
                },
                Some(x) => x,
            };
            proof {
                assert(out@.push(x) + it.seq_view() =~= out@ + (seq![x] + it.seq_view()));
            }
            out.push(x);
        }
        proof {
            lemma_merge_seqs_sorted(self.left_seq(), self.right_seq());
        }
        out
    }

    /// Builds a merge tree over the given sources: the resulting iterator
    /// yields exactly their stable K-way merge, holding their union; over
    /// sorted sources it is well-formed and its stream is sorted.
    ///
    /// The comparator is the element type's [`MergeOrder`]. To merge the
    /// same payload under another order, wrap the elements in a type
    /// whose impl carries that order, as [`crate::sort::DictComparableString`]
    /// does for byte strings.
    pub fn build(sources: Vec<Vec<T>>) -> (r: ShardMergeIterator<T>)
        ensures
            r.seq_view() == merge_all(seqs_of(sources@)),
            r.elems() == sources_elems(sources@),
            all_sorted(seqs_of(sources@)) ==> r.wf(),
    {
        let ghost all = seqs_of(sources@);
        let mut sources = sources;
        let mut merged: Vec<ShardMergeIterator<T>> = Vec::new();
        proof {
            assert(node_views(merged@) + seqs_of(sources@) =~= all);
            lemma_merge_all_multiset(sources@);
        }
        while sources.len() > 0
            invariant
                merge_all(node_views(merged@) + seqs_of(sources@)) == merge_all(all),
                all_sorted(all) ==> (forall|k: int|
                    0 <= k < merged@.len() ==> (#[trigger] merged@[k]).wf()),
                all_sorted(all) ==> all_sorted(seqs_of(sources@)),
            decreases sources@.len(),
        {
            let ghost srcs0 = sources@;
            let ghost nv0 = node_views(merged@);
            let s1 = sources.remove(0);
            let node = if sources.len() > 0 {
                let ghost srcs1 = sources@;
                let s2 = sources.remove(0);
                proof {
                    assert(seqs_of(srcs1) =~= seqs_of(srcs0).drop_first());
                    assert(seqs_of(sources@) =~= seqs_of(srcs0).drop_first().drop_first());
                }
                let leaf1 = into_source(s1);
                let leaf2 = into_source(s2);
                let node = ShardMergeIterator {
                    left: MergeInput::Rows(leaf1),
                    right: MergeInput::Rows(leaf2),
                    left_peeked: None,
                    right_peeked: None,
                };
                proof {
                    assert(node.left_seq() =~= s1@);
                    assert(node.right_seq() =~= s2@);
                }
                node
            } else {
                proof {
                    assert(seqs_of(sources@) =~= seqs_of(srcs0).drop_first());
                }
                let leaf1 = into_source(s1);
                let node = ShardMergeIterator {
                    left: MergeInput::Rows(leaf1),
                    right: MergeInput::Nothing,
                    left_peeked: None,
                    right_peeked: None,
                };
                proof {
                    assert(node.left_seq() =~= s1@);
                    assert(node.right_seq() =~= Seq::<T>::empty());
                    assert(node.seq_view() == s1@);
                }
                node
            };
            proof {
                lemma_node_views_push(merged@, node);
            }
            merged.push(node);
            proof {
                let nv1 = node_views(merged@);
                let rest = seqs_of(sources@);
                // Both groupings of the consumed sources merge alike.
                lemma_merge_all_concat(nv0, seq![node.seq_view()] + rest);
                lemma_merge_all_concat(nv0, seqs_of(srcs0));
                assert(nv1 + rest =~= nv0 + (seq![node.seq_view()] + rest));
                if srcs0.len() > 1 {
                    let s1v = seqs_of(srcs0)[0];
                    let s2v = seqs_of(srcs0)[1];
                    let tail = seqs_of(srcs0).drop_first().drop_first();
                    assert(node.seq_view() == merge_seqs(s1v, s2v));
                    assert(seqs_of(srcs0) =~= seq![s1v] + (seq![s2v] + tail));
                    lemma_merge_all_concat(seq![s1v], seq![s2v] + tail);
                    lemma_merge_all_concat(seq![s2v], tail);
                    lemma_merge_all_concat(seq![node.seq_view()], rest);
                    lemma_merge_all_single(s1v);
                    lemma_merge_all_single(s2v);
                    lemma_merge_all_single(node.seq_view());
                    lemma_merge_seqs_assoc(s1v, s2v, merge_all(tail));
                    assert(merge_all(seq![node.seq_view()] + rest) == merge_all(
                        seqs_of(srcs0),
                    ));
                } else {
                    let s1v = seqs_of(srcs0)[0];
                    assert(rest =~= Seq::<Seq<T>>::empty());
                    assert(seqs_of(srcs0) =~= seq![s1v]);
                    assert(seq![node.seq_view()] + rest =~= seq![node.seq_view()]);
                    lemma_merge_all_single(node.seq_view());
                    lemma_merge_all_single(s1v);
                }
                if all_sorted(all) {
                    assert forall|k: int| 0 <= k < merged@.len() implies (
                    #[trigger] merged@[k]).wf() by {
                        if k == merged@.len() - 1 {
                            assert(sorted_le(seqs_of(srcs0)[0]));
                            if srcs0.len() > 1 {
                                assert(sorted_le(seqs_of(srcs0)[1]));
                            }
                        }
                    }
                    assert forall|i: int| 0 <= i < seqs_of(sources@).len() implies sorted_le(
                        #[trigger] seqs_of(sources@)[i],
                    ) by {
                        if srcs0.len() > 1 {
                            assert(seqs_of(sources@)[i] == seqs_of(srcs0)[i + 2]);
                        } else {
                            assert(seqs_of(sources@)[i] == seqs_of(srcs0)[i + 1]);
                        }
                    }
                }
            }
        }
        proof {
            assert(seqs_of(sources@) =~= Seq::<Seq<T>>::empty());
            assert(node_views(merged@) + seqs_of(sources@) =~= node_views(merged@));
        }
        ShardMergeIterator::merge(merged)
    }

    /// Merges a list of nodes into one balanced tree yielding the stable
    /// merge of their streams.
    fn merge(its: Vec<ShardMergeIterator<T>>) -> (r: ShardMergeIterator<T>)
        ensures
            r.seq_view() == merge_all(node_views(its@)),
            (forall|k: int| 0 <= k < its@.len() ==> (#[trigger] its@[k]).wf()) ==> r.wf(),
        decreases its@.len(),
    {
        let mut its = its;
        if its.len() == 0 {
            let r = ShardMergeIterator::default();
            proof {
                assert(node_views(its@) =~= Seq::<Seq<T>>::empty());
            }
            r
        } else if its.len() == 1 {
            let ghost its0 = its@;
            let it1 = match its.pop() {
                Some(it) => it,
                None => vstd::pervasive::unreached(),
            };
            let r = ShardMergeIterator {
                left: MergeInput::Tree(Box::new(it1)),
                right: MergeInput::Nothing,
                left_peeked: None,
                right_peeked: None,
            };
            proof {
                assert(node_views(its0) =~= seq![it1.seq_view()]);
                assert(r.left_seq() =~= it1.seq_view());
                assert(r.right_seq() =~= Seq::<T>::empty());
                assert(r.seq_view() == it1.seq_view());
                lemma_merge_all_single(it1.seq_view());
                if it1.wf() {
                    lemma_merge_seqs_sorted(it1.left_seq(), it1.right_seq());
                }
            }
            r
        } else if its.len() == 2 {
            let ghost its0 = its@;
            let it2 = match its.pop() {
                Some(it) => it,
                None => vstd::pervasive::unreached(),
            };
            let it1 = match its.pop() {
                Some(it) => it,
                None => vstd::pervasive::unreached(),
            };
            let r = ShardMergeIterator {
                left: MergeInput::Tree(Box::new(it1)),
                right: MergeInput::Tree(Box::new(it2)),
                left_peeked: None,
                right_peeked: None,
            };
            proof {
                assert(its0[0] == it1 && its0[1] == it2);
                assert(node_views(its0) =~= seq![it1.seq_view(), it2.seq_view()]);
                assert(r.left_seq() =~= it1.seq_view());
                assert(r.right_seq() =~= it2.seq_view());
                assert(node_views(its0).drop_first() =~= seq![it2.seq_view()]);
                assert(node_views(its0).drop_first() =~= seq![it2.seq_view()]);
                lemma_merge_all_single(it2.seq_view());
                if it1.wf() && it2.wf() {
                    lemma_merge_seqs_sorted(it1.left_seq(), it1.right_seq());
                    lemma_merge_seqs_sorted(it2.left_seq(), it2.right_seq());
                }
            }
            r
        } else {
            let split_at = its.len() / 2;
            let ghost its0 = its@;
            let right_part = its.split_off(split_at);
            proof {
                assert(its@ + right_part@ =~= its0);
                assert(node_views(its@) + node_views(right_part@) =~= node_views(its0));
                lemma_merge_all_concat(node_views(its@), node_views(right_part@));
            }
            let ghost left_nodes = its@;
            let ghost right_nodes = right_part@;
            let left_tree = ShardMergeIterator::merge(its);
            let right_tree = ShardMergeIterator::merge(right_part);
            let r = ShardMergeIterator {
                left: MergeInput::Tree(Box::new(left_tree)),
                right: MergeInput::Tree(Box::new(right_tree)),
                left_peeked: None,
                right_peeked: None,
            };
            proof {
                assert(r.left_seq() =~= left_tree.seq_view());
                assert(r.right_seq() =~= right_tree.seq_view());
                if forall|k: int| 0 <= k < its0.len() ==> (#[trigger] its0[k]).wf() {
                    assert forall|k: int| 0 <= k < left_nodes.len() implies (
                    #[trigger] left_nodes[k]).wf() by {
                        assert(left_nodes[k] == its0[k]);
                    }
                    assert forall|k: int| 0 <= k < right_nodes.len() implies (
                    #[trigger] right_nodes[k]).wf() by {
                        assert(right_nodes[k] == its0[split_at + k]);
                    }
                    lemma_merge_seqs_sorted(left_tree.left_seq(), left_tree.right_seq());
                    lemma_merge_seqs_sorted(right_tree.left_seq(), right_tree.right_seq());
                }
            }
            r
        }
    }
}

/// The streams of a list of merge nodes.
pub open spec fn node_views<T: MergeOrder>(s: Seq<ShardMergeIterator<T>>) -> Seq<Seq<T>> {
    s.map_values(|n: ShardMergeIterator<T>| n.seq_view())
}

/// Appending a node appends its stream.
proof fn lemma_node_views_push<T: MergeOrder>(s: Seq<ShardMergeIterator<T>>, n:
    ShardMergeIterator<T>)
    ensures
        node_views(s.push(n)) == node_views(s).push(n.seq_view()),
{
    assert(node_views(s.push(n)) =~= node_views(s).push(n.seq_view()));
}

/// A sorted suffix of a sorted stream stays sorted.
proof fn lemma_sorted_drop_first<T: MergeOrder>(s: Seq<T>)
    requires
        sorted_le(s),
        s.len() > 0,
    ensures
        sorted_le(s.drop_first()),
{
    assert forall|i: int, j: int| 0 <= i < j < s.drop_first().len() implies #[trigger] s
        .drop_first()[i].le_spec(&s.drop_first()[j]) by {
        assert(s[i + 1].le_spec(&s[j + 1]));
    }
}

/// Reverses a vector into a merge source whose stream is the vector's
/// contents in order.
fn into_source<T: MergeOrder>(src: Vec<T>) -> (r: VecSource<T>)
    ensures
        r.items@.reverse() == src@,
{
    let ghost orig = src@;
    let mut src = src;
    let mut rev: Vec<T> = Vec::new();
    proof {
        assert(rev@.reverse() =~= orig.skip(src@.len() as int));
        assert(src@ == orig.take(src@.len() as int)) by {
            assert(orig.take(orig.len() as int) =~= orig);
        }
    }
    while src.len() > 0
        invariant
            src@.len() <= orig.len(),
            src@ == orig.take(src@.len() as int),
            rev@.reverse() == orig.skip(src@.len() as int),
        decreases src@.len(),
    {
        let ghost src0 = src@;
        let x = match src.pop() {
            Some(x) => x,
            None => vstd::pervasive::unreached(),
        };
        proof {
            assert(src0[src0.len() - 1] == orig[src0.len() - 1]);
            assert(x == orig[src@.len() as int]);
            assert(src@ =~= orig.take(src@.len() as int));
            assert(rev@.push(x).reverse() =~= seq![x] + rev@.reverse());
            assert(seq![x] + orig.skip(src0.len() as int) =~= orig.skip(src@.len() as int));
        }
        rev.push(x);
    }
    proof {
        assert(orig.skip(0) =~= orig);
    }
    VecSource { items: rev }
}

} // verus!
