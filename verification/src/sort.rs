//! Comparison functions over byte strings.
//!
//! The engine sorts keys in a case-insensitive dictionary order: every byte
//! is folded to its ASCII lower-case form before being compared. A second,
//! "sane", order refines the dictionary order by letting the upper-case form
//! of a letter sort after the lower-case form when the folded bytes tie.

use vstd::prelude::*;
use core::cmp::Ordering;

verus! {

/// ASCII lower-case folding of one byte.
pub open spec fn lower_byte(b: u8) -> u8 {
    if 65 <= b && b <= 90 {
        (b + 32) as u8
    } else {
        b
    }
}

/// ASCII lower-case folding of a byte string.
pub open spec fn lower(s: Seq<u8>) -> Seq<u8> {
    s.map_values(|b: u8| lower_byte(b))
}

/// The case-insensitive dictionary order: fold both sides to lower case,
/// then compare byte for byte; a shorter string sorts before its extensions.
pub open spec fn dict_cmp(a: Seq<u8>, b: Seq<u8>) -> Ordering
    decreases a.len(),
{
    if a.len() == 0 && b.len() == 0 {
        Ordering::Equal
    } else if b.len() == 0 {
        Ordering::Greater
    } else if a.len() == 0 {
        Ordering::Less
    } else if lower_byte(a[0]) < lower_byte(b[0]) {
        Ordering::Less
    } else if lower_byte(b[0]) < lower_byte(a[0]) {
        Ordering::Greater
    } else {
        dict_cmp(a.drop_first(), b.drop_first())
    }
}

/// Like `dict_cmp`, but when two distinct bytes fold to the same letter the
/// upper-case byte sorts greater than the lower-case one.
pub open spec fn sane_cmp(a: Seq<u8>, b: Seq<u8>) -> Ordering
    decreases a.len(),
{
    if a.len() == 0 && b.len() == 0 {
        Ordering::Equal
    } else if b.len() == 0 {
        Ordering::Greater
    } else if a.len() == 0 {
        Ordering::Less
    } else if lower_byte(a[0]) < lower_byte(b[0]) {
        Ordering::Less
    } else if lower_byte(b[0]) < lower_byte(a[0]) {
        Ordering::Greater
    } else if a[0] == b[0] {
        sane_cmp(a.drop_first(), b.drop_first())
    } else if a[0] < b[0] {
        Ordering::Greater
    } else {
        Ordering::Less
    }
}

/// `a` sorts no later than `b` in the dictionary order.
pub open spec fn dict_le(a: Seq<u8>, b: Seq<u8>) -> bool {
    dict_cmp(a, b) != Ordering::Greater
}

/// `a` and `b` fold to the same byte string.
pub open spec fn dict_eq(a: Seq<u8>, b: Seq<u8>) -> bool {
    dict_cmp(a, b) == Ordering::Equal
}

/// Exchanging the arguments of `dict_cmp` mirrors the result.
pub proof fn lemma_dict_cmp_flip(a: Seq<u8>, b: Seq<u8>)
    ensures
        dict_cmp(a, b) == Ordering::Equal <==> dict_cmp(b, a) == Ordering::Equal,
        dict_cmp(a, b) == Ordering::Less <==> dict_cmp(b, a) == Ordering::Greater,
    decreases a.len(),
{
    if a.len() != 0 && b.len() != 0 && lower_byte(a[0]) == lower_byte(b[0]) {
        lemma_dict_cmp_flip(a.drop_first(), b.drop_first());
    }
}

/// Equality under `dict_cmp` holds exactly when the folded strings agree.
pub proof fn lemma_dict_eq_lower(a: Seq<u8>, b: Seq<u8>)
    ensures
        dict_eq(a, b) <==> lower(a) == lower(b),
    decreases a.len(),
{
    if a.len() == 0 || b.len() == 0 {
        if dict_eq(a, b) {
            assert(lower(a) =~= lower(b));
        }
        if lower(a) == lower(b) {
            assert(lower(a).len() == a.len());
            assert(lower(b).len() == b.len());
        }
    } else {
        let at = a.drop_first();
        let bt = b.drop_first();
        lemma_dict_eq_lower(at, bt);
        if lower_byte(a[0]) == lower_byte(b[0]) {
            if dict_eq(a, b) {
                assert(dict_eq(at, bt));
                assert(lower(at).len() == lower(bt).len());
                assert(a.len() == b.len());
                assert forall|i: int| 0 <= i < lower(a).len() implies lower(a)[i] == lower(b)[i] by {
                    if i > 0 {
                        assert(lower(at)[i - 1] == lower(bt)[i - 1]);
                    }
                }
                assert(lower(a) =~= lower(b));
            }
            if lower(a) == lower(b) {
                assert(lower(a).len() == lower(b).len());
                assert(a.len() == b.len());
                assert forall|i: int| 0 <= i < lower(at).len() implies lower(at)[i] == lower(bt)[i] by {
                    assert(at[i] == a[i + 1]);
                    assert(bt[i] == b[i + 1]);
                    assert(lower(a)[i + 1] == lower(b)[i + 1]);
                }
                assert(lower(at) =~= lower(bt));
            }
        } else {
            assert(lower(a)[0] != lower(b)[0]);
        }
    }
}

/// The dictionary order is transitive.
pub proof fn lemma_dict_le_trans(a: Seq<u8>, b: Seq<u8>, c: Seq<u8>)
    requires
        dict_le(a, b),
        dict_le(b, c),
    ensures
        dict_le(a, c),
    decreases a.len() + b.len() + c.len(),
{
    if a.len() != 0 && c.len() != 0 {
        if b.len() == 0 {
            assert(dict_cmp(a, b) == Ordering::Greater);
        } else {
            if lower_byte(a[0]) == lower_byte(b[0]) && lower_byte(b[0]) == lower_byte(c[0]) {
                lemma_dict_le_trans(a.drop_first(), b.drop_first(), c.drop_first());
            }
        }
    }
}

/// Strictness carries through the order: a strictly smaller key stays
/// strictly smaller past any key between the two.
pub proof fn lemma_dict_lt_le_trans(a: Seq<u8>, b: Seq<u8>, c: Seq<u8>)
    requires
        dict_cmp(a, b) == Ordering::Less,
        dict_le(b, c),
    ensures
        dict_cmp(a, c) == Ordering::Less,
{
    lemma_dict_cmp_flip(a, b);
    lemma_dict_cmp_flip(a, c);
    if dict_le(c, a) {
        lemma_dict_le_trans(b, c, a);
    }
}


/// Strictness carries through the order on the other side as well.
pub proof fn lemma_dict_le_lt_trans(a: Seq<u8>, b: Seq<u8>, c: Seq<u8>)
    requires
        dict_le(a, b),
        dict_cmp(b, c) == Ordering::Less,
    ensures
        dict_cmp(a, c) == Ordering::Less,
{
    lemma_dict_cmp_flip(a, c);
    lemma_dict_cmp_flip(c, b);
    if dict_le(c, a) {
        lemma_dict_le_trans(c, a, b);
    }
}

/// Compares two values through their merge order, as a three-way
/// result: equal when each sits at or before the other.
pub fn default_generic_compare<T: crate::shard_merge::MergeOrder>(a: &T, b: &T) -> (o: Ordering)
    ensures
        o == Ordering::Equal <==> (a.le_spec(b) && b.le_spec(a)),
        o == Ordering::Less <==> (a.le_spec(b) && !b.le_spec(a)),
        o == Ordering::Greater <==> (!a.le_spec(b) && b.le_spec(a)),
{
    proof {
        T::lemma_total(a, b);
    }
    let ab = a.le(b);
    let ba = b.le(a);
    if ab && ba {
        Ordering::Equal
    } else if ab {
        Ordering::Less
    } else {
        Ordering::Greater
    }
}

/// ASCII lower-case folding of one byte, executable form.
pub fn byte_to_lower(b: u8) -> (r: u8)
    ensures
        r == lower_byte(b),
{
    if 65 <= b && b <= 90 {
        b + 32
    } else {
        b
    }
}


/// ASCII lower-case folding of a byte string, executable form.
pub fn bytes_to_lower(v: &Vec<u8>) -> (r: Vec<u8>)
    ensures
        r@ == lower(v@),
{
    let mut r: Vec<u8> = Vec::new();
    let mut i: usize = 0;
    while i < v.len()
        invariant
            i <= v@.len(),
            r@ == lower(v@).take(i as int),
        decreases v@.len() - i,
    {
        r.push(byte_to_lower(v[i]));
        proof {
            assert(lower(v@).take(i + 1) =~= lower(v@).take(i as int).push(lower(v@)[i as int]));
        }
        i = i + 1;
    }
    proof {
        assert(lower(v@).take(v@.len() as int) =~= lower(v@));
    }
    r
}

/// Unfolding one matching head byte leaves `dict_cmp` unchanged.
proof fn lemma_dict_cmp_step(a: Seq<u8>, b: Seq<u8>, i: int)
    requires
        0 <= i < a.len(),
        i < b.len(),
        lower_byte(a[i]) == lower_byte(b[i]),
    ensures
        dict_cmp(a.skip(i), b.skip(i)) == dict_cmp(a.skip(i + 1), b.skip(i + 1)),
{
    assert(a.skip(i).drop_first() =~= a.skip(i + 1));
    assert(b.skip(i).drop_first() =~= b.skip(i + 1));
}

/// Compares `a` with `b` in the case-insensitive dictionary order
/// (like coreutil sort).
pub fn dict_string_compare(a: &Vec<u8>, b: &Vec<u8>) -> (o: Ordering)
    ensures
        o == dict_cmp(a@, b@),
{
    let mut i: usize = 0;
    proof {
        assert(a@.skip(0) =~= a@);
        assert(b@.skip(0) =~= b@);
    }
    loop
        invariant
            i <= a@.len(),
            i <= b@.len(),
            dict_cmp(a@, b@) == dict_cmp(a@.skip(i as int), b@.skip(i as int)),
        decreases a@.len() - i,
    {
        if i == a.len() && i == b.len() {
            return Ordering::Equal;
        } else if i == b.len() {
            return Ordering::Greater;
        } else if i == a.len() {
            return Ordering::Less;
        }
        let ca = byte_to_lower(a[i]);
        let cb = byte_to_lower(b[i]);
        if ca < cb {
            return Ordering::Less;
        } else if cb < ca {
            return Ordering::Greater;
        }
        proof {
            lemma_dict_cmp_step(a@, b@, i as int);
        }
        i = i + 1;
    }
}

/// Unfolding one identical head byte leaves `sane_cmp` unchanged.
proof fn lemma_sane_cmp_step(a: Seq<u8>, b: Seq<u8>, i: int)
    requires
        0 <= i < a.len(),
        i < b.len(),
        a[i] == b[i],
    ensures
        sane_cmp(a.skip(i), b.skip(i)) == sane_cmp(a.skip(i + 1), b.skip(i + 1)),
{
    assert(a.skip(i).drop_first() =~= a.skip(i + 1));
    assert(b.skip(i).drop_first() =~= b.skip(i + 1));
}

/// Compares `a` with `b` in dictionary order, with the upper-case form of a
/// letter sorting after its lower-case form on a folded tie.
pub fn sane_string_compare(a: &Vec<u8>, b: &Vec<u8>) -> (o: Ordering)
    ensures
        o == sane_cmp(a@, b@),
{
    let mut i: usize = 0;
    proof {
        assert(a@.skip(0) =~= a@);
        assert(b@.skip(0) =~= b@);
    }
    loop
        invariant
            i <= a@.len(),
            i <= b@.len(),
            sane_cmp(a@, b@) == sane_cmp(a@.skip(i as int), b@.skip(i as int)),
        decreases a@.len() - i,
    {
        if i == a.len() && i == b.len() {
            return Ordering::Equal;
        } else if i == b.len() {
            return Ordering::Greater;
        } else if i == a.len() {
            return Ordering::Less;
        }
        let ca = byte_to_lower(a[i]);
        let cb = byte_to_lower(b[i]);
        if ca < cb {
            return Ordering::Less;
        } else if cb < ca {
            return Ordering::Greater;
        } else if a[i] < b[i] {
            return Ordering::Greater;
        } else if b[i] < a[i] {
            return Ordering::Less;
        }
        proof {
            lemma_sane_cmp_step(a@, b@, i as int);
        }
        i = i + 1;
    }
}

/// A wrapped byte string that carries the dictionary comparison as its
/// order.
#[derive(PartialEq, Eq)]
pub enum DictComparableString {
    DCS(Vec<u8>),
}

impl DictComparableString {
    /// The wrapped byte string.
    pub open spec fn view_bytes(&self) -> Seq<u8> {
        match self {
            DictComparableString::DCS(s) => s@,
        }
    }

    pub fn wrap(s: Vec<u8>) -> (r: DictComparableString)
        ensures
            r.view_bytes() == s@,
    {
        DictComparableString::DCS(s)
    }

    pub fn unwrap(self) -> (r: Vec<u8>)
        ensures
            r@ == self.view_bytes(),
    {
        let DictComparableString::DCS(s) = self;
        s
    }

    pub fn as_ref(&self) -> (r: &Vec<u8>)
        ensures
            r@ == self.view_bytes(),
    {
        let DictComparableString::DCS(s) = self;
        s
    }

    /// Compares two wrapped strings in the dictionary order.
    pub fn compare(&self, other: &DictComparableString) -> (o: Ordering)
        ensures
            o == dict_cmp(self.view_bytes(), other.view_bytes()),
    {
        dict_string_compare(self.as_ref(), other.as_ref())
    }
}


} // verus!
