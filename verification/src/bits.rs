//! Bit-mask domains, backed by `bitvec`.
//!
//! Every cell domain and every adjacency row of the solver is a `Mask`: a
//! fixed-width bit vector stored as a `bitvec::vec::BitVec`.  The
//! mathematical model of a mask is `bits(v): Seq<bool>`; the small wrapper
//! functions below state, over that model, what each `bitvec` call does.
//! Everything else about masks (popcount, submask order, intersection) is
//! defined and proved here.

use vstd::prelude::*;
use bitvec::vec::BitVec;

verus! {

/// A fixed-width vector of bits.  Bit `j` of a cell's mask says whether
/// transformation `j` is still possible there; bit `j` of an adjacency row
/// says whether transformation `j` may sit on that side.
#[derive(Debug, PartialEq, Eq)]
#[verifier::external_body]
pub struct Mask {
    inner: BitVec,
}

/// What a mask holds, bit by bit.
pub uninterp spec fn bits(v: Mask) -> Seq<bool>;

/// How many bits of the mask are set.
pub open spec fn popcount(s: Seq<bool>) -> nat
    decreases s.len(),
{
    if s.len() == 0 {
        0
    } else {
        popcount(s.drop_last()) + if s.last() {
            1nat
        } else {
            0nat
        }
    }
}

/// `a` allows no transformation that `b` forbids.
pub open spec fn is_submask(a: Seq<bool>, b: Seq<bool>) -> bool {
    a.len() == b.len() && forall|i: int| 0 <= i < a.len() && #[trigger] a[i] ==> b[i]
}

/// Pointwise intersection of two masks of equal width.
pub open spec fn mask_and(a: Seq<bool>, b: Seq<bool>) -> Seq<bool> {
    Seq::new(a.len(), |i: int| a[i] && b[i])
}

/// Every bit of the mask is set.
pub open spec fn all_set(s: Seq<bool>) -> bool {
    forall|i: int| 0 <= i < s.len() ==> s[i]
}

pub proof fn lemma_popcount_submask(a: Seq<bool>, b: Seq<bool>)
    requires
        is_submask(a, b),
    ensures
        popcount(a) <= popcount(b),
    decreases a.len(),
{
    if a.len() > 0 {
        assert(is_submask(a.drop_last(), b.drop_last())) by {
            assert(forall|i: int|
                0 <= i < a.len() - 1 && #[trigger] a.drop_last()[i] ==> b.drop_last()[i]) by {
                assert(forall|i: int| 0 <= i < a.len() - 1 ==> a.drop_last()[i] == a[i]);
            }
        }
        lemma_popcount_submask(a.drop_last(), b.drop_last());
        assert(a.last() ==> b.last());
    }
}

pub proof fn lemma_popcount_strict(a: Seq<bool>, b: Seq<bool>, w: int)
    requires
        is_submask(a, b),
        0 <= w < b.len(),
        b[w],
        !a[w],
    ensures
        popcount(a) < popcount(b),
    decreases a.len(),
{
    assert(is_submask(a.drop_last(), b.drop_last())) by {
        assert(forall|i: int|
            0 <= i < a.len() - 1 && #[trigger] a.drop_last()[i] ==> b.drop_last()[i]) by {
            assert(forall|i: int| 0 <= i < a.len() - 1 ==> a.drop_last()[i] == a[i]);
        }
    }
    if w == a.len() - 1 {
        lemma_popcount_submask(a.drop_last(), b.drop_last());
    } else {
        lemma_popcount_strict(a.drop_last(), b.drop_last(), w);
        assert(a.last() ==> b.last());
    }
}

pub proof fn lemma_popcount_zero(s: Seq<bool>)
    requires
        popcount(s) == 0,
    ensures
        forall|i: int| 0 <= i < s.len() ==> !s[i],
    decreases s.len(),
{
    if s.len() > 0 {
        lemma_popcount_zero(s.drop_last());
        assert(forall|i: int| 0 <= i < s.len() - 1 ==> s[i] == s.drop_last()[i]);
    }
}

pub proof fn lemma_popcount_all(s: Seq<bool>)
    requires
        all_set(s),
    ensures
        popcount(s) == s.len(),
    decreases s.len(),
{
    if s.len() > 0 {
        assert(all_set(s.drop_last())) by {
            assert(forall|i: int| 0 <= i < s.len() - 1 ==> s.drop_last()[i] == s[i]);
        }
        lemma_popcount_all(s.drop_last());
    }
}

pub proof fn lemma_popcount_none(s: Seq<bool>)
    requires
        forall|i: int| 0 <= i < s.len() ==> !s[i],
    ensures
        popcount(s) == 0,
    decreases s.len(),
{
    if s.len() > 0 {
        assert(forall|i: int| 0 <= i < s.len() - 1 ==> s.drop_last()[i] == s[i]);
        lemma_popcount_none(s.drop_last());
    }
}

pub proof fn lemma_popcount_single(s: Seq<bool>, w: int)
    requires
        0 <= w < s.len(),
        s[w],
        forall|i: int| 0 <= i < s.len() && i != w ==> !s[i],
    ensures
        popcount(s) == 1,
    decreases s.len(),
{
    assert(forall|i: int| 0 <= i < s.len() - 1 ==> s.drop_last()[i] == s[i]);
    if w == s.len() - 1 {
        lemma_popcount_none(s.drop_last());
    } else {
        lemma_popcount_single(s.drop_last(), w);
    }
}

pub proof fn lemma_popcount_one(s: Seq<bool>, i: int, j: int)
    requires
        popcount(s) == 1,
        0 <= i < s.len(),
        0 <= j < s.len(),
        s[i],
        s[j],
    ensures
        i == j,
    decreases s.len(),
{
    assert(forall|k: int| 0 <= k < s.len() - 1 ==> s.drop_last()[k] == s[k]);
    if s.last() {
        lemma_popcount_zero(s.drop_last());
        assert(i == s.len() - 1);
        assert(j == s.len() - 1);
    } else {
        lemma_popcount_one(s.drop_last(), i, j);
    }
}

pub proof fn lemma_submask_trans(a: Seq<bool>, b: Seq<bool>, c: Seq<bool>)
    requires
        is_submask(a, b),
        is_submask(b, c),
    ensures
        is_submask(a, c),
{
}

/// Total number of set bits across a sequence of masks; the solver's
/// propagation terminates because this quantity never grows.
pub open spec fn total_count(s: Seq<Mask>) -> nat
    decreases s.len(),
{
    if s.len() == 0 {
        0
    } else {
        total_count(s.drop_last()) + popcount(bits(s.last()))
    }
}

pub proof fn lemma_total_le(a: Seq<Mask>, b: Seq<Mask>)
    requires
        a.len() == b.len(),
        forall|k: int| 0 <= k < a.len() ==> popcount(bits(#[trigger] a[k])) <= popcount(bits(b[k])),
    ensures
        total_count(a) <= total_count(b),
    decreases a.len(),
{
    if a.len() > 0 {
        assert(forall|k: int| 0 <= k < a.len() - 1 ==> a.drop_last()[k] == a[k]);
        assert(forall|k: int| 0 <= k < b.len() - 1 ==> b.drop_last()[k] == b[k]);
        lemma_total_le(a.drop_last(), b.drop_last());
    }
}

pub proof fn lemma_total_strict(a: Seq<Mask>, b: Seq<Mask>, w: int)
    requires
        a.len() == b.len(),
        forall|k: int| 0 <= k < a.len() ==> popcount(bits(#[trigger] a[k])) <= popcount(bits(b[k])),
        0 <= w < a.len(),
        popcount(bits(a[w])) < popcount(bits(b[w])),
    ensures
        total_count(a) < total_count(b),
    decreases a.len(),
{
    assert(forall|k: int| 0 <= k < a.len() - 1 ==> a.drop_last()[k] == a[k]);
    assert(forall|k: int| 0 <= k < b.len() - 1 ==> b.drop_last()[k] == b[k]);
    if w == a.len() - 1 {
        lemma_total_le(a.drop_last(), b.drop_last());
    } else {
        lemma_total_strict(a.drop_last(), b.drop_last(), w);
    }
}

// ---------------------------------------------------------------------------
// Trusted wrappers around the bitvec calls the solver makes.
// ---------------------------------------------------------------------------

/// Relies on `BitVec::repeat`: a vector of `len` copies of `bit`.
#[verifier::external_body]
pub(crate) fn bv_repeat(bit: bool, len: usize) -> (r: Mask)
    ensures
        bits(r) == Seq::new(len as nat, |i: int| bit),
{
    Mask { inner: BitVec::repeat(bit, len) }
}

/// Relies on `BitSlice::len`: the number of bits the vector holds.
#[verifier::external_body]
pub(crate) fn bv_len(v: &Mask) -> (r: usize)
    ensures
        r == bits(*v).len(),
{
    v.inner.len()
}

/// Relies on `BitSlice`'s `Index<usize>`: the bit at the given position.
#[verifier::external_body]
pub(crate) fn bv_get(v: &Mask, i: usize) -> (r: bool)
    requires
        i < bits(*v).len(),
    ensures
        r == bits(*v)[i as int],
{
    v.inner[i]
}

/// Relies on `BitSlice::set`: writes one bit, leaving the rest unchanged.
#[verifier::external_body]
pub(crate) fn bv_set(v: &mut Mask, i: usize, b: bool)
    requires
        i < bits(*old(v)).len(),
    ensures
        bits(*final(v)) == bits(*old(v)).update(i as int, b),
{
    v.inner.set(i, b);
}

/// Relies on `BitSlice::count_ones`: the number of set bits.
#[verifier::external_body]
pub(crate) fn bv_count_ones(v: &Mask) -> (r: usize)
    ensures
        r == popcount(bits(*v)),
{
    v.inner.count_ones()
}

/// Relies on `BitVec`'s `BitAndAssign`: pointwise intersection when both
/// sides have the same length.
#[verifier::external_body]
pub(crate) fn bv_and_assign(v: &mut Mask, other: &Mask)
    requires
        bits(*old(v)).len() == bits(*other).len(),
    ensures
        bits(*final(v)) == mask_and(bits(*old(v)), bits(*other)),
{
    v.inner &= &other.inner;
}

/// Relies on `BitVec`'s `BitOrAssign`: pointwise union when both sides have
/// the same length.
#[verifier::external_body]
pub(crate) fn bv_or_assign(v: &mut Mask, other: &Mask)
    requires
        bits(*old(v)).len() == bits(*other).len(),
    ensures
        bits(*final(v)).len() == bits(*old(v)).len(),
        forall|i: int|
            0 <= i < bits(*final(v)).len() ==> (#[trigger] bits(*final(v))[i]) == (bits(
                *old(v),
            )[i] || bits(*other)[i]),
{
    v.inner |= &other.inner;
}

/// Relies on `BitSlice::iter_ones`: the indices of the set bits, in
/// ascending order.
#[verifier::external_body]
pub(crate) fn bv_ones(v: &Mask) -> (r: Vec<usize>)
    ensures
        forall|k: int|
            0 <= k < r@.len() ==> (#[trigger] r@[k]) < bits(*v).len() && bits(*v)[r@[k] as int],
        forall|j: int| 0 <= j < bits(*v).len() && #[trigger] bits(*v)[j] ==> r@.contains(j as usize),
        forall|k1: int, k2: int| 0 <= k1 < k2 < r@.len() ==> r@[k1] < r@[k2],
{
    v.inner.iter_ones().collect()
}

/// Relies on `BitVec`'s `Clone`: an equal copy.
#[verifier::external_body]
pub(crate) fn bv_clone(v: &Mask) -> (r: Mask)
    ensures
        bits(r) == bits(*v),
{
    Mask { inner: v.inner.clone() }
}

/// Relies on `BitVec`'s `PartialEq`: equal lengths and equal bits.
#[verifier::external_body]
pub(crate) fn bv_eq(a: &Mask, b: &Mask) -> (r: bool)
    ensures
        r == (bits(*a) == bits(*b)),
{
    a.inner == b.inner
}

// ---------------------------------------------------------------------------
// Verified public surface of Mask.
// ---------------------------------------------------------------------------

impl Mask {
    /// A mask of `len` copies of `bit`.
    pub fn repeat(bit: bool, len: usize) -> (r: Mask)
        ensures
            bits(r).len() == len,
            forall|i: int| 0 <= i < len ==> bits(r)[i] == bit,
    {
        bv_repeat(bit, len)
    }

    /// The number of bits the mask holds.
    pub fn len(&self) -> (r: usize)
        ensures
            r == bits(*self).len(),
    {
        bv_len(self)
    }

    /// The bit at position `i`.
    pub fn get(&self, i: usize) -> (r: bool)
        requires
            i < bits(*self).len(),
        ensures
            r == bits(*self)[i as int],
    {
        bv_get(self, i)
    }

    /// Writes the bit at position `i`.
    pub fn set(&mut self, i: usize, b: bool)
        requires
            i < bits(*old(self)).len(),
        ensures
            bits(*final(self)) == bits(*old(self)).update(i as int, b),
    {
        bv_set(self, i, b);
    }

    /// The number of set bits.
    pub fn count_ones(&self) -> (r: usize)
        ensures
            r == popcount(bits(*self)),
    {
        bv_count_ones(self)
    }

    /// An equal copy of the mask.
    pub fn duplicate(&self) -> (r: Mask)
        ensures
            bits(r) == bits(*self),
    {
        bv_clone(self)
    }

    /// Whether two masks hold exactly the same bits.
    pub fn same_bits(&self, other: &Mask) -> (r: bool)
        ensures
            r == (bits(*self) == bits(*other)),
    {
        bv_eq(self, other)
    }

    /// The indices of the set bits, ascending.
    pub fn ones(&self) -> (r: Vec<usize>)
        ensures
            forall|k: int|
                0 <= k < r@.len() ==> (#[trigger] r@[k]) < bits(*self).len() && bits(
                    *self,
                )[r@[k] as int],
            forall|j: int|
                0 <= j < bits(*self).len() && #[trigger] bits(*self)[j] ==> r@.contains(j as usize),
            forall|k1: int, k2: int| 0 <= k1 < k2 < r@.len() ==> r@[k1] < r@[k2],
    {
        bv_ones(self)
    }
}

/// Whether every set bit of `a` is also set in `b`; the executable form of
/// `is_submask`.
pub fn mask_le(a: &Mask, b: &Mask) -> (r: bool)
    requires
        bits(*a).len() == bits(*b).len(),
    ensures
        r == is_submask(bits(*a), bits(*b)),
{
    let n = bv_len(a);
    let mut j: usize = 0;
    while j < n
        invariant
            n == bits(*a).len(),
            n == bits(*b).len(),
            j <= n,
            forall|i: int| 0 <= i < j && #[trigger] bits(*a)[i] ==> bits(*b)[i],
        decreases n - j,
    {
        if bv_get(a, j) && !bv_get(b, j) {
            return false;
        }
        j = j + 1;
    }
    true
}

} // verus!
