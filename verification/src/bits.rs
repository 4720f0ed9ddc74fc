//! Bit sets of the `bitvec` and `fixedbitset` crates, as the scopes use them.
//!
//! Each set is seen through the sequence of its bits; the functions below are
//! the only places that touch the outside types.
use bitvec::order::Lsb0;
use bitvec::vec::BitVec;
use fixedbitset::FixedBitSet;
use vstd::prelude::*;

verus! {

/// The most bits a `BitVec` can hold on every target (`BitSlice::MAX_BITS` on 32-bit targets).
pub const MAX_BITS: usize = 0x1FFF_FFFF;

/// A `bitvec` bit vector.  Verus cannot declare `BitVec` itself (its bounds
/// name traits of `bitvec`), so the vector is held in this opaque struct.
#[verifier::external_body]
pub struct BitList {
    inner: BitVec<usize, Lsb0>,
}

#[verifier::external_type_specification]
#[verifier::external_body]
pub struct ExFixedBitSet(FixedBitSet);

/// The bits held by a `BitVec`, in index order.
pub uninterp spec fn bitvec_bits(b: BitList) -> Seq<bool>;

/// The bits held by a `FixedBitSet`, in index order; its length is the set's `len()`.
pub uninterp spec fn fixed_bits(b: FixedBitSet) -> Seq<bool>;

/// No bit at or past `len()` is set in the blocks a `FixedBitSet` holds.
/// Its own constructors leave the tail clear; a set built from raw blocks
/// (`with_capacity_and_blocks`, `as_mut_slice`) may not.
pub uninterp spec fn fixed_clean(b: FixedBitSet) -> bool;

/// Bit `i` of `s`, reading missing bits as clear.
pub open spec fn bit_at(s: Seq<bool>, i: int) -> bool {
    0 <= i < s.len() && s[i]
}

/// The number of set bits.
pub open spec fn count_true(s: Seq<bool>) -> nat
    decreases s.len(),
{
    if s.len() == 0 {
        0
    } else {
        count_true(s.drop_last()) + if s.last() {
            1nat
        } else {
            0nat
        }
    }
}

/// `n` copies of `b`.
pub open spec fn repeat_bit(b: bool, n: nat) -> Seq<bool> {
    Seq::new(n, |_i: int| b)
}

pub proof fn lemma_count_true_bound(s: Seq<bool>)
    ensures
        count_true(s) <= s.len(),
    decreases s.len(),
{
    if s.len() > 0 {
        lemma_count_true_bound(s.drop_last());
    }
}

/// A `BitVec` of `len` copies of `bit` (`BitVec::repeat`).
#[verifier::external_body]
pub(crate) fn bv_repeat(bit: bool, len: usize) -> (r: BitList)
    requires
        len <= MAX_BITS,
    ensures
        bitvec_bits(r) == repeat_bit(bit, len as nat),
{
    BitList { inner: BitVec::repeat(bit, len) }
}

/// The number of bits (`BitVec::len`).
#[verifier::external_body]
pub(crate) fn bv_len(b: &BitList) -> (r: usize)
    ensures
        r == bitvec_bits(*b).len(),
{
    b.inner.len()
}

/// Bit `i` (`BitSlice::get`).
#[verifier::external_body]
pub(crate) fn bv_get(b: &BitList, i: usize) -> (r: bool)
    requires
        i < bitvec_bits(*b).len(),
    ensures
        r == bitvec_bits(*b)[i as int],
{
    *b.inner.get(i).unwrap()
}

/// Sets bit `i` to `v` (`BitSlice::set`, which panics out of bounds).
#[verifier::external_body]
pub(crate) fn bv_set(b: &mut BitList, i: usize, v: bool)
    requires
        i < bitvec_bits(*old(b)).len(),
    ensures
        bitvec_bits(*final(b)) == bitvec_bits(*old(b)).update(i as int, v),
{
    b.inner.set(i, v)
}

/// Appends one bit (`BitVec::push`).
#[verifier::external_body]
pub(crate) fn bv_push(b: &mut BitList, v: bool)
    requires
        bitvec_bits(*old(b)).len() < MAX_BITS,
    ensures
        bitvec_bits(*final(b)) == bitvec_bits(*old(b)).push(v),
{
    b.inner.push(v)
}

/// Appends the bits of `other` (`BitVec::extend_from_bitslice`).
#[verifier::external_body]
pub(crate) fn bv_extend(b: &mut BitList, other: &BitList)
    requires
        bitvec_bits(*old(b)).len() + bitvec_bits(*other).len() <= MAX_BITS,
    ensures
        bitvec_bits(*final(b)) == bitvec_bits(*old(b)) + bitvec_bits(*other),
{
    b.inner.extend_from_bitslice(other.inner.as_bitslice())
}

/// The number of set bits (`BitSlice::count_ones`).
#[verifier::external_body]
pub(crate) fn bv_count_ones(b: &BitList) -> (r: usize)
    ensures
        r == count_true(bitvec_bits(*b)),
{
    b.inner.count_ones()
}

/// Whether every bit is set (`BitSlice::all`; true when there are none).
#[verifier::external_body]
pub(crate) fn bv_all(b: &BitList) -> (r: bool)
    ensures
        r == (forall|i: int| 0 <= i < bitvec_bits(*b).len() ==> bitvec_bits(*b)[i]),
{
    b.inner.all()
}

/// Whether no bit is set (`BitSlice::not_any`).
#[verifier::external_body]
pub(crate) fn bv_not_any(b: &BitList) -> (r: bool)
    ensures
        r == (forall|i: int| 0 <= i < bitvec_bits(*b).len() ==> !bitvec_bits(*b)[i]),
{
    b.inner.not_any()
}

/// Clears every bit from index `start` on (`BitSlice::fill` on `b[start..]`).
#[verifier::external_body]
pub(crate) fn bv_clear_from(b: &mut BitList, start: usize)
    requires
        start <= bitvec_bits(*old(b)).len(),
    ensures
        bitvec_bits(*final(b)).len() == bitvec_bits(*old(b)).len(),
        forall|i: int|
            0 <= i < bitvec_bits(*old(b)).len() ==> #[trigger] bitvec_bits(*final(b))[i] == (i
                < start && bitvec_bits(*old(b))[i]),
{
    b.inner[start..].fill(false)
}

impl BitList {
    /// The bit list holding `bits`, in order.
    pub fn from_bools(bits: &Vec<bool>) -> (r: BitList)
        requires
            bits@.len() <= MAX_BITS,
        ensures
            bitvec_bits(r) == bits@,
    {
        let mut r = bv_repeat(false, 0);
        let mut i: usize = 0;
        proof {
            assert(repeat_bit(false, 0) =~= bits@.take(0));
        }
        while i < bits.len()
            invariant
                i <= bits@.len(),
                bits@.len() <= MAX_BITS,
                bitvec_bits(r) == bits@.take(i as int),
            decreases bits@.len() - i,
        {
            bv_push(&mut r, bits[i]);
            proof {
                assert(bits@.take(i as int + 1) =~= bits@.take(i as int).push(bits@[i as int]));
            }
            i = i + 1;
        }
        proof {
            assert(bits@.take(bits@.len() as int) =~= bits@);
        }
        r
    }
}

/// An empty bit set (`FixedBitSet::new`).
#[verifier::external_body]
pub(crate) fn fbs_new() -> (r: FixedBitSet)
    ensures
        fixed_bits(r) == Seq::<bool>::empty(),
        fixed_clean(r),
{
    FixedBitSet::new()
}

/// `n` clear bits (`FixedBitSet::with_capacity`).
#[verifier::external_body]
pub(crate) fn fbs_with_capacity(n: usize) -> (r: FixedBitSet)
    ensures
        fixed_bits(r) == repeat_bit(false, n as nat),
        fixed_clean(r),
{
    FixedBitSet::with_capacity(n)
}

/// The number of bits, set or not (`FixedBitSet::len`).
#[verifier::external_body]
pub(crate) fn fbs_len(b: &FixedBitSet) -> (r: usize)
    ensures
        r == fixed_bits(*b).len(),
{
    b.len()
}

/// Whether bit `i` is set; bits past the end read as clear (`FixedBitSet::contains`).
#[verifier::external_body]
pub(crate) fn fbs_contains(b: &FixedBitSet, i: usize) -> (r: bool)
    ensures
        r == bit_at(fixed_bits(*b), i as int),
{
    b.contains(i)
}

/// Grows to at least `n` bits (`FixedBitSet::grow`).  The new bits read as
/// clear when the tail was clean; set tail bits would show through, so
/// nothing is said of them otherwise.
#[verifier::external_body]
pub(crate) fn fbs_grow(b: &mut FixedBitSet, n: usize)
    ensures
        fixed_bits(*final(b)).len() == if n > fixed_bits(*old(b)).len() {
            n as int
        } else {
            fixed_bits(*old(b)).len() as int
        },
        fixed_clean(*old(b)) ==> fixed_clean(*final(b)) && fixed_bits(*final(b)) == if n > fixed_bits(
            *old(b),
        ).len() {
            fixed_bits(*old(b)) + repeat_bit(false, (n - fixed_bits(*old(b)).len()) as nat)
        } else {
            fixed_bits(*old(b))
        },
{
    b.grow(n)
}

/// Sets bit `i` (`FixedBitSet::insert`, which panics out of bounds).
#[verifier::external_body]
pub(crate) fn fbs_insert(b: &mut FixedBitSet, i: usize)
    requires
        i < fixed_bits(*old(b)).len(),
    ensures
        fixed_bits(*final(b)) == fixed_bits(*old(b)).update(i as int, true),
        fixed_clean(*final(b)) == fixed_clean(*old(b)),
{
    b.insert(i)
}

/// Grows to hold bit `i`, then sets it (`FixedBitSet::grow_and_insert`).
/// The other bits are known when the tail was clean (see `fbs_grow`).
#[verifier::external_body]
pub(crate) fn fbs_grow_and_insert(b: &mut FixedBitSet, i: usize)
    requires
        i < usize::MAX,
    ensures
        fixed_bits(*final(b)).len() == if i + 1 > fixed_bits(*old(b)).len() {
            i + 1
        } else {
            fixed_bits(*old(b)).len() as int
        },
        fixed_clean(*old(b)) ==> fixed_clean(*final(b)) && forall|k: int|
            0 <= k < fixed_bits(*final(b)).len() ==> #[trigger] fixed_bits(*final(b))[k] == (k == i
                || bit_at(fixed_bits(*old(b)), k)),
{
    b.grow_and_insert(i)
}

/// Clears the bits in `start..end` (`FixedBitSet::set_range` with `false`).
#[verifier::external_body]
pub(crate) fn fbs_clear_range(b: &mut FixedBitSet, start: usize, end: usize)
    requires
        start <= end <= fixed_bits(*old(b)).len(),
    ensures
        fixed_bits(*final(b)).len() == fixed_bits(*old(b)).len(),
        forall|k: int|
            0 <= k < fixed_bits(*old(b)).len() ==> #[trigger] fixed_bits(*final(b))[k] == (
            fixed_bits(*old(b))[k] && !(start <= k < end)),
        fixed_clean(*old(b)) ==> fixed_clean(*final(b)),
{
    b.set_range(start..end, false)
}

/// In-place union; the result is as long as the longer operand
/// (`FixedBitSet::union_with`, which ORs whole blocks).  Its bits are known
/// when both tails were clean.
#[verifier::external_body]
pub(crate) fn fbs_union_with(b: &mut FixedBitSet, other: &FixedBitSet)
    ensures
        fixed_bits(*final(b)).len() == if fixed_bits(*other).len() > fixed_bits(*old(b)).len() {
            fixed_bits(*other).len()
        } else {
            fixed_bits(*old(b)).len()
        },
        fixed_clean(*old(b)) && fixed_clean(*other) ==> fixed_clean(*final(b)) && forall|k: int|
            0 <= k < fixed_bits(*final(b)).len() ==> #[trigger] fixed_bits(*final(b))[k] == (
            bit_at(fixed_bits(*old(b)), k) || bit_at(fixed_bits(*other), k)),
{
    b.union_with(other)
}

/// The number of set bits (`FixedBitSet::count_ones(..)`).
#[verifier::external_body]
pub(crate) fn fbs_count_ones(b: &FixedBitSet) -> (r: usize)
    ensures
        r == count_true(fixed_bits(*b)),
{
    b.count_ones(..)
}

/// Whether no bit is set (`FixedBitSet::is_clear`, which reads whole
/// blocks, tail included).
#[verifier::external_body]
pub(crate) fn fbs_is_clear(b: &FixedBitSet) -> (r: bool)
    ensures
        r ==> (forall|i: int| 0 <= i < fixed_bits(*b).len() ==> !fixed_bits(*b)[i]),
        fixed_clean(*b) ==> r == (forall|i: int| 0 <= i < fixed_bits(*b).len() ==> !fixed_bits(*b)[i]),
{
    b.is_clear()
}

} // verus!
