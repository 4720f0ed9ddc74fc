//! Lexical scopes: the binders a process introduces, which of them are used or
//! free, and which outer binders the scope captures.
use crate::ast::SourceSpan;
use crate::bits::{
    bit_at, bitvec_bits, bv_extend, bv_get, bv_len, bv_not_any, bv_all, bv_count_ones, bv_repeat, bv_set, count_true,
    fbs_clear_range, fbs_contains, fbs_count_ones, fbs_grow, fbs_insert, fbs_is_clear, fbs_len, fbs_new,
    fbs_union_with, fbs_with_capacity, fixed_bits, fixed_clean, repeat_bit, BitList, MAX_BITS,
};
use crate::types::BinderId;
use fixedbitset::FixedBitSet;
use vstd::prelude::*;

verus! {

/// The ids `start + i` for every index `i` whose bit equals `want`, in order.
pub open spec fn bit_ids(bits: Seq<bool>, want: bool, start: int) -> Seq<int>
    decreases bits.len(),
{
    if bits.len() == 0 {
        Seq::empty()
    } else {
        bit_ids(bits.drop_last(), want, start) + if bits.last() == want {
            seq![start + bits.len() - 1]
        } else {
            Seq::empty()
        }
    }
}

/// The numeric values of a sequence of binder ids.
pub open spec fn id_values(ids: Seq<BinderId>) -> Seq<int> {
    ids.map_values(|b: BinderId| b.0 as int)
}

/// Metadata about a scope introduced by a `new`, a `let`, a pattern, ...
pub struct ScopeInfo {
    binder_start: BinderId,
    num_binders: u32,
    uses: BitList,
    free: BitList,
    captures: FixedBitSet,
    span: SourceSpan,
}

impl ScopeInfo {
    /// The first binder of the scope.
    pub closed spec fn start(&self) -> nat {
        self.binder_start.0 as nat
    }

    /// How many binders the scope introduces.
    pub closed spec fn num(&self) -> nat {
        self.num_binders as nat
    }

    /// One past the last binder of the scope.
    pub open spec fn end(&self) -> nat {
        self.start() + self.num()
    }

    /// Which of the scope's binders are used.
    pub closed spec fn uses_bits(&self) -> Seq<bool> {
        bitvec_bits(self.uses)
    }

    /// Which of the scope's binders are free (introduced by a pattern).
    pub closed spec fn free_bits(&self) -> Seq<bool> {
        bitvec_bits(self.free)
    }

    /// Bit `b` is set when the scope captures outer binder `b`.
    pub closed spec fn capture_bits(&self) -> Seq<bool> {
        fixed_bits(self.captures)
    }

    /// No stray capture bit lies past the capture set's length.
    pub closed spec fn captures_clean(&self) -> bool {
        fixed_clean(self.captures)
    }

    pub closed spec fn spec_span(&self) -> SourceSpan {
        self.span
    }

    /// The binder `bid` belongs to this scope.
    pub open spec fn spec_contains(&self, bid: BinderId) -> bool {
        self.start() <= bid.0 < self.end()
    }

    /// The scope is captured by outer binder `b`.
    pub open spec fn captures_binder(&self, b: int) -> bool {
        bit_at(self.capture_bits(), b)
    }

    pub open spec fn wf(&self) -> bool {
        &&& self.uses_bits().len() == self.num()
        &&& self.free_bits().len() == self.num()
        &&& self.end() <= MAX_BITS
        &&& self.capture_bits().len() <= MAX_BITS
        &&& self.captures_clean()
    }

    /// Builds a scope from its parts; all binders start unused.  The capture
    /// set is copied bit by bit, so only its first `len()` bits count.
    pub fn from_parts(
        binder_start: BinderId,
        free: BitList,
        captures: FixedBitSet,
        span: SourceSpan,
    ) -> (r: Self)
        requires
            binder_start.0 + bitvec_bits(free).len() <= MAX_BITS,
            fixed_bits(captures).len() <= MAX_BITS,
        ensures
            r.wf(),
            r.start() == binder_start.0,
            r.num() == bitvec_bits(free).len(),
            r.free_bits() == bitvec_bits(free),
            r.uses_bits() == repeat_bit(false, r.num()),
            r.capture_bits() == fixed_bits(captures),
            r.spec_span() == span,
    {
        let num_binders = bv_len(&free);
        let n = fbs_len(&captures);
        let mut copy = fbs_with_capacity(n);
        let mut i: usize = 0;
        while i < n
            invariant
                i <= n,
                n == fixed_bits(captures).len(),
                fixed_clean(copy),
                fixed_bits(copy).len() == n,
                forall|k: int|
                    0 <= k < n ==> #[trigger] fixed_bits(copy)[k] == (k < i && fixed_bits(captures)[k]),
            decreases n - i,
        {
            if fbs_contains(&captures, i) {
                fbs_insert(&mut copy, i);
            }
            i = i + 1;
        }
        assert(fixed_bits(copy) =~= fixed_bits(captures));
        ScopeInfo {
            binder_start,
            num_binders: num_binders as u32,
            uses: bv_repeat(false, num_binders),
            free,
            captures: copy,
            span,
        }
    }

    /// A scope of `num_binders` bound (not free) binders.
    pub fn new(binder_start: BinderId, num_binders: usize, span: SourceSpan) -> (r: Self)
        requires
            binder_start.0 + num_binders <= MAX_BITS,
        ensures
            r.wf(),
            r.start() == binder_start.0,
            r.num() == num_binders,
            r.free_bits() == repeat_bit(false, num_binders as nat),
            r.uses_bits() == repeat_bit(false, num_binders as nat),
            r.capture_bits() == repeat_bit(false, binder_start.0 as nat),
            r.spec_span() == span,
    {
        Self::from_parts(
            binder_start,
            bv_repeat(false, num_binders),
            fbs_with_capacity(binder_start.0 as usize),
            span,
        )
    }

    /// A scope without binders and without captures.
    pub fn ground(binder_start: BinderId, span: SourceSpan) -> (r: Self)
        requires
            binder_start.0 <= MAX_BITS,
        ensures
            r.wf(),
            r.start() == binder_start.0,
            r.num() == 0,
            r.capture_bits() == Seq::<bool>::empty(),
            r.spec_span() == span,
    {
        Self::from_parts(binder_start, bv_repeat(false, 0), fbs_new(), span)
    }

    /// A scope of one free binder.
    pub fn free_var(binder_start: BinderId, span: SourceSpan) -> (r: Self)
        requires
            binder_start.0 + 1 <= MAX_BITS,
        ensures
            r.wf(),
            r.start() == binder_start.0,
            r.num() == 1,
            r.free_bits() == seq![true],
            r.uses_bits() == seq![false],
            r.capture_bits() == Seq::<bool>::empty(),
            r.spec_span() == span,
    {
        let r = Self::from_parts(binder_start, bv_repeat(true, 1), fbs_new(), span);
        assert(repeat_bit(true, 1) =~= seq![true]);
        assert(repeat_bit(false, 1) =~= seq![false]);
        r
    }

    /// A scope without binders that captures `ref_binder`.
    pub fn var_ref(binder_start: BinderId, ref_binder: BinderId, span: SourceSpan) -> (r: ScopeInfo)
        requires
            binder_start.0 <= MAX_BITS,
            ref_binder.0 < binder_start.0,
        ensures
            r.wf(),
            r.start() == binder_start.0,
            r.num() == 0,
            r.capture_bits().len() == binder_start.0,
            forall|b: int| #[trigger] r.captures_binder(b) <==> b == ref_binder.0,
            r.spec_span() == span,
    {
        let captures = fbs_with_capacity(binder_start.0 as usize);
        let mut res = Self::from_parts(binder_start, bv_repeat(false, 0), captures, span);
        res.mark_captured(ref_binder);
        res
    }

    pub fn num_binders(&self) -> (r: usize)
        ensures
            r == self.num(),
    {
        self.num_binders as usize
    }

    pub fn binder_start(&self) -> (r: BinderId)
        ensures
            r.0 == self.start(),
    {
        self.binder_start
    }

    pub fn span(&self) -> (r: SourceSpan)
        ensures
            r == self.spec_span(),
    {
        self.span
    }

    /// One past the last binder.
    pub fn binder_end(&self) -> (r: BinderId)
        requires
            self.wf(),
        ensures
            r.0 == self.end(),
    {
        BinderId(self.binder_start.0 + self.num_binders)
    }

    pub fn contains(&self, bid: BinderId) -> (r: bool)
        requires
            self.wf(),
        ensures
            r == self.spec_contains(bid),
    {
        self.binder_start.0 <= bid.0 && bid.0 < self.binder_start.0 + self.num_binders
    }

    /// The binder ids of the scope, in order.
    pub fn binder_range(&self) -> (r: Vec<BinderId>)
        requires
            self.wf(),
        ensures
            r@.len() == self.num(),
            forall|i: int| 0 <= i < r@.len() ==> (#[trigger] r@[i]).0 == self.start() + i,
    {
        let mut r: Vec<BinderId> = Vec::new();
        let mut i: u32 = 0;
        while i < self.num_binders
            invariant
                self.wf(),
                i <= self.num(),
                r@.len() == i,
                forall|k: int| 0 <= k < r@.len() ==> (#[trigger] r@[k]).0 == self.start() + k,
            decreases self.num() - i,
        {
            r.push(BinderId(self.binder_start.0 + i));
            i = i + 1;
        }
        r
    }

    /// The binder ids of the scope as a range of indices.
    pub fn as_range(&self) -> (r: std::ops::Range<usize>)
        requires
            self.wf(),
        ensures
            r.start == self.start(),
            r.end == self.end(),
    {
        let start = self.binder_start.0 as usize;
        let end = start + self.num_binders as usize;
        start..end
    }

    /// No captures are recorded at all (the capture set has no bits).
    pub fn is_top_level(&self) -> (r: bool)
        ensures
            r == (self.capture_bits().len() == 0),
    {
        fbs_len(&self.captures) == 0
    }

    /// Captures nothing and has no free binders.
    pub fn is_ground(&self) -> (r: bool)
        requires
            self.wf(),
        ensures
            r == ((forall|b: int| !#[trigger] self.captures_binder(b)) && (forall|i: int|
                0 <= i < self.free_bits().len() ==> !self.free_bits()[i])),
    {
        let clear = fbs_is_clear(&self.captures);
        let no_free = bv_not_any(&self.free);
        proof {
            let cb = self.capture_bits();
            assert(clear == (forall|i: int| 0 <= i < cb.len() ==> !cb[i]));
            if clear {
                assert forall|b: int| !#[trigger] self.captures_binder(b) by {
                    if 0 <= b < cb.len() {
                        assert(!cb[b]);
                    }
                }
            } else {
                let k = choose|k: int| !(0 <= k < cb.len() ==> !cb[k]);
                assert(self.captures_binder(k));
            }
            assert(self.free_bits() == bitvec_bits(self.free));
            assert(no_free == (forall|i: int|
                0 <= i < self.free_bits().len() ==> !self.free_bits()[i]));
        }
        clear && no_free
    }

    /// How many outer binders the scope captures.
    pub fn num_captures(&self) -> (r: usize)
        ensures
            r == count_true(self.capture_bits()),
    {
        fbs_count_ones(&self.captures)
    }

    /// Marks binder `bid` of this scope as used.
    pub fn mark_used(&mut self, bid: BinderId)
        requires
            old(self).wf(),
            old(self).spec_contains(bid),
        ensures
            final(self).wf(),
            final(self).uses_bits() == old(self).uses_bits().update(
                bid.0 - old(self).start(),
                true,
            ),
            final(self).start() == old(self).start(),
            final(self).num() == old(self).num(),
            final(self).free_bits() == old(self).free_bits(),
            final(self).capture_bits() == old(self).capture_bits(),
            final(self).spec_span() == old(self).spec_span(),
            Self::marked_used(*old(self), bid, *final(self)),
    {
        let idx = (bid.0 - self.binder_start.0) as usize;
        self.mark_used_unchecked(idx);
    }

    /// Marks the binder at index `idx` of this scope as used.
    pub fn mark_used_unchecked(&mut self, idx: usize)
        requires
            old(self).wf(),
            idx < old(self).num(),
        ensures
            final(self).wf(),
            final(self).uses_bits() == old(self).uses_bits().update(idx as int, true),
            final(self).start() == old(self).start(),
            final(self).num() == old(self).num(),
            final(self).free_bits() == old(self).free_bits(),
            final(self).capture_bits() == old(self).capture_bits(),
            final(self).spec_span() == old(self).spec_span(),
    {
        bv_set(&mut self.uses, idx, true);
    }

    /// Replaces the use marks; there must be one per binder.
    pub fn set_uses(&mut self, uses: BitList)
        requires
            old(self).wf(),
            bitvec_bits(uses).len() == old(self).num(),
        ensures
            final(self).wf(),
            final(self).uses_bits() == bitvec_bits(uses),
            final(self).start() == old(self).start(),
            final(self).num() == old(self).num(),
            final(self).free_bits() == old(self).free_bits(),
            final(self).capture_bits() == old(self).capture_bits(),
            final(self).spec_span() == old(self).spec_span(),
    {
        self.uses = uses;
    }

    /// Every binder of the scope is used.
    pub fn all_used(&self) -> (r: bool)
        ensures
            r == (forall|i: int| 0 <= i < self.uses_bits().len() ==> self.uses_bits()[i]),
    {
        let r = bv_all(&self.uses);
        assert(self.uses_bits() == bitvec_bits(self.uses));
        assert(r == (forall|i: int| 0 <= i < self.uses_bits().len() ==> self.uses_bits()[i]));
        r
    }

    /// The binders of the scope that are not used, in order.
    pub fn unused(&self) -> (r: Vec<BinderId>)
        requires
            self.wf(),
        ensures
            id_values(r@) == bit_ids(self.uses_bits(), false, self.start() as int),
    {
        bits_to_ids(&self.uses, false, self.binder_start.0)
    }

    /// Records that the scope captures the outer binder `bid`.
    pub fn mark_captured(&mut self, bid: BinderId)
        requires
            old(self).wf(),
            bid.0 < old(self).start(),
        ensures
            final(self).wf(),
            final(self).start() == old(self).start(),
            final(self).num() == old(self).num(),
            final(self).uses_bits() == old(self).uses_bits(),
            final(self).free_bits() == old(self).free_bits(),
            final(self).spec_span() == old(self).spec_span(),
            final(self).capture_bits().len() == if old(self).capture_bits().len() <= bid.0 {
                old(self).start()
            } else {
                old(self).capture_bits().len()
            },
            forall|b: int|
                #[trigger] final(self).captures_binder(b) <==> (old(self).captures_binder(b) || b
                    == bid.0),
            Self::marked_captured(*old(self), bid, *final(self)),
    {
        if fbs_len(&self.captures) <= bid.0 as usize {
            fbs_grow(&mut self.captures, self.binder_start.0 as usize);
        }
        let ghost grown = fixed_bits(self.captures);
        fbs_insert(&mut self.captures, bid.0 as usize);
        proof {
            assert forall|b: int|
                #[trigger] self.captures_binder(b) <==> (old(self).captures_binder(b) || b
                    == bid.0) by {
                if 0 <= b < grown.len() {
                    assert(grown[b] == bit_at(fixed_bits(old(self).captures), b));
                }
            }
        }
    }

    /// The outer binders the scope captures, in increasing order.
    pub fn captures(&self) -> (r: Vec<BinderId>)
        requires
            self.wf(),
        ensures
            id_values(r@) == bit_ids(self.capture_bits(), true, 0),
    {
        let n = fbs_len(&self.captures);
        let mut r: Vec<BinderId> = Vec::new();
        let mut i: usize = 0;
        proof {
            assert(self.capture_bits().take(0) =~= Seq::<bool>::empty());
            assert(id_values(r@) =~= Seq::<int>::empty());
        }
        while i < n
            invariant
                n == self.capture_bits().len(),
                n <= MAX_BITS,
                i <= n,
                id_values(r@) == bit_ids(self.capture_bits().take(i as int), true, 0),
                forall|k: int| 0 <= k < r@.len() ==> (#[trigger] r@[k]).0 < i,
            decreases n - i,
        {
            let set = fbs_contains(&self.captures, i);
            proof {
                let t = self.capture_bits().take(i as int + 1);
                assert(t.drop_last() =~= self.capture_bits().take(i as int));
                assert(t.last() == self.capture_bits()[i as int]);
            }
            if set {
                r.push(BinderId(i as u32));
                proof {
                    assert(id_values(r@) =~= id_values(r@.drop_last()) + seq![i as int]);
                }
            }
            i = i + 1;
        }
        proof {
            assert(self.capture_bits().take(n as int) =~= self.capture_bits());
        }
        r
    }

    /// The use marks of `l` after it absorbs `r`: a binder of `l` is used when it
    /// was, or when either scope captured it; the marks of `r` follow.
    pub open spec fn absorbed_uses(l: ScopeInfo, r: ScopeInfo) -> Seq<bool> {
        Seq::new(
            l.num() + r.num(),
            |i: int|
                if i < l.num() {
                    l.uses_bits()[i] || l.captures_binder(l.start() + i) || r.captures_binder(
                        l.start() + i,
                    )
                } else {
                    r.uses_bits()[i - l.num()]
                },
        )
    }

    /// `n` is the scope `o` with the use of its binder `bid` recorded.
    pub open spec fn marked_used(o: ScopeInfo, bid: BinderId, n: ScopeInfo) -> bool {
        &&& n.wf()
        &&& n.uses_bits() == o.uses_bits().update(bid.0 - o.start(), true)
        &&& n.start() == o.start()
        &&& n.num() == o.num()
        &&& n.free_bits() == o.free_bits()
        &&& n.capture_bits() == o.capture_bits()
        &&& n.spec_span() == o.spec_span()
    }

    /// `n` is the scope `o` with the capture of the outer binder `bid` recorded.
    pub open spec fn marked_captured(o: ScopeInfo, bid: BinderId, n: ScopeInfo) -> bool {
        &&& n.wf()
        &&& n.start() == o.start()
        &&& n.num() == o.num()
        &&& n.uses_bits() == o.uses_bits()
        &&& n.free_bits() == o.free_bits()
        &&& n.spec_span() == o.spec_span()
        &&& n.capture_bits().len() == if o.capture_bits().len() <= bid.0 {
            o.start()
        } else {
            o.capture_bits().len()
        }
        &&& forall|b: int| #[trigger] n.captures_binder(b) <==> (o.captures_binder(b) || b == bid.0)
    }

    /// `n` is the scope `l` with the scope `rhs` merged into it, as `absorb`
    /// merges them.
    pub open spec fn absorbed(l: ScopeInfo, rhs: ScopeInfo, n: ScopeInfo) -> bool {
        &&& n.wf()
        &&& n.start() == l.start()
        &&& n.num() == l.num() + rhs.num()
        &&& n.free_bits() == l.free_bits() + rhs.free_bits()
        &&& n.uses_bits() == Self::absorbed_uses(l, rhs)
        &&& n.spec_span() == l.spec_span()
        &&& n.capture_bits().len() == if rhs.capture_bits().len() > l.capture_bits().len() {
            rhs.capture_bits().len()
        } else {
            l.capture_bits().len()
        }
        &&& forall|b: int|
            #[trigger] n.captures_binder(b) <==> ((l.captures_binder(b) || rhs.captures_binder(b)) && !(
            l.start() <= b < l.end()))
    }

    /// Merges the scope `rhs`, whose binders come right after this scope's, into
    /// this scope.  Captures of either scope that fall into this scope's binders
    /// become uses; the other captures are kept.
    pub fn absorb(&mut self, rhs: ScopeInfo)
        requires
            old(self).wf(),
            rhs.wf(),
            old(self).end() == rhs.start(),
        ensures
            final(self).wf(),
            final(self).start() == old(self).start(),
            final(self).num() == old(self).num() + rhs.num(),
            final(self).free_bits() == old(self).free_bits() + rhs.free_bits(),
            final(self).uses_bits() == Self::absorbed_uses(*old(self), rhs),
            final(self).spec_span() == old(self).spec_span(),
            final(self).capture_bits().len() == if rhs.capture_bits().len() > old(
                self,
            ).capture_bits().len() {
                rhs.capture_bits().len()
            } else {
                old(self).capture_bits().len()
            },
            forall|b: int|
                #[trigger] final(self).captures_binder(b) <==> ((old(self).captures_binder(b)
                    || rhs.captures_binder(b)) && !(old(self).start() <= b < old(self).end())),
        Self::absorbed(*old(self), rhs, *final(self)),
    {
        let ghost l = *old(self);
        assert(fixed_clean(l.captures) && fixed_clean(rhs.captures));
        fbs_union_with(&mut self.captures, &rhs.captures);
        let ghost cb = fixed_bits(self.captures);
        let start = self.binder_start.0 as usize;
        let end = start + self.num_binders as usize;
        let clen = fbs_len(&self.captures);
        assert(self.uses_bits() == bitvec_bits(self.uses));
        if start < clen {
            let overlap_end = if end < clen {
                end
            } else {
                clen
            };
            let mut i = start;
            while i < overlap_end
                invariant
                    start <= i <= overlap_end,
                    overlap_end <= end,
                    overlap_end <= clen,
                    clen == cb.len(),
                    start == l.start(),
                    end == l.end(),
                    fixed_bits(self.captures) == cb,
                    fixed_clean(self.captures),
                    self.free == l.free,
                    self.num_binders == l.num_binders,
                    self.binder_start == l.binder_start,
                    self.span == l.span,
                    bitvec_bits(self.uses).len() == l.num(),
                    forall|j: int|
                        0 <= j < l.num() ==> #[trigger] bitvec_bits(self.uses)[j] == (
                        l.uses_bits()[j] || (start + j < i && bit_at(cb, start + j))),
                decreases overlap_end - i,
            {
                if fbs_contains(&self.captures, i) {
                    bv_set(&mut self.uses, i - start, true);
                }
                i = i + 1;
            }
            fbs_clear_range(&mut self.captures, start, overlap_end);
        }
        proof {
            assert forall|j: int| 0 <= j < l.num() implies #[trigger] bitvec_bits(self.uses)[j] == (
            l.uses_bits()[j] || l.captures_binder(l.start() + j) || rhs.captures_binder(
                l.start() + j,
            )) by {
                assert(bit_at(cb, start + j) == (l.captures_binder(l.start() + j)
                    || rhs.captures_binder(l.start() + j)));
            }
            assert forall|b: int|
                #[trigger] bit_at(fixed_bits(self.captures), b) <==> ((l.captures_binder(b)
                    || rhs.captures_binder(b)) && !(l.start() <= b < l.end())) by {
                if 0 <= b < cb.len() {
                    assert(bit_at(cb, b) == (l.captures_binder(b) || rhs.captures_binder(b)));
                }
            }
        }
        let ghost converted = bitvec_bits(self.uses);
        assert(bitvec_bits(self.free) == l.free_bits());
        assert(bitvec_bits(rhs.free) == rhs.free_bits());
        assert(bitvec_bits(rhs.uses) == rhs.uses_bits());
        assert(l.free_bits().len() == l.num() && l.num() == self.num_binders);
        if self.num_binders == 0 {
            self.free = rhs.free;
            self.uses = rhs.uses;
            self.num_binders = rhs.num_binders;
            proof {
                assert(l.free_bits() + rhs.free_bits() =~= rhs.free_bits());
            }
        } else if rhs.num_binders != 0 {
            bv_extend(&mut self.free, &rhs.free);
            bv_extend(&mut self.uses, &rhs.uses);
            self.num_binders = self.num_binders + rhs.num_binders;
        } else {
            proof {
                assert(l.free_bits() + rhs.free_bits() =~= l.free_bits());
                assert(converted + rhs.uses_bits() =~= converted);
            }
        }
        proof {
            assert(self.uses_bits() == bitvec_bits(self.uses));
            assert(self.free_bits() == bitvec_bits(self.free));
            assert(bitvec_bits(self.uses) =~= Self::absorbed_uses(l, rhs));
            assert forall|b: int|
                #[trigger] self.captures_binder(b) <==> ((l.captures_binder(b)
                    || rhs.captures_binder(b)) && !(l.start() <= b < l.end())) by {
                assert(bit_at(fixed_bits(self.captures), b) <==> ((l.captures_binder(b)
                    || rhs.captures_binder(b)) && !(l.start() <= b < l.end())));
            }
        }
    }

    /// How many of the scope's binders are free.
    pub fn num_free(&self) -> (r: usize)
        ensures
            r == count_true(self.free_bits()),
    {
        bv_count_ones(&self.free)
    }

    /// The free binders of the scope, in order.
    pub fn free(&self) -> (r: Vec<BinderId>)
        requires
            self.wf(),
        ensures
            id_values(r@) == bit_ids(self.free_bits(), true, self.start() as int),
    {
        bits_to_ids(&self.free, true, self.binder_start.0)
    }
}

/// The ids `start + i` of the bits of `bits` that equal `want`.
fn bits_to_ids(bits: &BitList, want: bool, start: u32) -> (r: Vec<BinderId>)
    requires
        start + bitvec_bits(*bits).len() <= MAX_BITS,
    ensures
        id_values(r@) == bit_ids(bitvec_bits(*bits), want, start as int),
{
    let n = bv_len(bits);
    let mut r: Vec<BinderId> = Vec::new();
    let mut i: usize = 0;
    proof {
        assert(bitvec_bits(*bits).take(0) =~= Seq::<bool>::empty());
        assert(id_values(r@) =~= Seq::<int>::empty());
    }
    while i < n
        invariant
            n == bitvec_bits(*bits).len(),
            start + n <= MAX_BITS,
            i <= n,
            id_values(r@) == bit_ids(bitvec_bits(*bits).take(i as int), want, start as int),
        decreases n - i,
    {
        let b = bv_get(bits, i);
        proof {
            let t = bitvec_bits(*bits).take(i as int + 1);
            assert(t.drop_last() =~= bitvec_bits(*bits).take(i as int));
            assert(t.last() == bitvec_bits(*bits)[i as int]);
        }
        if b == want {
            r.push(BinderId(start + i as u32));
            proof {
                assert(id_values(r@) =~= id_values(r@.drop_last()) + seq![start + i]);
            }
        }
        i = i + 1;
    }
    proof {
        assert(bitvec_bits(*bits).take(n as int) =~= bitvec_bits(*bits));
    }
    r
}

} // verus!
