//! The hierarchical bitmap physical frame allocator: free physical memory
//! tracked at eleven power-of-two orders in per-tier packed bitmaps, with
//! O(log) split and merge on allocation and freeing.

use vstd::prelude::*;
use crate::addr::FrameAddr;
use crate::align::Alignment;
use crate::align::spec_align_up;
use crate::addr::HasPhysAddr;
use crate::frame_order::Avail;
use crate::frame_order::FrameOrder;
use crate::frame_order::GroupSize;
use crate::frame_order::full_avail;
use crate::frame_order::group_bits;
use crate::frame_order::group_mask;
use crate::frame_order::merge_spec;
use crate::frame_order::per_word;
use crate::frame_order::pow2k;
use crate::frame_order::pow4;
use crate::frame_order::lemma_pow2k_pos;
use crate::frame_order::umax_avail;

verus! {

use vstd::arithmetic::div_mod::lemma_fundamental_div_mod;

/// Owns the free/used state of every physical frame, packed per tier.
///
/// Tier `s` stores one Avail value per size-`s` group in `group_bits(s)` bits
/// of the words of `group_maps[s]`; `group_counts[s]` groups of that tier
/// exist, the rest of the words is padding held at zero.
pub struct BitmapFrameAllocator {
    group_maps: Vec<Vec<u64>>,
    group_counts: Vec<usize>,
    max_group_size: GroupSize,
    max_size_group_count: usize,
}

/// 64-bit words needed to store `c` Avail values of tier `s`.
pub open spec fn word_count(s: int, c: int) -> int {
    (group_bits(s) * c + 63) / 64
}

impl BitmapFrameAllocator {
    /// The largest populated tier.
    pub closed spec fn top(self) -> int {
        self.max_group_size.0 as int
    }

    /// How many groups tier `s` holds.
    pub closed spec fn counts(self, s: int) -> int {
        self.group_counts@[s] as int
    }

    /// How many words back tier `s`.
    pub closed spec fn words_len(self, s: int) -> int {
        self.group_maps@[s]@.len() as int
    }

    /// How many Avail fields tier `s`'s words can hold, padding included.
    pub open spec fn fields(self, s: int) -> int {
        self.words_len(s) * per_word(s)
    }

    /// The Avail value stored for group `i` of tier `s`.
    #[verifier::opaque]
    pub closed spec fn avail_of(self, s: int, i: int) -> int {
        ((self.group_maps@[s]@[i / per_word(s)] >> (((i % per_word(s)) * group_bits(s)) as u64))
            & (group_mask(s) as u64)) as int
    }

    /// The shape of the bitmaps: tier sizes chain by division by four, words
    /// exactly back the groups of each populated tier.
    pub closed spec fn struct_wf(self) -> bool {
        &&& self.group_maps@.len() == 16
        &&& self.group_counts@.len() == 16
        &&& 0 <= self.top() < 16
        &&& self.counts(0) >= 4
        &&& self.counts(0) + 64 <= usize::MAX as int / 4
        &&& self.counts(0) <= 0x100_0000_0000
        &&& self.max_size_group_count == self.counts(self.top())
        &&& forall|s: int|
            1 <= s <= self.top() ==> #[trigger] self.counts(s) == (self.counts(s - 1) + 3) / 4
        &&& forall|s: int| self.top() < s < 16 ==> #[trigger] self.counts(s) == 0
        &&& forall|s: int|
            0 <= s <= self.top() ==> #[trigger] self.words_len(s) == word_count(s, self.counts(s))
        &&& forall|s: int| self.top() < s < 16 ==> #[trigger] self.words_len(s) == 0
    }

    /// Every stored Avail is in range, and the padding fields past a tier's
    /// group count are zero.
    pub closed spec fn avail_wf(self) -> bool {
        forall|s: int, i: int|
            0 <= s <= self.top() && 0 <= i < self.fields(s) ==> (#[trigger] self.avail_of(s, i)
                <= full_avail(s) && (i >= self.counts(s) ==> self.avail_of(s, i) == 0))
    }

    /// Group `i` of tier `s` caches exactly the merge of its four children.
    #[verifier::opaque]
    pub closed spec fn group_consistent(self, s: int, i: int) -> bool {
        self.avail_of(s, i) == merge_spec(
            s,
            self.avail_of(s - 1, 4 * i),
            self.avail_of(s - 1, 4 * i + 1),
            self.avail_of(s - 1, 4 * i + 2),
            self.avail_of(s - 1, 4 * i + 3),
        )
    }

    /// Group `i` of tier `s` marks a block allocated whole: it caches zero
    /// while its children still read fully free.
    #[verifier::opaque]
    pub closed spec fn group_marker(self, s: int, i: int) -> bool {
        &&& self.avail_of(s, i) == 0
        &&& self.avail_of(s - 1, 4 * i) == umax_avail(s - 1)
        &&& self.avail_of(s - 1, 4 * i + 1) == umax_avail(s - 1)
        &&& self.avail_of(s - 1, 4 * i + 2) == umax_avail(s - 1)
        &&& self.avail_of(s - 1, 4 * i + 3) == umax_avail(s - 1)
    }

    /// A non-leaf group is merge-consistent or marks an allocated block.
    pub closed spec fn group_ok(self, s: int, i: int) -> bool {
        self.group_consistent(s, i) || self.group_marker(s, i)
    }

    /// The tree invariant over all populated groups.
    pub closed spec fn tree_wf(self) -> bool {
        forall|s: int, i: int|
            1 <= s <= self.top() && 0 <= i < self.counts(s) ==> #[trigger] self.group_ok(s, i)
    }

    /// The allocator's full invariant: it holds before and after every
    /// public call.
    pub open spec fn wf(self) -> bool {
        self.struct_wf() && self.avail_wf() && self.tree_wf()
    }

    /// `true` when order-0 frame `f` is free: every tier from the leaves to
    /// the top caches a nonzero Avail for the group containing it.
    pub open spec fn frame_free(self, f: int) -> bool {
        &&& 0 <= f < self.counts(0)
        &&& forall|s: int|
            0 <= s <= self.top() ==> #[trigger] self.avail_of(s, f / pow4(s as nat) as int) >= 1
    }

    /// Every frame of the order-`k` block starting at frame `b` is free.
    pub open spec fn block_free(self, b: int, k: int) -> bool {
        forall|f: int| b <= f < b + pow2k(k as nat) ==> #[trigger] self.frame_free(f)
    }

    /// No frame of the order-`k` block starting at frame `b` is free.
    pub open spec fn block_used(self, b: int, k: int) -> bool {
        forall|f: int| b <= f < b + pow2k(k as nat) ==> !(#[trigger] self.frame_free(f))
    }

    /// Some aligned, fully free order-`k` block exists.
    pub open spec fn has_free_block(self, k: int) -> bool {
        exists|b: int|
            0 <= b && b % pow2k(k as nat) as int == 0 && b + pow2k(k as nat) <= self.counts(0)
                && #[trigger] self.block_free(b, k)
    }

    /// The tier shape is unchanged between two states.
    pub open spec fn same_shape(self, other: Self) -> bool {
        &&& self.top() == other.top()
        &&& forall|s: int| 0 <= s < 16 ==> #[trigger] self.counts(s) == other.counts(s)
        &&& forall|s: int| 0 <= s < 16 ==> #[trigger] self.words_len(s) == other.words_len(s)
    }

    /// Basic bounds every well-formed allocator obeys: the populated tiers
    /// start at zero, and the tracked frames fit the 52-bit physical space.
    pub proof fn lemma_wf_bounds(self)
        requires
            self.wf(),
        ensures
            self.top() >= 0,
            4 <= self.counts(0) <= 0x100_0000_0000,
            forall|s: int|
                0 <= s <= self.top() ==> #[trigger] self.counts(s) <= self.fields(s),
    {
        assert forall|s: int|
            0 <= s <= self.top() implies #[trigger] self.counts(s) <= self.fields(s) by {
            lemma_tier_bounds(self, s);
        }
    }

    /// Unfolds merge-consistency: the group's cached Avail is exactly the
    /// merge of its four children's.
    pub proof fn lemma_consistent_is_merge(self, s: int, i: int)
        ensures
            self.group_consistent(s, i) <==> self.avail_of(s, i) == merge_spec(
                s,
                self.avail_of(s - 1, 4 * i),
                self.avail_of(s - 1, 4 * i + 1),
                self.avail_of(s - 1, 4 * i + 2),
                self.avail_of(s - 1, 4 * i + 3),
            ),
    {
        reveal(BitmapFrameAllocator::group_consistent);
    }

    /// Unfolds an allocated-block marker: the group caches zero while its
    /// children still read fully free.
    pub proof fn lemma_marker_meaning(self, s: int, i: int)
        ensures
            self.group_marker(s, i) <==> (self.avail_of(s, i) == 0 && self.avail_of(
                s - 1,
                4 * i,
            ) == umax_avail(s - 1) && self.avail_of(s - 1, 4 * i + 1) == umax_avail(s - 1)
                && self.avail_of(s - 1, 4 * i + 2) == umax_avail(s - 1) && self.avail_of(
                s - 1,
                4 * i + 3,
            ) == umax_avail(s - 1)),
    {
        reveal(BitmapFrameAllocator::group_marker);
    }

    /// Reads the Avail cached for group `idx` of tier `size`.
    fn get_group_avail(&self, size: GroupSize, idx: usize) -> (r: Avail)
        requires
            self.struct_wf(),
            size.0 < 16,
            (idx as int) < self.fields(size.0 as int),
        ensures
            r.0 == self.avail_of(size.0 as int, idx as int),
            r.0 <= group_mask(size.0 as int),
    {
        let ghost s = size.0 as int;
        proof {
            reveal(BitmapFrameAllocator::avail_of);
            lemma_div_bound(idx as int, per_word(s), self.words_len(s));
        }
        let (entry_idx, bit_offset) = size.idx_offset(idx);
        let w = self.group_maps[size.0 as usize][entry_idx];
        let m = size.mask();
        proof {
            assert((w >> bit_offset) & m <= m) by (bit_vector);
            assert(m <= 15) by {
                assert(group_mask(s) <= 15);
            }
        }
        Avail(((w >> bit_offset) & m) as u8)
    }

    /// Stores `avail` for group `idx` of tier `size`, leaving every other
    /// group of every tier unchanged.
    fn set_group_avail(&mut self, size: GroupSize, idx: usize, avail: Avail)
        requires
            old(self).struct_wf(),
            size.0 < 16,
            (idx as int) < old(self).fields(size.0 as int),
            avail.0 <= group_mask(size.0 as int),
        ensures
            final(self).struct_wf(),
            old(self).same_shape(*final(self)),
            final(self).avail_of(size.0 as int, idx as int) == avail.0,
            forall|s: int, i: int|
                0 <= s < 16 && 0 <= i < final(self).fields(s) && !(s == size.0 && i == idx)
                    ==> #[trigger] final(self).avail_of(s, i) == old(self).avail_of(s, i),
    {
        let ghost pre = *self;
        let s_exec = size.0 as usize;
        let ghost s = size.0 as int;
        proof {
            reveal(BitmapFrameAllocator::avail_of);
            lemma_div_bound(idx as int, per_word(s), self.words_len(s));
        }
        let (entry_idx, bit_offset) = size.idx_offset(idx);
        let m = size.mask();
        let b = size.bits();
        let w = self.group_maps[s_exec][entry_idx];
        let w2 = (w & !(m << bit_offset)) | ((avail.0 as u64) << bit_offset);
        self.group_maps[s_exec][entry_idx] = w2;
        proof {
            let per = per_word(s);
            let gb = group_bits(s);
            assert(self.group_maps@.len() == pre.group_maps@.len());
            assert(self.group_maps@[s]@ =~= pre.group_maps@[s]@.update(entry_idx as int, w2));
            assert(self.group_maps@[s]@.len() == pre.group_maps@[s]@.len());
            assert(self.group_counts@ =~= pre.group_counts@);
            assert forall|s2: int| 0 <= s2 < 16 implies #[trigger] self.words_len(s2)
                == pre.words_len(s2) by {}
            assert forall|s2: int| 0 <= s2 < 16 implies #[trigger] self.counts(s2) == pre.counts(
                s2,
            ) by {}
            assert forall|s2: int| 0 <= s2 < 16 && s2 != s implies self.group_maps@[s2]@
                =~= pre.group_maps@[s2]@ by {}
            // the written field now reads back `avail`, and every other field
            // of the word is untouched
            lemma_field_set(w, bit_offset, bit_offset, b, m, avail.0 as u64);
            assert(self.avail_of(s, idx as int) == avail.0);
            assert forall|s2: int, i: int|
                0 <= s2 < 16 && 0 <= i < self.fields(s2) && !(s2 == s && i == idx)
                    implies #[trigger] self.avail_of(s2, i) == pre.avail_of(s2, i) by {
                if s2 == s {
                    if i / per == entry_idx as int {
                        assert(i % per != idx as int % per) by {
                            lemma_fundamental_div_mod(i, per);
                            lemma_fundamental_div_mod(idx as int, per);
                        }
                        let off2 = (i % per) * gb;
                        assert(off2 != bit_offset as int) by (nonlinear_arith)
                            requires
                                i % per != idx as int % per,
                                off2 == (i % per) * gb,
                                bit_offset == (idx as int % per) * gb,
                                gb >= 1,
                        ;
                        assert(0 <= off2 && off2 + gb <= 64) by (nonlinear_arith)
                            requires
                                off2 == (i % per) * gb,
                                0 <= i % per < per,
                                per == 64int / gb,
                                gb == 1 || gb == 2 || gb == 4,
                        ;
                        assert(off2 % gb == 0 && bit_offset as int % gb == 0) by (nonlinear_arith)
                            requires
                                off2 == (i % per) * gb,
                                bit_offset == (idx as int % per) * gb,
                                gb >= 1,
                        ;
                        lemma_field_set(w, bit_offset, off2 as u64, b, m, avail.0 as u64);
                    } else {
                        lemma_div_bound(i, per, self.words_len(s));
                        assert(self.group_maps@[s]@[i / per] == pre.group_maps@[s]@[i / per]);
                    }
                }
            }
        }
    }
}

/// The index of the tier-`s` ancestor of group `i0` of tier `s0`.
pub open spec fn anc_idx(i0: int, s0: int, s: int) -> int {
    i0 / pow4((s - s0) as nat) as int
}

impl BitmapFrameAllocator {
    /// Reads the four children of group `idx` of tier `size`.
    #[verifier::rlimit(100)]
    fn get_sub_group_avails(&self, size: GroupSize, idx: usize) -> (r: [Avail; 4])
        requires
            self.struct_wf(),
            1 <= size.0 < 16,
            size.0 <= self.top(),
            (idx as int) < self.counts(size.0 as int),
        ensures
            forall|j: int|
                0 <= j < 4 ==> #[trigger] r[j].0 == self.avail_of(
                    size.0 as int - 1,
                    4 * idx + j,
                ),
            forall|j: int| 0 <= j < 4 ==> #[trigger] r[j].0 <= group_mask(size.0 as int - 1),
    {
        proof {
            lemma_tier_bounds(*self, size.0 as int);
            lemma_counts_le_first(*self, size.0 as int);
        }
        let sub = size.sub_size();
        let a0 = self.get_group_avail(sub, 4 * idx);
        let a1 = self.get_group_avail(sub, 4 * idx + 1);
        let a2 = self.get_group_avail(sub, 4 * idx + 2);
        let a3 = self.get_group_avail(sub, 4 * idx + 3);
        let r = [a0, a1, a2, a3];
        proof {
            assert(r[0] == a0 && r[1] == a1 && r[2] == a2 && r[3] == a3);
        }
        r
    }

    /// Recomputes the Avail group `idx` of tier `size` caches from its
    /// children; reports whether the stored value changed.
    fn update_group_avail(&mut self, size: GroupSize, idx: usize) -> (r: bool)
        requires
            old(self).struct_wf(),
            1 <= size.0 < 16,
            size.0 <= old(self).top(),
            (idx as int) < old(self).counts(size.0 as int),
            forall|j: int|
                0 <= j < 4 ==> #[trigger] old(self).avail_of(size.0 as int - 1, 4 * idx + j)
                    <= full_avail(size.0 as int - 1),
        ensures
            final(self).struct_wf(),
            old(self).same_shape(*final(self)),
            final(self).group_consistent(size.0 as int, idx as int),
            final(self).avail_of(size.0 as int, idx as int) <= full_avail(size.0 as int),
            r == (final(self).avail_of(size.0 as int, idx as int) != old(self).avail_of(
                size.0 as int,
                idx as int,
            )),
            forall|s: int, i: int|
                0 <= s < 16 && 0 <= i < final(self).fields(s) && !(s == size.0 && i == idx)
                    ==> #[trigger] final(self).avail_of(s, i) == old(self).avail_of(s, i),
    {
        proof {
            lemma_tier_bounds(*self, size.0 as int);
        }
        let sub_avails = self.get_sub_group_avails(size, idx);
        let avail = Avail::merge(size, sub_avails);
        proof {
            reveal(BitmapFrameAllocator::group_consistent);
            lemma_merge_le_full(
                size.0 as int,
                self.avail_of(size.0 as int - 1, 4 * idx as int),
                self.avail_of(size.0 as int - 1, 4 * idx as int + 1),
                self.avail_of(size.0 as int - 1, 4 * idx as int + 2),
                self.avail_of(size.0 as int - 1, 4 * idx as int + 3),
            );
        }
        let current = self.get_group_avail(size, idx);
        if avail.0 != current.0 {
            self.set_group_avail(size, idx, avail);
            true
        } else {
            false
        }
    }

    /// After group `idx` of tier `size` changed, re-merges each ancestor in
    /// turn, stopping at the first whose cached Avail is unchanged.
    ///
    /// On entry every populated group but the direct parent must satisfy the
    /// tree invariant, and the ancestors above the parent must be
    /// merge-consistent; on exit the whole invariant holds again and nothing
    /// outside the ancestor chain has changed.
    #[verifier::rlimit(100)]
    #[verifier::spinoff_prover]
    fn update_all_parents(&mut self, size: GroupSize, idx: usize)
        requires
            old(self).struct_wf(),
            old(self).avail_wf(),
            size.0 as int <= old(self).top(),
            (idx as int) < old(self).counts(size.0 as int),
            forall|s: int, i: int|
                1 <= s <= old(self).top() && 0 <= i < old(self).counts(s) && !(s == size.0 + 1 && i
                    == idx as int / 4) ==> #[trigger] old(self).group_ok(s, i),
            forall|s: int|
                size.0 + 2 <= s <= old(self).top() ==> #[trigger] old(self).group_consistent(
                    s,
                    anc_idx(idx as int, size.0 as int, s),
                ),
        ensures
            final(self).wf(),
            old(self).same_shape(*final(self)),
            forall|s: int, i: int|
                0 <= s < 16 && 0 <= i < final(self).fields(s) && !(size.0 < s <= final(self).top()
                    && i == anc_idx(idx as int, size.0 as int, s))
                    ==> #[trigger] final(self).avail_of(s, i) == old(self).avail_of(s, i),
            forall|s: int|
                size.0 < s <= final(self).top() ==> #[trigger] final(self).group_consistent(
                    s,
                    anc_idx(idx as int, size.0 as int, s),
                ),
        decreases old(self).top() - size.0 as int,
    {
        let ghost pre = *self;
        let ghost s0 = size.0 as int;
        let ghost i0 = idx as int;
        proof {
            assert(pow4(0) == 1);
            assert(i0 / 1int == i0) by (nonlinear_arith);
            assert(anc_idx(i0, s0, s0) == i0);
            assert(pow4(1) == 4);
            assert(anc_idx(i0, s0, s0 + 1) == i0 / 4);
        }
        if size.0 >= self.max_group_size.0 {
            proof {
                // at the top there are no ancestors: the exempt parent tier
                // is past the top, so every populated group is ok
                assert forall|s: int, i: int|
                    1 <= s <= self.top() && 0 <= i < self.counts(s)
                        implies #[trigger] self.group_ok(s, i) by {}
            }
            return ;
        }
        let parent_size = size.super_size();
        let parent_idx = idx / 4;
        proof {
            lemma_counts_div4(*self, s0, i0);
            lemma_tier_bounds(*self, s0 + 1);
        }
        let changed = self.update_group_avail(parent_size, parent_idx);
        proof {
            lemma_ok_frame(pre, *self, s0, i0, s0 + 1, i0 / 4);
            lemma_avail_wf_update(pre, *self, s0 + 1, i0 / 4);
        }
        if !changed {
            proof {
                assert forall|s2: int, i2: int|
                    0 <= s2 < 16 && 0 <= i2 < self.fields(s2) implies #[trigger] self.avail_of(
                    s2,
                    i2,
                ) == pre.avail_of(s2, i2) by {
                    if !(s2 == s0 + 1 && i2 == i0 / 4) {
                        assert(self.avail_of(s2, i2) == pre.avail_of(s2, i2));
                    }
                }
                assert forall|s: int|
                    s0 < s <= self.top() implies #[trigger] self.group_consistent(
                    s,
                    anc_idx(i0, s0, s),
                ) by {
                    let ai = anc_idx(i0, s0, s);
                    lemma_anc_in_counts(*self, i0, s0, s);
                    lemma_tier_bounds(*self, s);
                    lemma_tier_bounds(*self, s - 1);
                    if s == s0 + 1 {
                        assert(self.group_consistent(s0 + 1, i0 / 4));
                    } else {
                        assert(pre.group_consistent(s, ai));
                        lemma_consistent_transfer(pre, *self, s, ai);
                    }
                }
                assert forall|s: int, i: int|
                    1 <= s <= self.top() && 0 <= i < self.counts(s)
                        implies #[trigger] self.group_ok(s, i) by {
                    if s0 < s <= self.top() && i == anc_idx(i0, s0, s) {
                        assert(self.group_consistent(s, i));
                    }
                }
            }
            return ;
        }
        let ghost mid = *self;
        proof {
            // the recursive repair starts from the re-merged parent: every
            // group but the grandparent is ok, and the ancestors above the
            // grandparent are still consistent
            lemma_after_parent_update(pre, *self, s0, i0);
            assert(pow4(1) == 4);
            assert((i0 / 4) / 1int == i0 / 4) by (nonlinear_arith);
            assert forall|s: int, i: int|
                1 <= s <= self.top() && 0 <= i < self.counts(s) && !(s == s0 + 2 && i == (i0 / 4)
                    / 4) implies #[trigger] self.group_ok(s, i) by {
                if s0 < s <= self.top() && i == anc_idx(i0, s0, s) {
                    if s == s0 + 1 {
                        assert(self.group_consistent(s0 + 1, i0 / 4));
                    } else {
                        assert(anc_idx(i0, s0, s0 + 2) == (i0 / 4) / 4) by {
                            lemma_anc_step(i0, s0, s0 + 1);
                        }
                        assert(s >= s0 + 3);
                        assert(self.group_consistent(s, anc_idx(i0, s0, s)));
                    }
                }
            }
        }
        self.update_all_parents(parent_size, parent_idx);
        proof {
            assert forall|s: int, i: int|
                0 <= s < 16 && 0 <= i < self.fields(s) && !(s0 < s <= self.top() && i == anc_idx(
                    i0,
                    s0,
                    s,
                )) implies #[trigger] self.avail_of(s, i) == pre.avail_of(s, i) by {
                if s0 + 1 < s <= self.top() {
                    lemma_anc_chain_shift(i0, s0, s);
                    assert(self.avail_of(s, i) == mid.avail_of(s, i));
                } else {
                    assert(self.avail_of(s, i) == mid.avail_of(s, i));
                }
            }
            assert forall|s: int|
                s0 < s <= self.top() implies #[trigger] self.group_consistent(
                s,
                anc_idx(i0, s0, s),
            ) by {
                if s == s0 + 1 {
                    // the parent kept its value and children through the
                    // recursive repair above it
                    lemma_anc_in_counts(mid, i0, s0, s0 + 1);
                    lemma_tier_bounds(mid, s0 + 1);
                    lemma_tier_bounds(mid, s0);
                    lemma_consistent_transfer(mid, *self, s0 + 1, i0 / 4);
                } else {
                    lemma_anc_chain_shift(i0, s0, s);
                }
            }
        }
    }
}

impl BitmapFrameAllocator {
    /// Descends from the top tier to tier `size`, greedily entering any
    /// child that caches at least `avail`, and returns the group found.
    ///
    /// Returns `None` exactly when no top-tier group caches `avail` or more:
    /// under the tree invariant a qualifying top-tier group always lets the
    /// descent reach tier `size`.
    fn find_group_of_size_with_avail(&self, size: GroupSize, avail: Avail) -> (r: Option<usize>)
        requires
            self.wf(),
            size.0 as int <= self.top(),
            1 <= avail.0 <= full_avail(size.0 as int),
        ensures
            match r {
                Some(idx) => {
                    &&& (idx as int) < self.counts(size.0 as int)
                    &&& self.avail_of(size.0 as int, idx as int) >= avail.0
                    &&& forall|s: int|
                        size.0 < s <= self.top() ==> #[trigger] self.avail_of(
                            s,
                            anc_idx(idx as int, size.0 as int, s),
                        ) >= avail.0
                },
                None => forall|i: int|
                    0 <= i < self.counts(self.top()) ==> #[trigger] self.avail_of(self.top(), i)
                        < avail.0,
            },
    {
        let top_size = self.max_group_size;
        let mut scan: usize = 0;
        let mut hit = false;
        proof {
            lemma_tier_bounds(*self, self.top());
            lemma_counts_le_first(*self, self.top());
        }
        while !hit && scan < self.max_size_group_count
            invariant
                self.wf(),
                top_size.0 as int == self.top(),
                self.max_size_group_count == self.counts(self.top()),
                0 <= scan as int,
                scan as int <= self.counts(self.top()),
                self.counts(self.top()) <= self.fields(self.top()),
                hit ==> (scan as int) < self.counts(self.top()) && self.avail_of(
                    self.top(),
                    scan as int,
                ) >= avail.0,
                !hit ==> forall|i: int|
                    0 <= i < scan as int ==> #[trigger] self.avail_of(self.top(), i) < avail.0,
            decreases self.counts(self.top()) - scan as int, (if hit { 0int } else { 1int }),
        {
            if self.get_group_avail(top_size, scan).0 >= avail.0 {
                hit = true;
            } else {
                scan = scan + 1;
            }
        }
        if !hit {
            return None;
        }
        let mut curr_group_pos: usize = scan;
        let mut curr_size = top_size;
        proof {
            assert(pow4(0) == 1);
            assert(curr_group_pos as int / 1int == curr_group_pos as int) by (nonlinear_arith);
        }
        while curr_size.0 > size.0
            invariant
                self.wf(),
                size.0 <= curr_size.0,
                curr_size.0 as int <= self.top(),
                1 <= avail.0 <= full_avail(size.0 as int),
                (curr_group_pos as int) < self.counts(curr_size.0 as int),
                self.avail_of(curr_size.0 as int, curr_group_pos as int) >= avail.0,
                forall|s: int|
                    curr_size.0 < s <= self.top() ==> #[trigger] self.avail_of(
                        s,
                        anc_idx(curr_group_pos as int, curr_size.0 as int, s),
                    ) >= avail.0,
            decreases curr_size.0,
        {
            let ghost lvl = curr_size.0 as int;
            let ghost pos = curr_group_pos as int;
            proof {
                lemma_full_avail_monotone(size.0 as int, lvl - 1);
                lemma_child_with_avail(*self, lvl, pos, avail.0 as int);
                lemma_tier_bounds(*self, lvl);
                lemma_counts_le_first(*self, lvl);
            }
            let subs = self.get_sub_group_avails(curr_size, curr_group_pos);
            curr_size = curr_size.sub_size();
            let next_pos = if subs[0].0 >= avail.0 {
                4 * curr_group_pos
            } else if subs[1].0 >= avail.0 {
                4 * curr_group_pos + 1
            } else if subs[2].0 >= avail.0 {
                4 * curr_group_pos + 2
            } else {
                4 * curr_group_pos + 3
            };
            proof {
                // a qualifying child exists, so the last branch qualifies
                // whenever the first three do not
                assert(self.avail_of(lvl - 1, next_pos as int) >= avail.0);
                // the child is no padding group: padding caches zero
                lemma_tier_bounds(*self, lvl);
                if next_pos as int >= self.counts(lvl - 1) {
                    assert(self.avail_of(lvl - 1, next_pos as int) == 0);
                }
                assert forall|s: int|
                    lvl - 1 < s <= self.top() implies #[trigger] self.avail_of(
                    s,
                    anc_idx(next_pos as int, lvl - 1, s),
                ) >= avail.0 by {
                    lemma_anc_chain_shift(next_pos as int, lvl - 1, s);
                    assert(next_pos as int / 4 == pos) by (nonlinear_arith)
                        requires
                            4 * pos <= (next_pos as int) && (next_pos as int) < 4 * pos + 4,
                            pos >= 0,
                    ;
                    if s == lvl {
                        assert(pow4(0) == 1);
                        assert(pos / 1int == pos) by (nonlinear_arith);
                    }
                }
            }
            curr_group_pos = next_pos;
        }
        Some(curr_group_pos)
    }
}

/// A group that caches `req` or more has a child that does, as long as `req`
/// is reachable one tier down.
proof fn lemma_child_with_avail(a: BitmapFrameAllocator, s: int, i: int, req: int)
    requires
        a.wf(),
        1 <= s <= a.top(),
        0 <= i < a.counts(s),
        1 <= req <= full_avail(s - 1),
        a.avail_of(s, i) >= req,
    ensures
        a.avail_of(s - 1, 4 * i) >= req || a.avail_of(s - 1, 4 * i + 1) >= req || a.avail_of(
            s - 1,
            4 * i + 2,
        ) >= req || a.avail_of(s - 1, 4 * i + 3) >= req,
{
    assert(a.group_ok(s, i));
    reveal(BitmapFrameAllocator::group_consistent);
    reveal(BitmapFrameAllocator::group_marker);
}

/// `full_avail` never falls going up the tiers.
proof fn lemma_full_avail_monotone(lo: int, hi: int)
    requires
        lo <= hi,
    ensures
        full_avail(lo) <= full_avail(hi),
{
}

/// The bitmap tier whose groups an order-`k` block is marked in: its own
/// tier for even orders, one below for odd orders, which take a buddy pair.
pub open spec fn order_tier(k: int) -> int {
    if k % 2 == 0 {
        k / 2
    } else {
        (k + 1) / 2 - 1
    }
}

/// How many groups of that tier an order-`k` block takes.
pub open spec fn order_cols(k: int) -> int {
    if k % 2 == 0 {
        1
    } else {
        2
    }
}

impl BitmapFrameAllocator {
    /// The order-`k` block at frame `b` is recorded as allocated whole: its
    /// groups cache zero while everything beneath still reads fully free.
    pub open spec fn allocated_block(self, b: int, k: int) -> bool {
        let bl = order_tier(k);
        let c = b / pow4(bl as nat) as int;
        &&& 0 <= b
        &&& b % pow2k(k as nat) as int == 0
        &&& b + pow2k(k as nat) <= self.counts(0)
        &&& if bl == 0 {
            self.avail_of(0, c) == 0 && (k % 2 == 1 ==> self.avail_of(0, c + 1) == 0)
        } else {
            self.group_marker(bl, c) && (k % 2 == 1 ==> self.group_marker(bl, c + 1))
        }
    }

    /// Only the groups of the order-`k` block at `b` and their ancestor
    /// chain differ between the two states.
    pub open spec fn only_block_changed(self, post: Self, b: int, k: int) -> bool {
        let bl = order_tier(k);
        let c = b / pow4(bl as nat) as int;
        forall|s: int, i: int|
            0 <= s < 16 && 0 <= i < self.fields(s) && !(s == bl && c <= i < c + order_cols(k)) && !(
            bl < s <= self.top() && i == anc_idx(c, bl, s)) ==> #[trigger] post.avail_of(s, i)
                == self.avail_of(s, i)
    }

    /// The ancestors of the order-`k` block at `b` are merge-consistent.
    pub open spec fn block_chain_consistent(self, b: int, k: int) -> bool {
        let bl = order_tier(k);
        let c = b / pow4(bl as nat) as int;
        forall|s: int|
            bl < s <= self.top() ==> #[trigger] self.group_consistent(s, anc_idx(c, bl, s))
    }

    /// How an allocation changes the state: the block's groups go from fully
    /// free to zero, the ancestor chain is re-merged, nothing else moves, and
    /// at the frame level exactly the block's frames stop being free.
    pub open spec fn alloc_post(self, post: Self, b: int, k: int) -> bool {
        let bl = order_tier(k);
        let c = b / pow4(bl as nat) as int;
        &&& self.same_shape(post)
        &&& post.wf()
        &&& forall|i: int|
            c <= i < c + order_cols(k) ==> #[trigger] self.avail_of(bl, i) == umax_avail(bl)
        &&& forall|i: int| c <= i < c + order_cols(k) ==> #[trigger] post.avail_of(bl, i) == 0
        &&& self.only_block_changed(post, b, k)
        &&& self.block_chain_consistent(b, k)
        &&& post.block_chain_consistent(b, k)
        &&& post.allocated_block(b, k)
        &&& self.block_free(b, k)
        &&& post.block_used(b, k)
        &&& forall|f: int|
            !(b <= f < b + pow2k(k as nat)) ==> (#[trigger] post.frame_free(f)
                == self.frame_free(f))
    }

    /// How a free changes the state: the block's groups go back to fully
    /// free, the ancestor chain is re-merged, nothing else moves, and at the
    /// frame level exactly the block's frames become free again.
    pub open spec fn free_post(self, post: Self, b: int, k: int) -> bool {
        let bl = order_tier(k);
        let c = b / pow4(bl as nat) as int;
        &&& self.same_shape(post)
        &&& post.wf()
        &&& forall|i: int|
            c <= i < c + order_cols(k) ==> #[trigger] post.avail_of(bl, i) == umax_avail(bl)
        &&& self.only_block_changed(post, b, k)
        &&& self.block_chain_consistent(b, k)
        &&& post.block_chain_consistent(b, k)
        &&& post.block_free(b, k)
        &&& forall|f: int|
            !(b <= f < b + pow2k(k as nat)) ==> (#[trigger] post.frame_free(f)
                == self.frame_free(f))
    }
}

/// A stored Avail, being a masked field of a word, is never negative.
proof fn lemma_avail_nonneg(a: BitmapFrameAllocator, s: int, i: int)
    ensures
        a.avail_of(s, i) >= 0,
{
    reveal(BitmapFrameAllocator::avail_of);
}

/// The merge of in-range children is at least each child.
proof fn lemma_merge_ge_children(s: int, a0: int, a1: int, a2: int, a3: int)
    requires
        s >= 1,
        0 <= a0 <= full_avail(s - 1),
        0 <= a1 <= full_avail(s - 1),
        0 <= a2 <= full_avail(s - 1),
        0 <= a3 <= full_avail(s - 1),
    ensures
        merge_spec(s, a0, a1, a2, a3) >= a0,
        merge_spec(s, a0, a1, a2, a3) >= a1,
        merge_spec(s, a0, a1, a2, a3) >= a2,
        merge_spec(s, a0, a1, a2, a3) >= a3,
{
}

/// A merge of zero means all four children are zero.
proof fn lemma_merge_zero(s: int, a0: int, a1: int, a2: int, a3: int)
    requires
        s >= 1,
        0 <= a0,
        0 <= a1,
        0 <= a2,
        0 <= a3,
        merge_spec(s, a0, a1, a2, a3) == 0,
    ensures
        a0 == 0 && a1 == 0 && a2 == 0 && a3 == 0,
{
}

/// Below a group that caches its fully-free value, every group on the way
/// down to `js` also does, and all of them are inside their tier's counts.
#[verifier::rlimit(100)]
proof fn lemma_full_group_descends(a: BitmapFrameAllocator, u: int, iu: int, s: int, js: int)
    requires
        a.wf(),
        0 <= s <= u <= a.top(),
        0 <= iu < a.counts(u),
        a.avail_of(u, iu) == umax_avail(u),
        0 <= js,
        iu == anc_idx(js, s, u),
    ensures
        0 <= js < a.counts(s),
        a.avail_of(s, js) == umax_avail(s),
    decreases u - s,
{
    lemma_pow4_pos((u - s) as nat);
    if u == s {
        assert(pow4(0) == 1);
        assert(js / 1int == js) by (nonlinear_arith);
    } else {
        // the full value fits the stored range only below the cap
        lemma_tier_bounds(a, u);
        lemma_tier_bounds(a, u - 1);
        assert(a.avail_of(u, iu) <= full_avail(u));
        assert(a.group_ok(u, iu));
        reveal(BitmapFrameAllocator::group_consistent);
        reveal(BitmapFrameAllocator::group_marker);
        // a nonzero group is merge-consistent, and a merge equal to the
        // fully-free value forces all four children fully free
        let b0 = a.avail_of(u - 1, 4 * iu);
        let b1 = a.avail_of(u - 1, 4 * iu + 1);
        let b2 = a.avail_of(u - 1, 4 * iu + 2);
        let b3 = a.avail_of(u - 1, 4 * iu + 3);
        assert(b0 <= full_avail(u - 1) && b1 <= full_avail(u - 1) && b2 <= full_avail(u - 1) && b3
            <= full_avail(u - 1));
        assert(b0 == umax_avail(u - 1) && b1 == umax_avail(u - 1) && b2 == umax_avail(u - 1) && b3
            == umax_avail(u - 1));
        let jc = anc_idx(js, s, u - 1);
        lemma_anc_step(js, s, u - 1);
        assert(jc / 4 == iu);
        assert(4 * iu <= jc < 4 * iu + 4) by (nonlinear_arith)
            requires
                jc / 4 == iu,
                jc >= 0,
        ;
        // fully free children cannot be padding, which caches zero
        assert(jc < a.counts(u - 1)) by {
            if jc >= a.counts(u - 1) {
                assert(a.avail_of(u - 1, jc) == 0);
            }
        }
        lemma_full_group_descends(a, u - 1, jc, s, js);
    }
}

/// Walking up from the leaves, a path whose groups each either cache a
/// positive Avail or are merge-consistent stays positive, once its leaf is
/// positive.
proof fn lemma_path_pos_up(a: BitmapFrameAllocator, f: int, u: int)
    requires
        a.struct_wf(),
        a.avail_wf(),
        0 <= u <= a.top(),
        0 <= f < a.counts(0),
        a.avail_of(0, f / pow4(0) as int) >= 1,
        forall|v: int|
            1 <= v <= u ==> (#[trigger] a.avail_of(v, f / pow4(v as nat) as int) >= 1
                || a.group_consistent(v, f / pow4(v as nat) as int)),
    ensures
        forall|v: int| 0 <= v <= u ==> #[trigger] a.avail_of(v, f / pow4(v as nat) as int) >= 1,
    decreases u,
{
    if u > 0 {
        lemma_path_pos_up(a, f, u - 1);
        let gu = f / pow4(u as nat) as int;
        let gc = f / pow4((u - 1) as nat) as int;
        if !(a.avail_of(u, gu) >= 1) {
            assert(a.group_consistent(u, gu));
            lemma_anc_in_counts_base(a, f, u);
            lemma_anc_in_counts_base(a, f, u - 1);
            lemma_tier_bounds(a, u);
            lemma_tier_bounds(a, u - 1);
            lemma_anc_step(f, 0, u - 1);
            assert(gc / 4 == gu);
            assert(4 * gu <= gc < 4 * gu + 4) by (nonlinear_arith)
                requires
                    gc / 4 == gu,
                    gc >= 0,
            ;
            reveal(BitmapFrameAllocator::group_consistent);
            lemma_merge_ge_children(
                u,
                a.avail_of(u - 1, 4 * gu),
                a.avail_of(u - 1, 4 * gu + 1),
                a.avail_of(u - 1, 4 * gu + 2),
                a.avail_of(u - 1, 4 * gu + 3),
            );
            assert(a.avail_of(u, gu) >= a.avail_of(u - 1, gc));
            assert(false);
        }
    }
}

/// A frame below a tier's count has its covering group below every higher
/// tier's count.
proof fn lemma_anc_in_counts_base(a: BitmapFrameAllocator, f: int, u: int)
    requires
        a.struct_wf(),
        0 <= u <= a.top(),
        0 <= f < a.counts(0),
    ensures
        0 <= f / pow4(u as nat) as int,
        f / (pow4(u as nat) as int) < a.counts(u),
        f / pow4(u as nat) as int == anc_idx(f, 0, u),
{
    lemma_anc_in_counts(a, f, 0, u);
}

/// Walking down from a zero group along a path of merge-consistent groups,
/// some lower group on the path is zero at or below any given tier.
proof fn lemma_zero_descends(a: BitmapFrameAllocator, f: int, u: int, lo: int)
    requires
        a.wf(),
        0 <= lo <= u <= a.top(),
        0 <= f < a.counts(0),
        a.avail_of(u, f / pow4(u as nat) as int) == 0,
        forall|v: int|
            lo < v <= u ==> !(#[trigger] a.group_marker(v, f / pow4(v as nat) as int)),
    ensures
        exists|v: int|
            lo <= v <= u && #[trigger] a.avail_of(v, f / pow4(v as nat) as int) == 0,
    decreases u - lo,
{
    if u == lo {
    } else {
        let gu = f / pow4(u as nat) as int;
        let gc = f / pow4((u - 1) as nat) as int;
        lemma_anc_in_counts_base(a, f, u);
        lemma_anc_in_counts_base(a, f, u - 1);
        assert(a.group_ok(u, gu));
        assert(a.group_consistent(u, gu)) by {
            reveal(BitmapFrameAllocator::group_marker);
        }
        lemma_anc_step(f, 0, u - 1);
        assert(gc / 4 == gu);
        assert(4 * gu <= gc < 4 * gu + 4) by (nonlinear_arith)
            requires
                gc / 4 == gu,
                gc >= 0,
        ;
        reveal(BitmapFrameAllocator::group_consistent);
        lemma_avail_nonneg(a, u - 1, 4 * gu);
        lemma_avail_nonneg(a, u - 1, 4 * gu + 1);
        lemma_avail_nonneg(a, u - 1, 4 * gu + 2);
        lemma_avail_nonneg(a, u - 1, 4 * gu + 3);
        lemma_merge_zero(
            u,
            a.avail_of(u - 1, 4 * gu),
            a.avail_of(u - 1, 4 * gu + 1),
            a.avail_of(u - 1, 4 * gu + 2),
            a.avail_of(u - 1, 4 * gu + 3),
        );
        assert(a.avail_of(u - 1, gc) == 0);
        lemma_zero_descends(a, f, u - 1, lo);
    }
}

/// `pow2k` agrees with the library power-of-two function.
proof fn lemma_pow2k_is_pow2(k: nat)
    ensures
        pow2k(k) == vstd::arithmetic::power2::pow2(k),
    decreases k,
{
    vstd::arithmetic::power2::lemma_pow2(k);
    if k == 0 {
        vstd::arithmetic::power::lemma_pow0(2);
    } else {
        lemma_pow2k_is_pow2((k - 1) as nat);
        vstd::arithmetic::power2::lemma_pow2_unfold(k);
    }
}

/// An order-`k` block takes `order_cols(k)` groups of `pow4(order_tier(k))`
/// frames each.
proof fn lemma_block_cols(k: int)
    requires
        0 <= k,
    ensures
        pow2k(k as nat) == order_cols(k) * pow4(order_tier(k) as nat),
    decreases k,
{
    if k == 0 {
    } else if k == 1 {
        assert(pow4(0) == 1);
        assert(pow2k(0) == 1);
        assert(pow2k(1) == 2);
    } else {
        lemma_block_cols(k - 2);
        assert(order_tier(k) == order_tier(k - 2) + 1);
        assert(pow4(order_tier(k) as nat) == 4 * pow4(order_tier(k - 2) as nat));
        assert(pow2k(k as nat) == 2 * pow2k((k - 1) as nat));
        assert(pow2k((k - 1) as nat) == 2 * pow2k((k - 2) as nat));
    }
}

/// Four-to-the-tier group counts cover all frames, with less than one
/// group's worth of slack.
proof fn lemma_counts_cover(a: BitmapFrameAllocator, s: int)
    requires
        a.struct_wf(),
        0 <= s <= a.top(),
    ensures
        a.counts(0) <= pow4(s as nat) * a.counts(s),
        pow4(s as nat) * a.counts(s) <= a.counts(0) + pow4(s as nat) - 1,
    decreases s,
{
    lemma_pow4_pos(s as nat);
    if s > 0 {
        lemma_counts_cover(a, s - 1);
        let p1 = pow4((s - 1) as nat) as int;
        let c1 = a.counts(s - 1);
        let c = a.counts(s);
        assert(c == (c1 + 3) / 4);
        assert(c1 <= 4 * c <= c1 + 3) by (nonlinear_arith)
            requires
                c == (c1 + 3) / 4,
                c1 >= 0,
        ;
        assert(pow4(s as nat) == 4 * p1);
        assert(p1 * c1 <= (4 * p1) * c && (4 * p1) * c <= p1 * c1 + 3 * p1) by (nonlinear_arith)
            requires
                c1 <= 4 * c <= c1 + 3,
                p1 >= 1,
        ;
    }
}

/// A frame lies in the order-`k` block at `b` exactly when its tier group
/// lies among the block's columns.
proof fn lemma_block_membership(b: int, k: int, f: int)
    requires
        0 <= k,
        0 <= b,
        0 <= f,
        b % (pow4(order_tier(k) as nat) as int) == 0,
    ensures
        (b <= f < b + pow2k(k as nat)) <==> ((b / (pow4(order_tier(k) as nat) as int) <= f / (
        pow4(order_tier(k) as nat) as int)) && (f / (pow4(order_tier(k) as nat) as int) < b / (
        pow4(order_tier(k) as nat) as int) + order_cols(k))),
{
    lemma_block_cols(k);
    let p = pow4(order_tier(k) as nat) as int;
    let cols = order_cols(k);
    lemma_pow4_pos(order_tier(k) as nat);
    assert((b <= f < b + cols * p) <==> (b / p <= f / p < b / p + cols)) by (nonlinear_arith)
        requires
            p >= 1,
            b % p == 0,
            0 <= b,
            0 <= f,
            cols == 1 || cols == 2,
    ;
}

/// After the columns of a block are rewritten to values that keep them ok,
/// the repair preconditions hold: only the direct parent can be stale, and
/// the chain above it is still consistent.
proof fn lemma_repair_pre(
    pre: BitmapFrameAllocator,
    now: BitmapFrameAllocator,
    bl: int,
    c: int,
    cols: int,
)
    requires
        pre.wf(),
        now.struct_wf(),
        pre.same_shape(now),
        0 <= bl <= pre.top(),
        cols == 1 || cols == 2,
        0 <= c,
        c + cols <= pre.counts(bl),
        cols == 2 ==> c % 4 == 0 || c % 4 == 2,
        forall|s: int, i: int|
            0 <= s < 16 && 0 <= i < now.fields(s) && !(s == bl && c <= i < c + cols)
                ==> #[trigger] now.avail_of(s, i) == pre.avail_of(s, i),
        bl >= 1 ==> forall|i: int| c <= i < c + cols ==> #[trigger] now.group_ok(bl, i),
        forall|s: int|
            bl < s <= pre.top() ==> #[trigger] pre.group_consistent(s, anc_idx(c, bl, s)),
    ensures
        forall|s: int, i: int|
            1 <= s <= now.top() && 0 <= i < now.counts(s) && !(s == bl + 1 && i == c / 4)
                ==> #[trigger] now.group_ok(s, i),
        forall|s: int|
            bl + 2 <= s <= now.top() ==> #[trigger] now.group_consistent(s, anc_idx(c, bl, s)),
        cols == 2 ==> forall|s: int|
            bl + 2 <= s <= now.top() ==> #[trigger] now.group_consistent(
                s,
                anc_idx(c + 1, bl, s),
            ),
{
    assert(pow4(0) == 1);
    assert(pow4(1) == 4);
    assert forall|s: int|
        bl + 2 <= s <= now.top() implies #[trigger] now.group_consistent(
        s,
        anc_idx(c, bl, s),
    ) by {
        let ai = anc_idx(c, bl, s);
        lemma_anc_in_counts(pre, c, bl, s);
        lemma_tier_bounds(pre, s);
        lemma_tier_bounds(pre, s - 1);
        lemma_consistent_transfer(pre, now, s, ai);
    }
    assert forall|s: int, i: int|
        1 <= s <= now.top() && 0 <= i < now.counts(s) && !(s == bl + 1 && i == c / 4)
        implies #[trigger] now.group_ok(s, i) by {
        lemma_tier_bounds(pre, s);
        lemma_tier_bounds(pre, s - 1);
        if s == bl && c <= i < c + cols {
            // the rewritten columns are ok by hypothesis
        } else if bl < s <= now.top() && i == anc_idx(c, bl, s) {
            // chain groups above the parent stayed consistent
            assert(s >= bl + 2);
            assert(now.group_consistent(s, i));
        } else {
            // off the chain and off the columns: value and children
            // unchanged, so ok carries over from the old state
            assert(pre.group_ok(s, i));
            assert(now.avail_of(s, i) == pre.avail_of(s, i));
            assert forall|j: int|
                0 <= j < 4 implies #[trigger] now.avail_of(s - 1, 4 * i + j) == pre.avail_of(
                s - 1,
                4 * i + j,
            ) by {
                if s - 1 == bl && c <= 4 * i + j < c + cols {
                    // the columns' shared parent is the one exempt group
                    assert((4 * i + j) / 4 == i) by (nonlinear_arith)
                        requires
                            0 <= j < 4,
                            i >= 0,
                    ;
                    assert(c / 4 == i) by (nonlinear_arith)
                        requires
                            cols == 1 || cols == 2,
                            cols == 2 ==> c % 4 == 0 || c % 4 == 2,
                            c <= 4 * i + j < c + cols,
                            (4 * i + j) / 4 == i,
                            0 <= j < 4,
                            c >= 0,
                            i >= 0,
                    ;
                    assert(false);
                }
            }
            reveal(BitmapFrameAllocator::group_consistent);
            reveal(BitmapFrameAllocator::group_marker);
        }
    }
    if cols == 2 {
        assert forall|s: int|
            bl + 2 <= s <= now.top() implies #[trigger] now.group_consistent(
            s,
            anc_idx(c + 1, bl, s),
        ) by {
            lemma_anc_same_pair(c, bl, s);
        }
    }
}

/// A buddy pair of columns shares its whole ancestor chain.
proof fn lemma_anc_same_pair(c: int, bl: int, s: int)
    requires
        0 <= c,
        0 <= bl,
        c % 4 == 0 || c % 4 == 2,
        bl < s,
    ensures
        anc_idx(c + 1, bl, s) == anc_idx(c, bl, s),
    decreases s - bl,
{
    if s == bl + 1 {
        assert(pow4(0) == 1);
        assert(pow4(1) == 4);
        assert((c + 1) / 4 == c / 4) by (nonlinear_arith)
            requires
                c >= 0,
                c % 4 == 0 || c % 4 == 2,
        ;
    } else {
        lemma_anc_same_pair(c, bl, s - 1);
        lemma_anc_step(c, bl, s - 1);
        lemma_anc_step(c + 1, bl, s - 1);
    }
}

/// A tier group whose frames are all free caches exactly its fully-free
/// value.
proof fn lemma_free_group_full(a: BitmapFrameAllocator, s: int, i: int)
    requires
        a.wf(),
        0 <= s <= a.top(),
        s <= 5,
        0 <= i < a.counts(s),
        forall|f: int|
            i * pow4(s as nat) <= f < (i + 1) * pow4(s as nat) ==> #[trigger] a.frame_free(f),
    ensures
        a.avail_of(s, i) == umax_avail(s),
    decreases s,
{
    lemma_pow4_pos(s as nat);
    lemma_tier_bounds(a, s);
    if s == 0 {
        assert(pow4(0) == 1);
        assert(i * (pow4(0) as int) == i && (i + 1) * (pow4(0) as int) == i + 1)
            by (nonlinear_arith)
            requires
                pow4(0) == 1,
        ;
        assert(a.frame_free(i));
        assert(i / 1int == i) by (nonlinear_arith);
        assert(i / (pow4(0) as int) == i);
        assert(a.avail_of(0, i) >= 1);
        assert(a.avail_of(0, i) <= full_avail(0));
    } else {
        lemma_tier_bounds(a, s - 1);
        lemma_pow4_pos((s - 1) as nat);
        let p1 = pow4((s - 1) as nat) as int;
        let p = pow4(s as nat) as int;
        assert(p == 4 * p1);
        assert forall|j: int| 0 <= j < 4 implies #[trigger] a.avail_of(s - 1, 4 * i + j)
            == umax_avail(s - 1) by {
            let ch = 4 * i + j;
            // the child's frames sit inside the group's frames
            assert(i * p <= ch * p1 && (ch + 1) * p1 <= (i + 1) * p) by (nonlinear_arith)
                requires
                    p == 4 * p1,
                    p1 >= 1,
                    0 <= j < 4,
                    ch == 4 * i + j,
            ;
            let f0 = ch * p1;
            assert(ch * p1 < (ch + 1) * p1) by (nonlinear_arith)
                requires
                    p1 >= 1,
            ;
            assert(a.frame_free(f0));
            // so the child is no padding group
            assert(f0 / p1 == ch) by (nonlinear_arith)
                requires
                    f0 == ch * p1,
                    p1 >= 1,
                    ch >= 0,
            ;
            assert(a.avail_of(s - 1, ch) >= 1);
            assert(ch < a.counts(s - 1)) by {
                if ch >= a.counts(s - 1) {
                    assert(a.avail_of(s - 1, ch) == 0);
                }
            }
            assert forall|f: int|
                ch * p1 <= f < (ch + 1) * p1 implies #[trigger] a.frame_free(f) by {}
            lemma_free_group_full(a, s - 1, ch);
        }
        let ghost j0: int = 0;
        assert(a.avail_of(s - 1, 4 * i + j0) == umax_avail(s - 1));
        assert(a.avail_of(s - 1, 4 * i) == umax_avail(s - 1));
        assert(a.avail_of(s - 1, 4 * i + 1) == umax_avail(s - 1));
        assert(a.avail_of(s - 1, 4 * i + 2) == umax_avail(s - 1));
        assert(a.avail_of(s - 1, 4 * i + 3) == umax_avail(s - 1));
        // the group itself reads nonzero, so it is merge-consistent, and the
        // merge of four fully-free children is the fully-free value
        let f0 = i * p;
        assert(i * p < (i + 1) * p) by (nonlinear_arith)
            requires
                p >= 1,
        ;
        assert(a.frame_free(f0));
        assert(f0 / p == i) by (nonlinear_arith)
            requires
                f0 == i * p,
                p >= 1,
                i >= 0,
        ;
        assert(a.avail_of(s, i) >= 1);
        assert(a.group_ok(s, i));
        reveal(BitmapFrameAllocator::group_consistent);
        reveal(BitmapFrameAllocator::group_marker);
    }
}

/// Along a path of merge-consistent groups, a cached Avail propagates
/// upward: each parent caches at least its child.
proof fn lemma_chain_raise(a: BitmapFrameAllocator, f: int, lo: int, u: int, val: int)
    requires
        a.wf(),
        0 <= lo <= u <= a.top(),
        0 <= f < a.counts(0),
        a.avail_of(lo, f / pow4(lo as nat) as int) >= val,
        forall|v: int|
            lo < v <= u ==> #[trigger] a.group_consistent(v, f / pow4(v as nat) as int),
    ensures
        a.avail_of(u, f / pow4(u as nat) as int) >= val,
    decreases u - lo,
{
    if u > lo {
        lemma_chain_raise(a, f, lo, u - 1, val);
        let gu = f / pow4(u as nat) as int;
        let gc = f / pow4((u - 1) as nat) as int;
        lemma_anc_in_counts_base(a, f, u);
        lemma_anc_in_counts_base(a, f, u - 1);
        lemma_tier_bounds(a, u);
        lemma_tier_bounds(a, u - 1);
        lemma_anc_step(f, 0, u - 1);
        assert(4 * gu <= gc < 4 * gu + 4) by (nonlinear_arith)
            requires
                gc / 4 == gu,
                gc >= 0,
        ;
        assert(a.group_consistent(u, gu));
        reveal(BitmapFrameAllocator::group_consistent);
        lemma_avail_nonneg(a, u - 1, 4 * gu);
        lemma_avail_nonneg(a, u - 1, 4 * gu + 1);
        lemma_avail_nonneg(a, u - 1, 4 * gu + 2);
        lemma_avail_nonneg(a, u - 1, 4 * gu + 3);
        lemma_merge_ge_children(
            u,
            a.avail_of(u - 1, 4 * gu),
            a.avail_of(u - 1, 4 * gu + 1),
            a.avail_of(u - 1, 4 * gu + 2),
            a.avail_of(u - 1, 4 * gu + 3),
        );
        assert(gc == 4 * gu || gc == 4 * gu + 1 || gc == 4 * gu + 2 || gc == 4 * gu + 3);
        assert(a.avail_of(u, gu) >= a.avail_of(u - 1, gc));
    }
}

/// Frames on a free path have no allocated-block marker above them, so their
/// covering groups are all merge-consistent.
proof fn lemma_free_path_consistent(a: BitmapFrameAllocator, f: int, v: int)
    requires
        a.wf(),
        a.frame_free(f),
        1 <= v <= a.top(),
    ensures
        a.group_consistent(v, f / pow4(v as nat) as int),
{
    lemma_anc_in_counts_base(a, f, v);
    assert(a.avail_of(v, f / pow4(v as nat) as int) >= 1);
    assert(a.group_ok(v, f / pow4(v as nat) as int));
    reveal(BitmapFrameAllocator::group_marker);
}

/// When no top-tier group caches enough for order `k`, no aligned free
/// order-`k` block exists at all: the cached values are truthful.
proof fn lemma_no_top_no_block(a: BitmapFrameAllocator, k: int)
    requires
        a.wf(),
        0 <= k <= 10,
        (k + 1) / 2 <= a.top(),
        forall|i: int|
            0 <= i < a.counts(a.top()) ==> #[trigger] a.avail_of(a.top(), i) < k + 1,
    ensures
        !a.has_free_block(k),
{
    let bl = order_tier(k);
    assert forall|b: int|
        0 <= b && b % pow2k(k as nat) as int == 0 && b + pow2k(k as nat) <= a.counts(0)
            implies !(#[trigger] a.block_free(b, k)) by {
        if a.block_free(b, k) {
            lemma_block_cols(k);
            lemma_pow4_pos(bl as nat);
            lemma_pow2k_pos(k as nat);
            let p = pow4(bl as nat) as int;
            let c = b / p;
            assert(b % p == 0) by {
                if order_cols(k) == 2 {
                    let m = b / (2 * p);
                    lemma_fundamental_div_mod(b, 2 * p);
                    assert(b == (2 * m) * p) by (nonlinear_arith)
                        requires
                            b == (2 * p) * m + b % (2 * p),
                            b % (2 * p) == 0,
                    ;
                    vstd::arithmetic::div_mod::lemma_mod_multiples_basic(2 * m, p);
                }
            }
            assert(c * p == b) by {
                lemma_fundamental_div_mod(b, p);
            }
            assert forall|i: int| c <= i < c + order_cols(k) implies #[trigger] a.avail_of(bl, i)
                == umax_avail(bl) by {
                assert forall|f: int|
                    i * p <= f < (i + 1) * p implies #[trigger] a.frame_free(f) by {
                    assert(b <= f < b + order_cols(k) * p) by (nonlinear_arith)
                        requires
                            c * p == b,
                            c <= i < c + order_cols(k),
                            i * p <= f < (i + 1) * p,
                            p >= 1,
                    ;
                }
                assert(i < a.counts(bl)) by {
                    let f0 = i * p;
                    assert(f0 / p == i && b <= f0 && f0 < (i + 1) * p) by (nonlinear_arith)
                        requires
                            f0 == i * p,
                            p >= 1,
                            i >= 0,
                            c * p == b,
                            c <= i,
                    ;
                    assert(a.frame_free(f0));
                    lemma_anc_in_counts_base(a, f0, bl);
                }
                lemma_free_group_full(a, bl, i);
            }
            // the block's first frame carries the availability to the top
            let fb = b;
            assert(a.frame_free(fb));
            assert(fb / p == c) by (nonlinear_arith)
                requires
                    c * p == b,
                    fb == b,
                    p >= 1,
                    c >= 0,
            ;
            assert forall|v: int|
                bl < v <= a.top() implies #[trigger] a.group_consistent(
                v,
                fb / pow4(v as nat) as int,
            ) by {
                lemma_free_path_consistent(a, fb, v);
            }
            if k % 2 == 0 {
                assert(a.avail_of(bl, c) == umax_avail(bl));
                assert(umax_avail(bl) == k + 1);
                lemma_chain_raise(a, fb, bl, a.top(), k + 1);
            } else {
                // both halves of the buddy pair are fully free, so the
                // parent caches one order-step more than a half
                assert(a.avail_of(bl, c) == umax_avail(bl));
                assert(a.avail_of(bl, c + 1) == umax_avail(bl));
                assert(c % 2 == 0) by (nonlinear_arith)
                    requires
                        c * p == b,
                        b % (2 * p) == 0,
                        p >= 1,
                        b >= 0,
                        c >= 0,
                ;
                let gp = fb / pow4((bl + 1) as nat) as int;
                lemma_anc_in_counts_base(a, fb, bl + 1);
                lemma_anc_in_counts_base(a, fb, bl);
                lemma_tier_bounds(a, bl + 1);
                lemma_tier_bounds(a, bl);
                lemma_anc_step(fb, 0, bl);
                assert(c / 4 == gp);
                assert(4 * gp <= c < 4 * gp + 4 && (c == 4 * gp || c == 4 * gp + 2))
                    by (nonlinear_arith)
                    requires
                        c / 4 == gp,
                        c >= 0,
                        c % 2 == 0,
                ;
                lemma_free_path_consistent(a, fb, bl + 1);
                reveal(BitmapFrameAllocator::group_consistent);
                lemma_avail_nonneg(a, bl, 4 * gp);
                lemma_avail_nonneg(a, bl, 4 * gp + 1);
                lemma_avail_nonneg(a, bl, 4 * gp + 2);
                lemma_avail_nonneg(a, bl, 4 * gp + 3);
                assert(a.avail_of(bl + 1, gp) >= k + 1);
                lemma_chain_raise(a, fb, bl + 1, a.top(), k + 1);
            }
            lemma_anc_in_counts_base(a, fb, a.top());
            assert(false);
        }
    }
}

/// Dividing by the block tier first does not change the covering group.
proof fn lemma_anc_compose(f: int, mid: int, v: int)
    requires
        0 <= f,
        0 <= mid <= v,
    ensures
        f / (pow4(v as nat) as int) == anc_idx(f / (pow4(mid as nat) as int), mid, v),
    decreases v - mid,
{
    lemma_pow4_pos(mid as nat);
    lemma_pow4_pos(v as nat);
    if v == mid {
        assert(pow4(0) == 1);
        assert((f / (pow4(mid as nat) as int)) / 1int == f / (pow4(mid as nat) as int))
            by (nonlinear_arith);
    } else {
        lemma_anc_compose(f, mid, v - 1);
        lemma_anc_step(f / (pow4(mid as nat) as int), mid, v - 1);
        lemma_anc_step(f, 0, v - 1);
        lemma_div_four_compose(f, v);
    }
}

/// Dividing by one more tier's span is dividing the quotient by four.
proof fn lemma_div_four_compose(f: int, v: int)
    requires
        0 <= f,
        1 <= v,
    ensures
        (f / (pow4((v - 1) as nat) as int)) / 4 == f / (pow4(v as nat) as int),
{
    lemma_pow4_pos((v - 1) as nat);
    assert(pow4(v as nat) == 4 * pow4((v - 1) as nat));
    vstd::arithmetic::div_mod::lemma_div_denominator(f, pow4((v - 1) as nat) as int, 4);
}

/// One frame of a block whose columns cache their fully-free value, with a
/// positive-or-consistent chain above, is free.
/// Tiers at or below the block tier read fully free along one of its
/// frames' paths.
#[verifier::rlimit(100)]
proof fn lemma_block_frame_low(a: BitmapFrameAllocator, bl: int, col: int, f: int, v: int)
    requires
        a.wf(),
        0 <= bl <= a.top(),
        0 <= col < a.counts(bl),
        a.avail_of(bl, col) == umax_avail(bl),
        0 <= f,
        col == f / (pow4(bl as nat) as int),
        0 <= v <= bl,
    ensures
        a.avail_of(v, f / (pow4(v as nat) as int)) == umax_avail(v),
        f / (pow4(v as nat) as int) < a.counts(v),
{
    lemma_pow4_pos(v as nat);
    assert(f / (pow4(v as nat) as int) >= 0) by (nonlinear_arith)
        requires
            f >= 0,
            pow4(v as nat) >= 1,
    ;
    lemma_anc_compose(f, v, bl);
    lemma_full_group_descends(a, bl, col, v, f / (pow4(v as nat) as int));
}

/// The geometry of a block: its columns, and which column a frame falls in.
proof fn lemma_block_frame_col(b: int, k: int, f: int)
    requires
        0 <= k <= 10,
        0 <= b,
        b == (b / (pow4(order_tier(k) as nat) as int)) * pow4(order_tier(k) as nat),
        k % 2 == 1 ==> b % (2 * pow4(order_tier(k) as nat) as int) == 0,
        b <= f < b + pow2k(k as nat),
    ensures
        b / (pow4(order_tier(k) as nat) as int) <= f / (pow4(order_tier(k) as nat) as int),
        f / (pow4(order_tier(k) as nat) as int) < b / (pow4(order_tier(k) as nat) as int)
            + order_cols(k),
        k % 2 == 1 ==> (b / (pow4(order_tier(k) as nat) as int)) % 2 == 0,
        0 <= f,
{
    let bl = order_tier(k);
    let p = pow4(bl as nat) as int;
    let c = b / p;
    lemma_pow4_pos(bl as nat);
    lemma_block_cols(k);
    assert(b % p == 0) by (nonlinear_arith)
        requires
            b == c * p,
            p >= 1,
            b >= 0,
    ;
    if order_cols(k) == 2 {
        assert(c % 2 == 0) by (nonlinear_arith)
            requires
                b == c * p,
                b % (2 * p) == 0,
                p >= 1,
                b >= 0,
                c >= 0,
        ;
    }
    lemma_block_membership(b, k, f);
}

/// Above the block tier, a block frame's covering groups are the block's
/// own ancestor chain.
proof fn lemma_block_frame_high(c: int, cols: int, col: int, bl: int, f: int, v: int)
    requires
        0 <= f,
        0 <= bl < v,
        c <= col < c + cols,
        cols == 1 || cols == 2,
        cols == 2 ==> c % 2 == 0,
        0 <= c,
        col == f / (pow4(bl as nat) as int),
    ensures
        f / (pow4(v as nat) as int) == anc_idx(c, bl, v),
{
    lemma_anc_compose(f, bl, v);
    if cols == 2 && col == c + 1 {
        assert(c % 4 == 0 || c % 4 == 2) by (nonlinear_arith)
            requires
                c % 2 == 0,
                c >= 0,
        ;
        lemma_anc_same_pair(c, bl, v);
    }
}

#[verifier::rlimit(100)]
proof fn lemma_block_frame_free(a: BitmapFrameAllocator, b: int, k: int, f: int)
    requires
        a.wf(),
        0 <= k <= 10,
        order_tier(k) <= a.top(),
        0 <= b,
        b == (b / (pow4(order_tier(k) as nat) as int)) * pow4(order_tier(k) as nat),
        k % 2 == 1 ==> b % (2 * pow4(order_tier(k) as nat) as int) == 0,
        a.avail_of(order_tier(k), b / (pow4(order_tier(k) as nat) as int)) == umax_avail(
            order_tier(k),
        ),
        b / (pow4(order_tier(k) as nat) as int) < a.counts(order_tier(k)),
        k % 2 == 1 ==> a.avail_of(order_tier(k), b / (pow4(order_tier(k) as nat) as int) + 1)
            == umax_avail(order_tier(k)) && b / (pow4(order_tier(k) as nat) as int) + 1
            < a.counts(order_tier(k)),
        forall|s: int|
            order_tier(k) < s <= a.top() ==> #[trigger] a.avail_of(
                s,
                anc_idx(b / (pow4(order_tier(k) as nat) as int), order_tier(k), s),
            ) >= 1 || a.group_consistent(
                s,
                anc_idx(b / (pow4(order_tier(k) as nat) as int), order_tier(k), s),
            ),
        b <= f < b + pow2k(k as nat),
    ensures
        a.frame_free(f),
{
    let bl = order_tier(k);
    let p = pow4(bl as nat) as int;
    let c = b / p;
    let cols = order_cols(k);
    lemma_pow4_pos(bl as nat);
    lemma_block_frame_col(b, k, f);
    let col = f / p;
    assert(c <= col < c + cols);
    assert(a.avail_of(order_tier(k), col) == umax_avail(order_tier(k)) && col < a.counts(
        order_tier(k),
    ));
    assert forall|v: int| 0 <= v <= bl implies #[trigger] a.avail_of(
        v,
        f / (pow4(v as nat) as int),
    ) == umax_avail(v) && f / (pow4(v as nat) as int) < a.counts(v) by {
        lemma_block_frame_low(a, bl, col, f, v);
    }
    assert(pow4(0) == 1);
    assert(f / 1int == f) by (nonlinear_arith);
    lemma_block_frame_low(a, bl, col, f, 0);
    assert(f < a.counts(0));
    assert forall|v: int|
        1 <= v <= a.top() implies (#[trigger] a.avail_of(v, f / (pow4(v as nat) as int)) >= 1
        || a.group_consistent(v, f / (pow4(v as nat) as int))) by {
        if v <= bl {
            assert(a.avail_of(v, f / (pow4(v as nat) as int)) == umax_avail(v));
        } else {
            lemma_block_frame_high(c, cols, col, bl, f, v);
        }
    }
    lemma_path_pos_up(a, f, a.top());
}

/// A state whose block columns cache their fully-free value, with a
/// positive-or-consistent chain above, has the whole block free, and the
/// block lies inside the tracked frames.
proof fn lemma_block_free_state(a: BitmapFrameAllocator, b: int, k: int)
    requires
        a.wf(),
        0 <= k <= 10,
        order_tier(k) <= a.top(),
        0 <= b,
        b == (b / (pow4(order_tier(k) as nat) as int)) * pow4(order_tier(k) as nat),
        k % 2 == 1 ==> b % (2 * pow4(order_tier(k) as nat) as int) == 0,
        a.avail_of(order_tier(k), b / (pow4(order_tier(k) as nat) as int)) == umax_avail(
            order_tier(k),
        ),
        b / (pow4(order_tier(k) as nat) as int) < a.counts(order_tier(k)),
        k % 2 == 1 ==> a.avail_of(order_tier(k), b / (pow4(order_tier(k) as nat) as int) + 1)
            == umax_avail(order_tier(k)) && b / (pow4(order_tier(k) as nat) as int) + 1
            < a.counts(order_tier(k)),
        forall|s: int|
            order_tier(k) < s <= a.top() ==> #[trigger] a.avail_of(
                s,
                anc_idx(b / (pow4(order_tier(k) as nat) as int), order_tier(k), s),
            ) >= 1 || a.group_consistent(
                s,
                anc_idx(b / (pow4(order_tier(k) as nat) as int), order_tier(k), s),
            ),
    ensures
        a.block_free(b, k),
        b + pow2k(k as nat) <= a.counts(0),
{
    assert forall|f: int| b <= f < b + pow2k(k as nat) implies #[trigger] a.frame_free(f) by {
        lemma_block_frame_free(a, b, k, f);
    }
    let fl = b + pow2k(k as nat) - 1;
    lemma_pow2k_pos(k as nat);
    assert(b <= fl < b + pow2k(k as nat));
    assert(a.frame_free(fl));
}

/// A state whose block columns cache zero has no frame of the block free.
proof fn lemma_block_used_state(a: BitmapFrameAllocator, b: int, k: int)
    requires
        0 <= k <= 10,
        0 <= order_tier(k) <= a.top(),
        0 <= b,
        b == (b / (pow4(order_tier(k) as nat) as int)) * pow4(order_tier(k) as nat),
        a.avail_of(order_tier(k), b / (pow4(order_tier(k) as nat) as int)) == 0,
        k % 2 == 1 ==> a.avail_of(order_tier(k), b / (pow4(order_tier(k) as nat) as int) + 1)
            == 0,
    ensures
        a.block_used(b, k),
{
    let bl = order_tier(k);
    let p = pow4(bl as nat) as int;
    lemma_pow4_pos(bl as nat);
    lemma_block_cols(k);
    assert(b % p == 0) by (nonlinear_arith)
        requires
            b == (b / p) * p,
            p >= 1,
            b >= 0,
    ;
    let c = b / p;
    assert forall|f: int| b <= f < b + pow2k(k as nat) implies !(#[trigger] a.frame_free(f)) by {
        lemma_block_membership(b, k, f);
        assert(c <= f / p < c + order_cols(k));
        assert(a.avail_of(bl, f / p) == 0);
        if a.frame_free(f) {
            assert(a.avail_of(bl, f / (pow4(bl as nat) as int)) >= 1);
        }
    }
}

/// A frame with a zero on its path whose position is off the block and off
/// the chain stays unfree after the change; a zero on the chain forces a
/// zero further down.
#[verifier::rlimit(100)]
proof fn lemma_broken_transfers(
    pre: BitmapFrameAllocator,
    post: BitmapFrameAllocator,
    b: int,
    k: int,
    f: int,
    v: int,
)
    requires
        pre.wf(),
        pre.same_shape(post),
        0 <= k <= 10,
        order_tier(k) <= pre.top(),
        0 <= b,
        b == (b / (pow4(order_tier(k) as nat) as int)) * pow4(order_tier(k) as nat),
        k % 2 == 1 ==> b % (2 * pow4(order_tier(k) as nat) as int) == 0,
        0 <= f < pre.counts(0),
        !(b <= f < b + pow2k(k as nat)),
        pre.only_block_changed(post, b, k),
        forall|s: int|
            order_tier(k) < s <= pre.top() ==> #[trigger] pre.group_consistent(
                s,
                anc_idx(b / (pow4(order_tier(k) as nat) as int), order_tier(k), s),
            ),
        forall|s: int|
            order_tier(k) < s <= pre.top() ==> !(#[trigger] pre.group_marker(
                s,
                anc_idx(b / (pow4(order_tier(k) as nat) as int), order_tier(k), s),
            )),
        0 <= v <= pre.top(),
        pre.avail_of(v, f / (pow4(v as nat) as int)) == 0,
    ensures
        !post.frame_free(f),
    decreases v,
{
    let bl = order_tier(k);
    let p = pow4(bl as nat) as int;
    let c = b / p;
    let cols = order_cols(k);
    lemma_pow4_pos(bl as nat);
    let gv = f / (pow4(v as nat) as int);
    lemma_anc_in_counts_base(pre, f, v);
    lemma_tier_bounds(pre, v);
    assert(b % p == 0) by (nonlinear_arith)
        requires
            b == c * p,
            p >= 1,
            b >= 0,
    ;
    lemma_block_membership(b, k, f);
    let on_chain = bl < v && gv == anc_idx(c, bl, v);
    let on_cols = v == bl && c <= gv < c + cols;
    if !on_chain && !on_cols {
        assert(post.avail_of(v, gv) == pre.avail_of(v, gv));
        if post.frame_free(f) {
            assert(post.avail_of(v, f / (pow4(v as nat) as int)) >= 1);
        }
    } else if on_cols {
        // the block's own columns are excluded: f would lie in the block
        assert(f / p == gv);
        assert(false);
    } else {
        // a zero chain group is merge-consistent, so its child on f's path
        // is zero too
        let gc = f / (pow4((v - 1) as nat) as int);
        lemma_anc_in_counts_base(pre, f, v - 1);
        lemma_tier_bounds(pre, v - 1);
        lemma_anc_step(f, 0, v - 1);
        assert(4 * gv <= gc < 4 * gv + 4) by (nonlinear_arith)
            requires
                gc / 4 == gv,
                gc >= 0,
        ;
        assert(pre.group_consistent(v, gv));
        reveal(BitmapFrameAllocator::group_consistent);
        lemma_avail_nonneg(pre, v - 1, 4 * gv);
        lemma_avail_nonneg(pre, v - 1, 4 * gv + 1);
        lemma_avail_nonneg(pre, v - 1, 4 * gv + 2);
        lemma_avail_nonneg(pre, v - 1, 4 * gv + 3);
        lemma_merge_zero(
            v,
            pre.avail_of(v - 1, 4 * gv),
            pre.avail_of(v - 1, 4 * gv + 1),
            pre.avail_of(v - 1, 4 * gv + 2),
            pre.avail_of(v - 1, 4 * gv + 3),
        );
        assert(pre.avail_of(v - 1, gc) == 0);
        lemma_broken_transfers(pre, post, b, k, f, v - 1);
    }
}

/// Frames outside the block keep their freeness across the change.
#[verifier::rlimit(100)]
proof fn lemma_outside_preserved(
    pre: BitmapFrameAllocator,
    post: BitmapFrameAllocator,
    b: int,
    k: int,
)
    requires
        pre.wf(),
        post.struct_wf(),
        post.avail_wf(),
        pre.same_shape(post),
        0 <= k <= 10,
        order_tier(k) <= pre.top(),
        0 <= b,
        b == (b / (pow4(order_tier(k) as nat) as int)) * pow4(order_tier(k) as nat),
        k % 2 == 1 ==> b % (2 * pow4(order_tier(k) as nat) as int) == 0,
        pre.only_block_changed(post, b, k),
        post.block_chain_consistent(b, k),
        forall|s: int|
            order_tier(k) < s <= pre.top() ==> #[trigger] pre.group_consistent(
                s,
                anc_idx(b / (pow4(order_tier(k) as nat) as int), order_tier(k), s),
            ),
        forall|s: int|
            order_tier(k) < s <= pre.top() ==> !(#[trigger] pre.group_marker(
                s,
                anc_idx(b / (pow4(order_tier(k) as nat) as int), order_tier(k), s),
            )),
    ensures
        forall|f: int|
            !(b <= f < b + pow2k(k as nat)) ==> (#[trigger] post.frame_free(f) == pre.frame_free(
                f,
            )),
{
    let bl = order_tier(k);
    let p = pow4(bl as nat) as int;
    let c = b / p;
    let cols = order_cols(k);
    lemma_pow4_pos(bl as nat);
    assert(b % p == 0) by (nonlinear_arith)
        requires
            b == c * p,
            p >= 1,
            b >= 0,
    ;
    assert forall|f: int|
        !(b <= f < b + pow2k(k as nat)) implies (#[trigger] post.frame_free(f) == pre.frame_free(
        f,
    )) by {
        if 0 <= f < pre.counts(0) {
            lemma_block_membership(b, k, f);
            if pre.frame_free(f) {
                // every unchanged position stays positive; chain positions
                // are re-merged consistently
                assert(pow4(0) == 1);
                assert(f / 1int == f) by (nonlinear_arith);
                assert forall|v: int|
                    0 <= v <= pre.top() implies (#[trigger] post.avail_of(
                    v,
                    f / (pow4(v as nat) as int),
                ) >= 1 || (v >= 1 && post.group_consistent(v, f / (pow4(v as nat) as int)))) by {
                    let gv = f / (pow4(v as nat) as int);
                    lemma_anc_in_counts_base(pre, f, v);
                    lemma_tier_bounds(pre, v);
                    if bl < v && gv == anc_idx(c, bl, v) {
                        assert(post.group_consistent(v, gv));
                    } else {
                        assert(!(v == bl && c <= gv < c + cols)) by {
                            if v == bl && c <= gv < c + cols {
                                assert(f / p == gv);
                            }
                        }
                        assert(post.avail_of(v, gv) == pre.avail_of(v, gv));
                    }
                }
                let ghost v0: int = 0;
                assert(post.avail_of(v0, f / (pow4(v0 as nat) as int)) >= 1 || (v0 >= 1
                    && post.group_consistent(v0, f / (pow4(v0 as nat) as int))));
                assert(pow4(0) == 1);
                assert(f / 1int == f) by (nonlinear_arith);
                lemma_path_pos_up(post, f, post.top());
                assert(post.frame_free(f));
            } else {
                // some tier on f's path is zero; that zero survives below
                // the re-merged chain
                let v = choose|v: int|
                    0 <= v <= pre.top() && #[trigger] pre.avail_of(
                        v,
                        f / (pow4(v as nat) as int),
                    ) < 1;
                lemma_avail_nonneg(pre, v, f / (pow4(v as nat) as int));
                lemma_broken_transfers(pre, post, b, k, f, v);
            }
        } else {
            if post.frame_free(f) {
            }
            if pre.frame_free(f) {
            }
        }
    }
}

impl BitmapFrameAllocator {
    /// Allocates a contiguous order-`order` block of physical frames.
    ///
    /// Locates a group whose cached Avail satisfies the order, marks it (or,
    /// for odd orders, its matched buddy pair one tier down) empty, and
    /// re-merges the ancestors. Returns the block's first frame address, or
    /// `None`, leaving the state untouched, exactly when no fully free,
    /// aligned block of that order exists anywhere (or the order exceeds the
    /// populated tiers).
    /// Allocates a contiguous order-`order` block of physical frames.
    ///
    /// Locates a group whose cached Avail satisfies the order, marks it (or,
    /// for odd orders, its matched buddy pair one tier down) empty, and
    /// re-merges the ancestors. Returns the block's first frame address, or
    /// `None`, leaving the state untouched, exactly when no fully free,
    /// aligned block of that order exists anywhere (or the order exceeds the
    /// populated tiers).
    pub fn alloc_frame(&mut self, order: FrameOrder) -> (r: Option<FrameAddr>)
        requires
            old(self).wf(),
            order.wf(),
        ensures
            final(self).wf(),
            old(self).same_shape(*final(self)),
            match r {
                Option::None => *final(self) == *old(self) && ((order.0 + 1) as int / 2
                    > old(self).top() || !old(self).has_free_block(order.0 as int)),
                Option::Some(addr) => {
                    &&& addr.paddr() % 0x1000 == 0
                    &&& addr.paddr() < 0x10_0000_0000_0000
                    &&& ((order.0 + 1) / 2) as int <= old(self).top()
                    &&& old(self).alloc_post(*final(self), addr.paddr() / 0x1000, order.0 as int)
                },
            },
    {
        let ghost k = order.0 as int;
        let size = order.group_size();
        if size.0 > self.max_group_size.0 {
            return None;
        }
        let req = order.free_avail();
        let found = self.find_group_of_size_with_avail(size, req);
        let idx = match found {
            Some(i) => i,
            None => {
                proof {
                    lemma_no_top_no_block(*self, k);
                }
                return None;
            },
        };
        if order.is_single_group() {
            Some(self.alloc_found_single(order, idx))
        } else {
            Some(self.alloc_found_pair(order, idx))
        }
    }

    /// Takes the whole found group for an even order.
    #[verifier::rlimit(100)]
    #[verifier::spinoff_prover]
    fn alloc_found_single(&mut self, order: FrameOrder, idx: usize) -> (addr: FrameAddr)
        requires
            old(self).wf(),
            order.wf(),
            (order.0 as int) % 2 == 0,
            ((order.0 + 1) / 2) as int <= old(self).top(),
            (idx as int) < old(self).counts(((order.0 + 1) / 2) as int),
            old(self).avail_of(((order.0 + 1) / 2) as int, idx as int) >= order.0 + 1,
            forall|s: int|
                (((order.0 + 1) / 2) as int) < s && s <= old(self).top() ==> #[trigger] old(
                    self,
                ).avail_of(s, anc_idx(idx as int, ((order.0 + 1) / 2) as int, s)) >= order.0 + 1,
        ensures
            final(self).wf(),
            old(self).same_shape(*final(self)),
            addr.paddr() % 0x1000 == 0,
            addr.paddr() < 0x10_0000_0000_0000,
            old(self).alloc_post(*final(self), addr.paddr() / 0x1000, order.0 as int),
    {
        let ghost k = order.0 as int;
        let size = order.group_size();
        let ghost req = order.0 + 1;
        let ghost pre = *self;
        let ghost g = size.0 as int;

            let ghost bl = g;
            let ghost c = idx as int;
            proof {
                lemma_tier_bounds(pre, g);
                assert(pre.avail_of(bl, c) == umax_avail(bl));
                lemma_found_chain_consistent(pre, g, idx as int, req as int);
                assert forall|s: int|
                    g < s <= pre.top() implies #[trigger] pre.avail_of(
                    s,
                    anc_idx(idx as int, g, s),
                ) >= 1 by {
                    assert(pre.avail_of(s, anc_idx(idx as int, g, s)) >= req);
                }
            }
            self.set_group_avail(size, idx, Avail::empty());
            let ghost marked = *self;
            proof {
                if bl >= 1 {
                    lemma_marked_col_ok(pre, marked, bl, c, 1, c);
                }
                lemma_repair_pre(pre, marked, bl, c, 1);
                lemma_avail_wf_update(pre, marked, bl, c);
            }
            self.update_all_parents(size, idx);
            proof {
                lemma_counts_cover(*self, g);
                lemma_block_cols(k);
                lemma_pow4_pos(g as nat);
                assert((idx as int) * pow2k(k as nat) <= self.counts(0) + pow2k(k as nat))
                    by (nonlinear_arith)
                    requires
                        0 <= idx as int,
                        (idx as int) < self.counts(g),
                        pow4(g as nat) * self.counts(g) <= self.counts(0) + pow4(g as nat) - 1,
                        pow2k(k as nat) == 1 * pow4(g as nat),
                        pow4(g as nat) >= 1,
                ;
            }
            let b64 = self.frame_index_of(idx, order);
            proof {
                lemma_block_cols(k);
                lemma_pow4_pos(bl as nat);
                assert(b64 as int == c * pow4(bl as nat)) by (nonlinear_arith)
                    requires
                        b64 as int == c * pow2k(k as nat),
                        pow2k(k as nat) == 1 * pow4(bl as nat),
                ;
                lemma_alloc_assemble(pre, marked, *self, b64 as int, c, k);
                lemma_pow2k_pos(k as nat);
                assert((b64 as int) * 0x1000 < 0x10_0000_0000_0000) by (nonlinear_arith)
                    requires
                        b64 as int + pow2k(k as nat) <= 0x100_0000_0000,
                        pow2k(k as nat) >= 1,
                        b64 as int >= 0,
                ;
            }
            let addr_result = FrameAddr::at_index(b64);
        addr_result
    }

    /// Takes a fully free buddy pair below the found group for an odd order.
    #[verifier::rlimit(100)]
    #[verifier::spinoff_prover]
    fn alloc_found_pair(&mut self, order: FrameOrder, idx: usize) -> (addr: FrameAddr)
        requires
            old(self).wf(),
            order.wf(),
            (order.0 as int) % 2 == 1,
            ((order.0 + 1) / 2) as int <= old(self).top(),
            (idx as int) < old(self).counts(((order.0 + 1) / 2) as int),
            old(self).avail_of(((order.0 + 1) / 2) as int, idx as int) >= order.0 + 1,
            forall|s: int|
                (((order.0 + 1) / 2) as int) < s && s <= old(self).top() ==> #[trigger] old(
                    self,
                ).avail_of(s, anc_idx(idx as int, ((order.0 + 1) / 2) as int, s)) >= order.0 + 1,
        ensures
            final(self).wf(),
            old(self).same_shape(*final(self)),
            addr.paddr() % 0x1000 == 0,
            addr.paddr() < 0x10_0000_0000_0000,
            old(self).alloc_post(*final(self), addr.paddr() / 0x1000, order.0 as int),
    {
        let ghost k = order.0 as int;
        let size = order.group_size();
        let ghost req = order.0 + 1;
        let ghost pre = *self;
        let ghost g = size.0 as int;

            let sub = size.sub_size();
            let req_sub = sub.max_avail();
            let subs = self.get_sub_group_avails(size, idx);
            let sub_idx: usize = if subs[0].0 == req_sub.0 && subs[1].0 == req_sub.0 {
                0
            } else {
                1
            };
            let ghost bl = g - 1;
            proof {
                lemma_tier_bounds(pre, g);
                lemma_alloc_pair_full(pre, g, idx as int, k, sub_idx as int);
            }
            let c = 4 * idx + 2 * sub_idx;
            proof {
                assert(pre.avail_of(bl, c as int) == umax_avail(bl));
                assert(pre.avail_of(bl, c as int + 1) == umax_avail(bl));
                assert(c as int + 1 < pre.counts(bl)) by {
                    if c as int + 1 >= pre.counts(bl) {
                        lemma_tier_bounds(pre, g);
                        assert(pre.avail_of(bl, c as int + 1) == 0);
                    }
                }
                lemma_found_chain_consistent(pre, g, idx as int, req as int);
                assert forall|s: int|
                    g < s <= pre.top() implies #[trigger] pre.avail_of(
                    s,
                    anc_idx(idx as int, g, s),
                ) >= 1 by {
                    assert(pre.avail_of(s, anc_idx(idx as int, g, s)) >= req);
                }
                assert((c as int) / 4 == idx as int) by (nonlinear_arith)
                    requires
                        c as int == 4 * (idx as int) + 2 * (sub_idx as int),
                        sub_idx as int == 0 || sub_idx as int == 1,
                        idx as int >= 0,
                ;
                lemma_chain_to_pair(pre, g, idx as int, c as int, req as int);
            }
            self.mark_pair_empty(sub, c);
            let ghost marked = *self;
            proof {
                assert(c as int % 4 == 0 || c as int % 4 == 2) by (nonlinear_arith)
                    requires
                        c as int == 4 * (idx as int) + 2 * (sub_idx as int),
                        sub_idx as int == 0 || sub_idx as int == 1,
                        idx as int >= 0,
                ;
                if bl >= 1 {
                    lemma_marked_col_ok(pre, marked, bl, c as int, 2, c as int);
                    lemma_marked_col_ok(pre, marked, bl, c as int, 2, c as int + 1);
                }
                lemma_repair_pre(pre, marked, bl, c as int, 2);
            }
            self.update_all_parents(sub, c);
            let ghost mid = *self;
            proof {
                lemma_second_repair_pre(mid, bl, c as int);
            }
            self.update_all_parents(sub, c + 1);
            proof {
                lemma_counts_cover(*self, bl);
                lemma_block_cols(k);
                lemma_pow4_pos(bl as nat);
                assert((2 * (idx as int) + sub_idx as int) * pow2k(k as nat) <= self.counts(0)
                    + pow2k(k as nat)) by (nonlinear_arith)
                    requires
                        c as int == 4 * (idx as int) + 2 * (sub_idx as int),
                        0 <= c as int,
                        (c as int) < self.counts(bl),
                        pow4(bl as nat) * self.counts(bl) <= self.counts(0) + pow4(bl as nat) - 1,
                        pow2k(k as nat) == 2 * pow4(bl as nat),
                        pow4(bl as nat) >= 1,
                        sub_idx as int == 0 || sub_idx as int == 1,
                ;
            }
            let b64 = self.frame_index_of(2 * idx + sub_idx, order);
            proof {
                lemma_block_cols(k);
                lemma_pow4_pos(bl as nat);
                assert(b64 as int == (c as int) * pow4(bl as nat)) by (nonlinear_arith)
                    requires
                        b64 as int == (2 * (idx as int) + sub_idx as int) * pow2k(k as nat),
                        c as int == 4 * (idx as int) + 2 * (sub_idx as int),
                        pow2k(k as nat) == 2 * pow4(bl as nat),
                ;
                lemma_pair_repairs_compose(marked, mid, *self, bl, c as int);
                lemma_alloc_assemble(pre, marked, *self, b64 as int, c as int, k);
                lemma_pow2k_pos(k as nat);
                assert((b64 as int) * 0x1000 < 0x10_0000_0000_0000) by (nonlinear_arith)
                    requires
                        b64 as int + pow2k(k as nat) <= 0x100_0000_0000,
                        pow2k(k as nat) >= 1,
                        b64 as int >= 0,
                ;
            }
            let addr_result = FrameAddr::at_index(b64);
        addr_result
    }

    /// Marks both halves of a buddy pair empty.
    fn mark_pair_empty(&mut self, sub: GroupSize, c: usize)
        requires
            old(self).struct_wf(),
            old(self).avail_wf(),
            sub.0 < 16,
            (sub.0 as int) <= old(self).top(),
            c as int + 1 < old(self).counts(sub.0 as int),
        ensures
            final(self).struct_wf(),
            final(self).avail_wf(),
            old(self).same_shape(*final(self)),
            final(self).avail_of(sub.0 as int, c as int) == 0,
            final(self).avail_of(sub.0 as int, c as int + 1) == 0,
            forall|s: int, i: int|
                0 <= s < 16 && 0 <= i < final(self).fields(s) && !(s == sub.0 && (i == c as int
                    || i == c as int + 1)) ==> #[trigger] final(self).avail_of(s, i) == old(
                    self,
                ).avail_of(s, i),
    {
        let ghost pre = *self;
        proof {
            lemma_tier_bounds(pre, sub.0 as int);
        }
        self.set_group_avail(sub, c, Avail::empty());
        let ghost m1 = *self;
        self.set_group_avail(sub, c + 1, Avail::empty());
        proof {
            lemma_avail_wf_update(pre, m1, sub.0 as int, c as int);
            lemma_avail_wf_update(m1, *self, sub.0 as int, c as int + 1);
        }
    }

    /// Frees the order-`order` block at `frame`, the inverse of
    /// `alloc_frame`: restores the block's groups to their fully-free values
    /// and re-merges the ancestors.
    ///
    /// The block must currently be recorded as allocated whole at exactly
    /// this order; freeing anything else corrupts the bitmap, so it is ruled
    /// out up front.
    #[verifier::rlimit(100)]
    #[verifier::spinoff_prover]
    pub fn free_frame(&mut self, frame: FrameAddr, order: FrameOrder)
        requires
            old(self).wf(),
            order.wf(),
            ((order.0 + 1) / 2) as int <= old(self).top(),
            old(self).allocated_block(frame.paddr() / 0x1000, order.0 as int),
        ensures
            final(self).wf(),
            old(self).same_shape(*final(self)),
            old(self).free_post(*final(self), frame.paddr() / 0x1000, order.0 as int),
    {
        let ghost k = order.0 as int;
        let ghost pre = *self;
        let fidx = frame.index();
        let size = order.group_size();
        let ghost g = size.0 as int;
        let ghost b = frame.paddr() / 0x1000;
        if order.is_single_group() {
            let ghost bl = g;
            proof {
                lemma_free_prepare(pre, b, k);
                lemma_pow2k_is_pow2(k as nat);
                vstd::bits::lemma_u64_shr_is_div(fidx, order.0 as u64);
                lemma_block_cols(k);
            }
            let idx = (fidx >> order.0 as u64) as usize;
            proof {
                assert(idx as int == b / (pow4(bl as nat) as int));
                lemma_tier_bounds(pre, bl);
            }
            self.set_group_avail(size, idx, order.free_avail());
            let ghost marked = *self;
            proof {
                if bl >= 1 {
                    lemma_freed_col_ok(pre, marked, bl, idx as int, 1, idx as int, k);
                }
                lemma_repair_pre(pre, marked, bl, idx as int, 1);
                lemma_avail_wf_update(pre, marked, bl, idx as int);
            }
            self.update_all_parents(size, idx);
            proof {
                lemma_free_assemble(pre, marked, *self, b, idx as int, k);
            }
        } else {
            let sub = size.sub_size();
            let ghost bl = g - 1;
            proof {
                lemma_free_prepare(pre, b, k);
                lemma_pow2k_is_pow2((k - 1) as nat);
                vstd::bits::lemma_u64_shr_is_div(fidx, (order.0 - 1) as u64);
                lemma_block_cols(k);
                lemma_pow2k_split(k as nat);
            }
            let c = (fidx >> ((order.0 - 1) as u64)) as usize;
            proof {
                assert(c as int == b / (pow4(bl as nat) as int));
                lemma_tier_bounds(pre, bl);
            }
            self.mark_pair_freed(sub, c, Avail(order.0));
            let ghost marked = *self;
            proof {
                lemma_free_pair_parity(pre, b, k);
                if bl >= 1 {
                    lemma_freed_col_ok(pre, marked, bl, c as int, 2, c as int, k);
                    lemma_freed_col_ok(pre, marked, bl, c as int, 2, c as int + 1, k);
                }
                lemma_repair_pre(pre, marked, bl, c as int, 2);
            }
            self.update_all_parents(sub, c);
            let ghost mid = *self;
            proof {
                lemma_second_repair_pre(mid, bl, c as int);
            }
            self.update_all_parents(sub, c + 1);
            proof {
                lemma_pair_repairs_compose(marked, mid, *self, bl, c as int);
                lemma_free_assemble(pre, marked, *self, b, c as int, k);
            }
        }
    }

    /// Restores both halves of a buddy pair to their fully-free value.
    fn mark_pair_freed(&mut self, sub: GroupSize, c: usize, v: Avail)
        requires
            old(self).struct_wf(),
            old(self).avail_wf(),
            sub.0 < 16,
            (sub.0 as int) <= old(self).top(),
            c as int + 1 < old(self).counts(sub.0 as int),
            v.0 == umax_avail(sub.0 as int),
            umax_avail(sub.0 as int) <= full_avail(sub.0 as int),
        ensures
            final(self).struct_wf(),
            final(self).avail_wf(),
            old(self).same_shape(*final(self)),
            final(self).avail_of(sub.0 as int, c as int) == umax_avail(sub.0 as int),
            final(self).avail_of(sub.0 as int, c as int + 1) == umax_avail(sub.0 as int),
            forall|s: int, i: int|
                0 <= s < 16 && 0 <= i < final(self).fields(s) && !(s == sub.0 && (i == c as int
                    || i == c as int + 1)) ==> #[trigger] final(self).avail_of(s, i) == old(
                    self,
                ).avail_of(s, i),
    {
        let ghost pre = *self;
        proof {
            lemma_tier_bounds(pre, sub.0 as int);
        }
        self.set_group_avail(sub, c, v);
        let ghost m1 = *self;
        self.set_group_avail(sub, c + 1, v);
        proof {
            lemma_avail_wf_update(pre, m1, sub.0 as int, c as int);
            lemma_avail_wf_update(m1, *self, sub.0 as int, c as int + 1);
        }
    }

    /// Marks every order-0 frame in `[start, end)` free, bypassing the
    /// upward propagation: initialization only, followed by `update_all`.
    pub fn free_frame_range(&mut self, start: usize, end: usize)
        requires
            old(self).struct_wf(),
            old(self).avail_wf(),
            start <= end,
            (end as int) <= old(self).counts(0),
        ensures
            final(self).struct_wf(),
            final(self).avail_wf(),
            old(self).same_shape(*final(self)),
            forall|f: int|
                start <= f < end ==> #[trigger] final(self).avail_of(0, f) == 1,
            forall|s: int, i: int|
                0 <= s < 16 && 0 <= i < final(self).fields(s) && !(s == 0 && start <= i < end)
                    ==> #[trigger] final(self).avail_of(s, i) == old(self).avail_of(s, i),
    {
        self.set_leaf_range(start, end, Avail(1));
    }

    /// Marks every order-0 frame in `[start, end)` used, bypassing the
    /// upward propagation: initialization only, followed by `update_all`.
    pub fn use_frame_range(&mut self, start: usize, end: usize)
        requires
            old(self).struct_wf(),
            old(self).avail_wf(),
            start <= end,
            (end as int) <= old(self).counts(0),
        ensures
            final(self).struct_wf(),
            final(self).avail_wf(),
            old(self).same_shape(*final(self)),
            forall|f: int|
                start <= f < end ==> #[trigger] final(self).avail_of(0, f) == 0,
            forall|s: int, i: int|
                0 <= s < 16 && 0 <= i < final(self).fields(s) && !(s == 0 && start <= i < end)
                    ==> #[trigger] final(self).avail_of(s, i) == old(self).avail_of(s, i),
    {
        self.set_leaf_range(start, end, Avail(0));
    }

    /// Writes one Avail value over a run of leaves.
    fn set_leaf_range(&mut self, start: usize, end: usize, v: Avail)
        requires
            old(self).struct_wf(),
            old(self).avail_wf(),
            start <= end,
            (end as int) <= old(self).counts(0),
            v.0 <= 1,
        ensures
            final(self).struct_wf(),
            final(self).avail_wf(),
            old(self).same_shape(*final(self)),
            forall|f: int|
                start <= f < end ==> #[trigger] final(self).avail_of(0, f) == v.0,
            forall|s: int, i: int|
                0 <= s < 16 && 0 <= i < final(self).fields(s) && !(s == 0 && start <= i < end)
                    ==> #[trigger] final(self).avail_of(s, i) == old(self).avail_of(s, i),
    {
        let ghost pre = *self;
        let mut f = start;
        proof {
            lemma_tier_bounds(pre, 0);
        }
        while f < end
            invariant
                pre == *old(self),
                self.struct_wf(),
                self.avail_wf(),
                pre.same_shape(*self),
                start <= f <= end,
                (end as int) <= pre.counts(0),
                pre.counts(0) <= pre.fields(0),
                v.0 <= 1,
                forall|f2: int|
                    start <= f2 < f as int ==> #[trigger] self.avail_of(0, f2) == v.0,
                forall|s: int, i: int|
                    0 <= s < 16 && 0 <= i < self.fields(s) && !(s == 0 && start <= i < f as int)
                        ==> #[trigger] self.avail_of(s, i) == pre.avail_of(s, i),
            decreases end - f,
        {
            let ghost before = *self;
            self.set_group_avail(GroupSize(0), f, v);
            proof {
                lemma_avail_wf_update(before, *self, 0, f as int);
            }
            f = f + 1;
        }
    }

    /// Recomputes every non-leaf group's cached Avail bottom-up: used once
    /// after the bulk range initialization, whose writes bypass propagation.
    pub fn update_all(&mut self)
        requires
            old(self).struct_wf(),
            old(self).avail_wf(),
        ensures
            final(self).wf(),
            old(self).same_shape(*final(self)),
            forall|f: int|
                0 <= f < final(self).counts(0) ==> #[trigger] final(self).avail_of(0, f) == old(
                    self,
                ).avail_of(0, f),
            forall|s: int, i: int|
                1 <= s <= final(self).top() && 0 <= i < final(self).counts(s)
                    ==> #[trigger] final(self).group_consistent(s, i),
    {
        let ghost pre = *self;
        let mut size: u8 = 1;
        while size <= self.max_group_size.0
            invariant
                pre == *old(self),
                self.struct_wf(),
                self.avail_wf(),
                pre.same_shape(*self),
                1 <= size as int <= self.top() + 1,
                forall|s: int, i: int|
                    0 <= s < 16 && 0 <= i < self.fields(s) && !(1 <= s < size as int)
                        ==> #[trigger] self.avail_of(s, i) == pre.avail_of(s, i),
                forall|s: int, i: int|
                    1 <= s < size as int && 0 <= i < self.counts(s)
                        ==> #[trigger] self.group_consistent(s, i),
            decreases self.top() + 1 - size as int,
        {
            let gs = GroupSize(size);
            let count = self.group_counts[size as usize];
            let mut idx: usize = 0;
            let ghost level_pre = *self;
            while idx < count
                invariant
                    pre == *old(self),
                    self.struct_wf(),
                    self.avail_wf(),
                    pre.same_shape(*self),
                    level_pre.same_shape(*self),
                    gs.0 == size,
                    1 <= size as int <= self.top(),
                    count == self.counts(size as int),
                    0 <= idx as int <= count as int,
                    forall|s: int, i: int|
                        0 <= s < 16 && 0 <= i < self.fields(s) && !(1 <= s < size as int) && !(s
                            == size as int && 0 <= i < idx as int) ==> #[trigger] self.avail_of(
                            s,
                            i,
                        ) == pre.avail_of(s, i),
                    forall|s: int, i: int|
                        1 <= s < size as int && 0 <= i < self.counts(s)
                            ==> #[trigger] self.group_consistent(s, i),
                    forall|i: int|
                        0 <= i < idx as int ==> #[trigger] self.group_consistent(size as int, i),
                decreases count - idx,
            {
                let ghost before = *self;
                proof {
                    lemma_tier_bounds(*self, size as int);
                }
                self.update_group_avail(gs, idx);
                proof {
                    lemma_avail_wf_update(before, *self, size as int, idx as int);
                    lemma_update_all_step(before, *self, size as int, idx as int);
                    assert forall|s: int, i: int|
                        0 <= s < 16 && 0 <= i < self.fields(s) && !(1 <= s < size as int) && !(s
                            == size as int && 0 <= i < idx as int + 1)
                            implies #[trigger] self.avail_of(s, i) == pre.avail_of(s, i) by {
                        assert(self.avail_of(s, i) == before.avail_of(s, i));
                    }
                }
                idx = idx + 1;
            }
            size = size + 1;
        }
        proof {
            assert forall|s: int, i: int|
                1 <= s <= self.top() && 0 <= i < self.counts(s) implies #[trigger] self.group_ok(
                s,
                i,
            ) by {
                assert(self.group_consistent(s, i));
            }
        }
    }

    /// In a state with no allocated-block markers, such as right after
    /// initialization, a frame is free exactly when its own leaf bit says
    /// so.
    pub proof fn lemma_frame_free_is_leaf(self, f: int)
        requires
            self.wf(),
            forall|s: int, i: int|
                1 <= s <= self.top() && 0 <= i < self.counts(s) ==> #[trigger] self.group_consistent(s, i),
        ensures
            self.frame_free(f) <==> (0 <= f < self.counts(0) && self.avail_of(0, f) == 1),
    {
        if 0 <= f < self.counts(0) && self.avail_of(0, f) == 1 {
            assert forall|v: int|
                1 <= v <= self.top() implies (#[trigger] self.avail_of(
                v,
                f / (pow4(v as nat) as int),
            ) >= 1 || self.group_consistent(v, f / (pow4(v as nat) as int))) by {
                lemma_anc_in_counts_base(self, f, v);
                assert(self.group_consistent(v, f / (pow4(v as nat) as int)));
            }
            assert(pow4(0) == 1);
            assert(f / 1int == f) by (nonlinear_arith);
            lemma_path_pos_up(self, f, self.top());
            assert(self.frame_free(f));
        }
        if self.frame_free(f) {
            assert(pow4(0) == 1);
            assert(f / 1int == f) by (nonlinear_arith);
            let ghost v0: int = 0;
            assert(self.avail_of(v0, f / (pow4(v0 as nat) as int)) >= 1);
            lemma_tier_bounds(self, 0);
            assert(self.avail_of(0, f) <= full_avail(0));
        }
    }

    /// Merge correctness: in every state the allocator's operations produce,
    /// each non-leaf group caches either exactly the merge of its four
    /// children's Avail values, or zero for a block handed out whole while
    /// its subtree still reads fully free.
    pub proof fn lemma_merge_correctness(self, s: int, i: int)
        requires
            self.wf(),
            1 <= s <= self.top(),
            0 <= i < self.counts(s),
        ensures
            self.avail_of(s, i) == merge_spec(
                s,
                self.avail_of(s - 1, 4 * i),
                self.avail_of(s - 1, 4 * i + 1),
                self.avail_of(s - 1, 4 * i + 2),
                self.avail_of(s - 1, 4 * i + 3),
            ) || (self.avail_of(s, i) == 0 && self.avail_of(s - 1, 4 * i) == umax_avail(s - 1)
                && self.avail_of(s - 1, 4 * i + 1) == umax_avail(s - 1) && self.avail_of(
                s - 1,
                4 * i + 2,
            ) == umax_avail(s - 1) && self.avail_of(s - 1, 4 * i + 3) == umax_avail(s - 1)),
    {
        assert(self.group_ok(s, i));
        reveal(BitmapFrameAllocator::group_consistent);
        reveal(BitmapFrameAllocator::group_marker);
    }
}

/// No double allocation: the blocks two allocations return without an
/// intervening free of the first never overlap.
pub proof fn lemma_no_double_allocation(
    s0: BitmapFrameAllocator,
    s1: BitmapFrameAllocator,
    s2: BitmapFrameAllocator,
    b1: int,
    k1: int,
    b2: int,
    k2: int,
)
    requires
        s0.alloc_post(s1, b1, k1),
        s1.alloc_post(s2, b2, k2),
    ensures
        b1 + pow2k(k1 as nat) <= b2 || b2 + pow2k(k2 as nat) <= b1,
{
    if !(b1 + pow2k(k1 as nat) <= b2 || b2 + pow2k(k2 as nat) <= b1) {
        lemma_pow2k_pos(k1 as nat);
        lemma_pow2k_pos(k2 as nat);
        let f = if b1 >= b2 {
            b1
        } else {
            b2
        };
        assert(b1 <= f < b1 + pow2k(k1 as nat));
        assert(b2 <= f < b2 + pow2k(k2 as nat));
        assert(!s1.frame_free(f));
        assert(s1.frame_free(f));
    }
}

impl BitmapFrameAllocator {

    /// The first frame of the `pos`-th order-`order` block, as a number.
    fn frame_index_of(&self, pos: usize, order: FrameOrder) -> (r: u64)
        requires
            self.struct_wf(),
            order.wf(),
            (pos as int) * pow2k(order.0 as nat) <= self.counts(0) + pow2k(order.0 as nat),
        ensures
            r == (pos as int) * pow2k(order.0 as nat),
            r * 0x1000 <= u64::MAX,
    {
        proof {
            lemma_pow2k_is_pow2(order.0 as nat);
            vstd::arithmetic::power2::lemma_pow2_pos(order.0 as nat);
            lemma_pow2k_pos(order.0 as nat);
            reveal_with_fuel(pow2k, 12);
            assert(pow2k(10) == 1024);
            lemma_pow2k_le(order.0 as nat, 10);
            assert((pos as int) * pow2k(order.0 as nat) <= 0x100_0000_0000 + 1024);
            assert((pos as int) * pow2k(order.0 as nat) >= 0) by (nonlinear_arith)
                requires
                    pos as int >= 0,
                    pow2k(order.0 as nat) >= 1,
            ;
            vstd::bits::lemma_u64_shl_is_mul(pos as u64, order.0 as u64);
        }
        (pos as u64) << (order.0 as u64)
    }
}

/// The found group's ancestors are merge-consistent and no allocated-block
/// markers: the descent only passes groups with positive cached Avail.
proof fn lemma_found_chain_consistent(a: BitmapFrameAllocator, g: int, idx: int, req: int)
    requires
        a.wf(),
        0 <= g <= a.top(),
        0 <= idx < a.counts(g),
        req >= 1,
        a.avail_of(g, idx) >= req,
        forall|s: int|
            g < s <= a.top() ==> #[trigger] a.avail_of(s, anc_idx(idx, g, s)) >= req,
    ensures
        forall|s: int|
            g < s <= a.top() ==> #[trigger] a.group_consistent(s, anc_idx(idx, g, s)),
        forall|s: int|
            g < s <= a.top() ==> !(#[trigger] a.group_marker(s, anc_idx(idx, g, s))),
        g >= 1 ==> a.group_consistent(g, idx) && !a.group_marker(g, idx),
    decreases 0int,
{
    assert forall|s: int|
        g < s <= a.top() implies (#[trigger] a.group_consistent(s, anc_idx(idx, g, s))
        && !a.group_marker(s, anc_idx(idx, g, s))) by {
        lemma_anc_in_counts(a, idx, g, s);
        assert(a.group_ok(s, anc_idx(idx, g, s)));
        assert(a.avail_of(s, anc_idx(idx, g, s)) >= req);
        reveal(BitmapFrameAllocator::group_marker);
    }
    assert forall|s: int|
        g < s <= a.top() implies !(#[trigger] a.group_marker(s, anc_idx(idx, g, s))) by {
        assert(a.group_consistent(s, anc_idx(idx, g, s)));
    }
    if g >= 1 {
        assert(a.group_ok(g, idx));
        reveal(BitmapFrameAllocator::group_marker);
    }
}

/// The pair chain: the ancestors of the marked buddy pair coincide with the
/// found group's own chain, and are consistent.
#[verifier::rlimit(100)]
#[verifier::spinoff_prover]
proof fn lemma_chain_to_pair(a: BitmapFrameAllocator, g: int, idx: int, c: int, req: int)
    requires
        a.wf(),
        1 <= g <= a.top(),
        0 <= idx < a.counts(g),
        req >= 1,
        a.avail_of(g, idx) >= req,
        c / 4 == idx,
        c >= 0,
        forall|s: int|
            g < s <= a.top() ==> #[trigger] a.group_consistent(s, anc_idx(idx, g, s)),
        forall|s: int|
            g < s <= a.top() ==> !(#[trigger] a.group_marker(s, anc_idx(idx, g, s))),
        forall|s: int|
            g < s <= a.top() ==> #[trigger] a.avail_of(s, anc_idx(idx, g, s)) >= 1,
        a.group_consistent(g, idx) && !a.group_marker(g, idx),
    ensures
        forall|s: int|
            g - 1 < s <= a.top() ==> #[trigger] a.group_consistent(s, anc_idx(c, g - 1, s)),
        forall|s: int|
            g - 1 < s <= a.top() ==> !(#[trigger] a.group_marker(s, anc_idx(c, g - 1, s))),
        forall|s: int|
            g - 1 < s <= a.top() ==> #[trigger] a.avail_of(s, anc_idx(c, g - 1, s)) >= 1,
{
    assert forall|s: int|
        g - 1 < s <= a.top() implies (#[trigger] a.group_consistent(s, anc_idx(c, g - 1, s))
        && !a.group_marker(s, anc_idx(c, g - 1, s)) && a.avail_of(s, anc_idx(c, g - 1, s))
        >= 1) by {
        lemma_anc_chain_shift(c, g - 1, s);
        if s == g {
            assert(pow4(0) == 1);
            assert(idx / 1int == idx) by (nonlinear_arith);
            assert(anc_idx(c, g - 1, g) == idx);
            assert(a.avail_of(g, idx) >= 1);
        } else {
            assert(anc_idx(c, g - 1, s) == anc_idx(idx, g, s));
            assert(a.group_consistent(s, anc_idx(idx, g, s)));
            assert(!a.group_marker(s, anc_idx(idx, g, s)));
            assert(a.avail_of(s, anc_idx(idx, g, s)) >= 1);
        }
        assert(a.group_consistent(s, anc_idx(c, g - 1, s)));
        assert(!a.group_marker(s, anc_idx(c, g - 1, s)));
        assert(a.avail_of(s, anc_idx(c, g - 1, s)) >= 1);
    }
    assert forall|s: int|
        g - 1 < s <= a.top() implies !(#[trigger] a.group_marker(s, anc_idx(c, g - 1, s))) by {
        assert(a.group_consistent(s, anc_idx(c, g - 1, s)));
    }
    assert forall|s: int|
        g - 1 < s <= a.top() implies #[trigger] a.avail_of(s, anc_idx(c, g - 1, s)) >= 1 by {
        assert(a.group_consistent(s, anc_idx(c, g - 1, s)));
    }
}

/// An odd order's found group has the chosen buddy pair fully free: its
/// cached Avail admits the order only through a fully free half.
proof fn lemma_alloc_pair_full(a: BitmapFrameAllocator, g: int, idx: int, k: int, sub_idx: int)
    requires
        a.wf(),
        1 <= g <= a.top(),
        0 <= idx < a.counts(g),
        k == 2 * g - 1,
        1 <= k <= 10,
        a.avail_of(g, idx) >= k + 1,
        sub_idx == 0 || sub_idx == 1,
        sub_idx == 0 ==> a.avail_of(g - 1, 4 * idx) == umax_avail(g - 1) && a.avail_of(
            g - 1,
            4 * idx + 1,
        ) == umax_avail(g - 1),
        sub_idx == 1 ==> !(a.avail_of(g - 1, 4 * idx) == umax_avail(g - 1) && a.avail_of(
            g - 1,
            4 * idx + 1,
        ) == umax_avail(g - 1)),
    ensures
        a.avail_of(g - 1, 4 * idx + 2 * sub_idx) == umax_avail(g - 1),
        a.avail_of(g - 1, 4 * idx + 2 * sub_idx + 1) == umax_avail(g - 1),
    decreases 0int,
{
    lemma_tier_bounds(a, g);
    lemma_tier_bounds(a, g - 1);
    assert(a.group_ok(g, idx));
    reveal(BitmapFrameAllocator::group_marker);
    reveal(BitmapFrameAllocator::group_consistent);
    let ghost j0: int = 0;
    let b0 = a.avail_of(g - 1, 4 * idx);
    let b1 = a.avail_of(g - 1, 4 * idx + 1);
    let b2 = a.avail_of(g - 1, 4 * idx + 2);
    let b3 = a.avail_of(g - 1, 4 * idx + 3);
    assert(b0 <= full_avail(g - 1) && b1 <= full_avail(g - 1) && b2 <= full_avail(g - 1) && b3
        <= full_avail(g - 1));
}

/// A rewritten block column whose subtree still reads fully free is an
/// allocated-block marker.
proof fn lemma_marked_col_ok(
    pre: BitmapFrameAllocator,
    now: BitmapFrameAllocator,
    bl: int,
    cfirst: int,
    cols: int,
    col: int,
)
    requires
        pre.wf(),
        now.struct_wf(),
        pre.same_shape(now),
        1 <= bl <= pre.top(),
        cols == 1 || cols == 2,
        cfirst <= col < cfirst + cols,
        0 <= cfirst,
        col < pre.counts(bl),
        pre.avail_of(bl, col) == umax_avail(bl),
        now.avail_of(bl, col) == 0,
        forall|s: int, i: int|
            0 <= s < 16 && 0 <= i < now.fields(s) && !(s == bl && cfirst <= i < cfirst + cols)
                ==> #[trigger] now.avail_of(s, i) == pre.avail_of(s, i),
    ensures
        now.group_marker(bl, col),
        now.group_ok(bl, col),
    decreases 0int,
{
    lemma_tier_bounds(pre, bl);
    lemma_tier_bounds(pre, bl - 1);
    assert forall|j: int| 0 <= j < 4 implies #[trigger] now.avail_of(bl - 1, 4 * col + j)
        == umax_avail(bl - 1) by {
        assert((4 * col + j) / 4 == col) by (nonlinear_arith)
            requires
                0 <= j < 4,
                col >= 0,
        ;
        assert(pow4(0) == 1);
        assert(pow4(1) == 4);
        assert(anc_idx(4 * col + j, bl - 1, bl) == col);
        lemma_full_group_descends(pre, bl, col, bl - 1, 4 * col + j);
        assert(now.avail_of(bl - 1, 4 * col + j) == pre.avail_of(bl - 1, 4 * col + j));
    }
    let ghost j0: int = 0;
    assert(now.avail_of(bl - 1, 4 * col + j0) == umax_avail(bl - 1));
    assert(now.avail_of(bl - 1, 4 * col) == umax_avail(bl - 1));
    assert(now.avail_of(bl - 1, 4 * col + 1) == umax_avail(bl - 1));
    assert(now.avail_of(bl - 1, 4 * col + 2) == umax_avail(bl - 1));
    assert(now.avail_of(bl - 1, 4 * col + 3) == umax_avail(bl - 1));
    reveal(BitmapFrameAllocator::group_marker);
}

/// Assembles the allocation relation from the marking and repair steps.
#[verifier::rlimit(100)]
#[verifier::spinoff_prover]
proof fn lemma_alloc_assemble(
    pre: BitmapFrameAllocator,
    marked: BitmapFrameAllocator,
    post: BitmapFrameAllocator,
    b: int,
    c: int,
    k: int,
)
    requires
        pre.wf(),
        marked.struct_wf(),
        post.wf(),
        pre.same_shape(marked),
        marked.same_shape(post),
        0 <= k <= 10,
        order_tier(k) <= pre.top(),
        0 <= c,
        c + order_cols(k) <= pre.counts(order_tier(k)),
        order_cols(k) == 2 ==> c % 4 == 0 || c % 4 == 2,
        b == c * pow4(order_tier(k) as nat),
        pre.avail_of(order_tier(k), c) == umax_avail(order_tier(k)),
        k % 2 == 1 ==> pre.avail_of(order_tier(k), c + 1) == umax_avail(order_tier(k)),
        marked.avail_of(order_tier(k), c) == 0,
        k % 2 == 1 ==> marked.avail_of(order_tier(k), c + 1) == 0,
        forall|s: int, i: int|
            0 <= s < 16 && 0 <= i < marked.fields(s) && !(s == order_tier(k) && c <= i < c
                + order_cols(k)) ==> #[trigger] marked.avail_of(s, i) == pre.avail_of(s, i),
        forall|s: int, i: int|
            0 <= s < 16 && 0 <= i < post.fields(s) && !(order_tier(k) < s <= post.top() && i
                == anc_idx(c, order_tier(k), s)) ==> #[trigger] post.avail_of(s, i)
                == marked.avail_of(s, i),
        forall|s: int|
            order_tier(k) < s <= post.top() ==> #[trigger] post.group_consistent(
                s,
                anc_idx(c, order_tier(k), s),
            ),
        forall|s: int|
            order_tier(k) < s <= pre.top() ==> #[trigger] pre.group_consistent(
                s,
                anc_idx(c, order_tier(k), s),
            ),
        forall|s: int|
            order_tier(k) < s <= pre.top() ==> !(#[trigger] pre.group_marker(
                s,
                anc_idx(c, order_tier(k), s),
            )),
        forall|s: int|
            order_tier(k) < s <= pre.top() ==> #[trigger] pre.avail_of(
                s,
                anc_idx(c, order_tier(k), s),
            ) >= 1,
    ensures
        pre.alloc_post(post, b, k),
        b == b / (pow4(order_tier(k) as nat) as int) * pow4(order_tier(k) as nat),
        b + pow2k(k as nat) <= pre.counts(0),
{
    let bl = order_tier(k);
    let p = pow4(bl as nat) as int;
    let cols = order_cols(k);
    lemma_pow4_pos(bl as nat);
    lemma_block_cols(k);
    assert(b / p == c && b % p == 0) by (nonlinear_arith)
        requires
            b == c * p,
            p >= 1,
            c >= 0,
    ;
    if cols == 2 {
        let m = c / 2;
        lemma_fundamental_div_mod(c, 2);
        assert(b == (2 * p) * m) by (nonlinear_arith)
            requires
                b == c * p,
                c == 2 * m,
        ;
        vstd::arithmetic::div_mod::lemma_mod_multiples_basic(m, 2 * p);
        assert(pow2k(k as nat) == 2 * p);
        assert(b % (pow2k(k as nat) as int) == 0);
    } else {
        assert(pow2k(k as nat) == p);
        assert(b % (pow2k(k as nat) as int) == 0);
    }
    // the columns in the final state still cache zero
    lemma_tier_bounds(pre, bl);
    assert(marked.fields(bl) == pre.fields(bl) && post.fields(bl) == pre.fields(bl));
    assert(post.avail_of(bl, c) == marked.avail_of(bl, c));
    assert(post.avail_of(bl, c) == 0);
    if k % 2 == 1 {
        assert(post.avail_of(bl, c + 1) == marked.avail_of(bl, c + 1));
        assert(post.avail_of(bl, c + 1) == 0);
    }
    // composed change: columns plus ancestor chain
    assert forall|s: int, i: int|
        0 <= s < 16 && 0 <= i < pre.fields(s) && !(s == bl && c <= i < c + cols) && !(bl < s
            <= pre.top() && i == anc_idx(c, bl, s)) implies #[trigger] post.avail_of(s, i)
        == pre.avail_of(s, i) by {
        assert(marked.avail_of(s, i) == pre.avail_of(s, i));
    }
    // the block was free beforehand
    lemma_block_free_state(pre, b, k);
    // and is wholly unavailable now
    lemma_block_used_state(post, b, k);
    // the final state records the block as allocated
    if bl >= 1 {
        assert(post.group_marker(bl, c) && (k % 2 == 1 ==> post.group_marker(bl, c + 1))) by {
            assert forall|col: int| c <= col < c + cols implies #[trigger] post.group_marker(
                bl,
                col,
            ) by {
                lemma_tier_bounds(pre, bl);
                lemma_tier_bounds(pre, bl - 1);
                assert forall|j: int| 0 <= j < 4 implies #[trigger] post.avail_of(
                    bl - 1,
                    4 * col + j,
                ) == umax_avail(bl - 1) by {
                    assert((4 * col + j) / 4 == col) by (nonlinear_arith)
                        requires
                            0 <= j < 4,
                            col >= 0,
                    ;
                    assert(pow4(0) == 1);
                    assert(pow4(1) == 4);
                    assert(anc_idx(4 * col + j, bl - 1, bl) == col);
                    lemma_full_group_descends(pre, bl, col, bl - 1, 4 * col + j);
                    assert(marked.avail_of(bl - 1, 4 * col + j) == pre.avail_of(
                        bl - 1,
                        4 * col + j,
                    ));
                    assert(post.avail_of(bl - 1, 4 * col + j) == marked.avail_of(
                        bl - 1,
                        4 * col + j,
                    ));
                }
                let ghost j0: int = 0;
                assert(post.avail_of(bl - 1, 4 * col + j0) == umax_avail(bl - 1));
                assert(post.avail_of(bl - 1, 4 * col) == umax_avail(bl - 1));
                assert(post.avail_of(bl - 1, 4 * col + 1) == umax_avail(bl - 1));
                assert(post.avail_of(bl - 1, 4 * col + 2) == umax_avail(bl - 1));
                assert(post.avail_of(bl - 1, 4 * col + 3) == umax_avail(bl - 1));
                assert(post.avail_of(bl, col) == 0);
                reveal(BitmapFrameAllocator::group_marker);
            }
        }
    }
    assert(b / p == c);
    assert forall|s: int|
        order_tier(k) < s <= pre.top() implies #[trigger] pre.group_consistent(
        s,
        anc_idx(b / (pow4(order_tier(k) as nat) as int), order_tier(k), s),
    ) by {
        assert(pre.group_consistent(s, anc_idx(c, order_tier(k), s)));
    }
    assert forall|s: int|
        order_tier(k) < s <= pre.top() implies !(#[trigger] pre.group_marker(
        s,
        anc_idx(b / (pow4(order_tier(k) as nat) as int), order_tier(k), s),
    )) by {
        assert(!pre.group_marker(s, anc_idx(c, order_tier(k), s)));
    }
    // frames outside the block keep their freeness
    lemma_outside_preserved(pre, post, b, k);
}

/// `pow2k` is monotone.
proof fn lemma_pow2k_le(a: nat, c: nat)
    requires
        a <= c,
    ensures
        pow2k(a) <= pow2k(c),
    decreases c,
{
    if a < c {
        lemma_pow2k_le(a, (c - 1) as nat);
        lemma_pow2k_pos((c - 1) as nat);
    }
}

/// Two repairs over the two halves of a buddy pair touch only their shared
/// ancestor chain, and leave it consistent.
proof fn lemma_pair_repairs_compose(
    marked: BitmapFrameAllocator,
    mid: BitmapFrameAllocator,
    post: BitmapFrameAllocator,
    bl: int,
    c: int,
)
    requires
        marked.same_shape(mid),
        mid.same_shape(post),
        0 <= c,
        c % 4 == 0 || c % 4 == 2,
        0 <= bl,
        forall|s: int, i: int|
            0 <= s < 16 && 0 <= i < mid.fields(s) && !(bl < s <= mid.top() && i == anc_idx(
                c,
                bl,
                s,
            )) ==> #[trigger] mid.avail_of(s, i) == marked.avail_of(s, i),
        forall|s: int, i: int|
            0 <= s < 16 && 0 <= i < post.fields(s) && !(bl < s <= post.top() && i == anc_idx(
                c + 1,
                bl,
                s,
            )) ==> #[trigger] post.avail_of(s, i) == mid.avail_of(s, i),
        forall|s: int|
            bl < s <= post.top() ==> #[trigger] post.group_consistent(s, anc_idx(c + 1, bl, s)),
    ensures
        forall|s: int, i: int|
            0 <= s < 16 && 0 <= i < post.fields(s) && !(bl < s <= post.top() && i == anc_idx(
                c,
                bl,
                s,
            )) ==> #[trigger] post.avail_of(s, i) == marked.avail_of(s, i),
        forall|s: int|
            bl < s <= post.top() ==> #[trigger] post.group_consistent(s, anc_idx(c, bl, s)),
{
    assert forall|s: int, i: int|
        0 <= s < 16 && 0 <= i < post.fields(s) && !(bl < s <= post.top() && i == anc_idx(
            c,
            bl,
            s,
        )) implies #[trigger] post.avail_of(s, i) == marked.avail_of(s, i) by {
        if bl < s <= post.top() {
            lemma_anc_same_pair(c, bl, s);
        }
        assert(mid.avail_of(s, i) == marked.avail_of(s, i));
        assert(post.avail_of(s, i) == mid.avail_of(s, i));
    }
    assert forall|s: int|
        bl < s <= post.top() implies #[trigger] post.group_consistent(s, anc_idx(c, bl, s)) by {
        lemma_anc_same_pair(c, bl, s);
        assert(post.group_consistent(s, anc_idx(c + 1, bl, s)));
    }
}

/// After the first half of a buddy pair is repaired the state is wf again,
/// so the second repair's preconditions hold for the other half.
proof fn lemma_second_repair_pre(mid: BitmapFrameAllocator, bl: int, c: int)
    requires
        mid.wf(),
        0 <= bl,
        0 <= c,
        c % 4 == 0 || c % 4 == 2,
        forall|s: int|
            bl < s <= mid.top() ==> #[trigger] mid.group_consistent(s, anc_idx(c, bl, s)),
    ensures
        forall|s: int|
            bl + 2 <= s <= mid.top() ==> #[trigger] mid.group_consistent(
                s,
                anc_idx(c + 1, bl, s),
            ),
        forall|s: int, i: int|
            1 <= s <= mid.top() && 0 <= i < mid.counts(s) && !(s == bl + 1 && i == (c + 1) / 4)
                ==> #[trigger] mid.group_ok(s, i),
{
    assert forall|s: int|
        bl + 2 <= s <= mid.top() implies #[trigger] mid.group_consistent(
        s,
        anc_idx(c + 1, bl, s),
    ) by {
        lemma_anc_same_pair(c, bl, s);
    }
}

/// `pow2k(k) == 2 * pow2k(k - 1)` for positive `k`, spelled out for odd
/// orders.
proof fn lemma_pow2k_split(k: nat)
    requires
        k >= 1,
    ensures
        pow2k(k) == 2 * pow2k((k - 1) as nat),
{
}

/// The geometry and chain facts a free needs, from the allocated-block
/// record alone: the block's columns are in range, its address is exact, and
/// no ancestor is itself an allocated-block marker.
#[verifier::rlimit(100)]
proof fn lemma_free_prepare(pre: BitmapFrameAllocator, b: int, k: int)
    requires
        pre.wf(),
        0 <= k <= 10,
        ((k + 1) / 2) <= pre.top(),
        pre.allocated_block(b, k),
    ensures
        b == (b / (pow4(order_tier(k) as nat) as int)) * pow4(order_tier(k) as nat),
        k % 2 == 1 ==> b % (2 * pow4(order_tier(k) as nat) as int) == 0,
        b / (pow4(order_tier(k) as nat) as int) + order_cols(k) <= pre.counts(order_tier(k)),
        0 <= b / (pow4(order_tier(k) as nat) as int),
        forall|s: int|
            order_tier(k) < s <= pre.top() ==> #[trigger] pre.group_consistent(
                s,
                anc_idx(b / (pow4(order_tier(k) as nat) as int), order_tier(k), s),
            ),
        forall|s: int|
            order_tier(k) < s <= pre.top() ==> !(#[trigger] pre.group_marker(
                s,
                anc_idx(b / (pow4(order_tier(k) as nat) as int), order_tier(k), s),
            )),
{
    let bl = order_tier(k);
    let p = pow4(bl as nat) as int;
    let c = b / p;
    let cols = order_cols(k);
    lemma_pow4_pos(bl as nat);
    lemma_block_cols(k);
    lemma_pow2k_pos(k as nat);
    // the block's address is an exact multiple of its column span
    assert(b == c * p && (k % 2 == 1 ==> b % (2 * p) == 0)) by {
        lemma_fundamental_div_mod(b, pow2k(k as nat) as int);
        let m = b / (pow2k(k as nat) as int);
        assert(b == pow2k(k as nat) * m);
        assert(b == (m * cols) * p) by (nonlinear_arith)
            requires
                b == pow2k(k as nat) * m,
                pow2k(k as nat) == cols * p,
        ;
        assert(b / p == m * cols && b % p == 0) by (nonlinear_arith)
            requires
                b == (m * cols) * p,
                p >= 1,
                b >= 0,
        ;
        lemma_fundamental_div_mod(b, p);
        if k % 2 == 1 {
            assert(b == (2 * p) * (m * 1)) by (nonlinear_arith)
                requires
                    b == (m * cols) * p,
                    cols == 2,
            ;
            vstd::arithmetic::div_mod::lemma_mod_multiples_basic(m, 2 * p);
        }
    }
    // the whole block lies under the top tier's groups
    lemma_counts_cover(pre, bl);
    assert(c + cols <= pre.counts(bl)) by (nonlinear_arith)
        requires
            b == c * p,
            b + cols * p <= pre.counts(0),
            pre.counts(0) <= pow4(bl as nat) * pre.counts(bl),
            p == pow4(bl as nat),
            p >= 1,
            b >= 0,
            cols >= 1,
    ;
    assert(c >= 0) by (nonlinear_arith)
        requires
            b == c * p,
            b >= 0,
            p >= 1,
    ;
    // no ancestor is a marker: a marker's subtree reads fully free, but the
    // block's first column reads zero
    assert forall|s: int|
        order_tier(k) < s <= pre.top() implies (#[trigger] pre.group_consistent(
        s,
        anc_idx(b / (pow4(order_tier(k) as nat) as int), order_tier(k), s),
    ) && !pre.group_marker(s, anc_idx(b / (pow4(order_tier(k) as nat) as int), order_tier(k), s))) by {
        assert(b / (pow4(order_tier(k) as nat) as int) == c);
        lemma_anc_in_counts(pre, c, bl, s);
        assert(pre.group_ok(s, anc_idx(c, bl, s)));
        if pre.group_marker(s, anc_idx(c, bl, s)) {
            let ghost av = anc_idx(c, bl, s);
            let ghost child = anc_idx(c, bl, s - 1);
            lemma_anc_in_counts(pre, c, bl, s - 1);
            lemma_anc_step(c, bl, s - 1);
            assert(4 * av <= child < 4 * av + 4) by (nonlinear_arith)
                requires
                    child / 4 == av,
                    child >= 0,
            ;
            assert(pre.avail_of(s - 1, child) == umax_avail(s - 1)) by {
                reveal(BitmapFrameAllocator::group_marker);
                let ghost j0: int = child - 4 * av;
                assert(pre.avail_of(s - 1, 4 * av + j0) == pre.avail_of(s - 1, child));
            }
            lemma_full_group_descends(pre, s - 1, child, bl, c);
            assert(pre.avail_of(bl, c) == umax_avail(bl));
            if bl >= 1 {
                reveal(BitmapFrameAllocator::group_marker);
                assert(pre.avail_of(bl, c) == 0);
            }
            assert(false);
        }
        assert(pre.group_consistent(s, anc_idx(b / (pow4(order_tier(k) as nat) as int), order_tier(k), s)));
        assert(!pre.group_marker(s, anc_idx(b / (pow4(order_tier(k) as nat) as int), order_tier(k), s)));
    }
    assert forall|s: int|
        order_tier(k) < s <= pre.top() implies !(#[trigger] pre.group_marker(
        s,
        anc_idx(b / (pow4(order_tier(k) as nat) as int), order_tier(k), s),
    )) by {
        assert(pre.group_consistent(s, anc_idx(b / (pow4(order_tier(k) as nat) as int), order_tier(k), s)));
    }
}

/// The buddy pair of an odd-order block starts at an even column of its
/// tier, at offset zero or two within the parent.
proof fn lemma_free_pair_parity(pre: BitmapFrameAllocator, b: int, k: int)
    requires
        k % 2 == 1,
        1 <= k <= 10,
        0 <= b,
        b == (b / (pow4(order_tier(k) as nat) as int)) * pow4(order_tier(k) as nat),
        b % (2 * pow4(order_tier(k) as nat) as int) == 0,
    ensures
        b / (pow4(order_tier(k) as nat) as int) % 4 == 0 || b / (pow4(
            order_tier(k) as nat,
        ) as int) % 4 == 2,
{
    let p = pow4(order_tier(k) as nat) as int;
    let c = b / p;
    lemma_pow4_pos(order_tier(k) as nat);
    assert(c % 2 == 0) by (nonlinear_arith)
        requires
            b == c * p,
            b % (2 * p) == 0,
            p >= 1,
            b >= 0,
    ;
    assert(c % 4 == 0 || c % 4 == 2) by (nonlinear_arith)
        requires
            c % 2 == 0,
            c >= 0,
    ;
}

/// A freed block column whose subtree still reads fully free is
/// merge-consistent again once it caches its fully-free value.
#[verifier::rlimit(100)]
proof fn lemma_freed_col_ok(
    pre: BitmapFrameAllocator,
    now: BitmapFrameAllocator,
    bl: int,
    cfirst: int,
    cols: int,
    col: int,
    k: int,
)
    requires
        pre.wf(),
        now.struct_wf(),
        pre.same_shape(now),
        1 <= bl <= pre.top(),
        bl <= 5,
        cols == 1 || cols == 2,
        cfirst <= col < cfirst + cols,
        0 <= cfirst,
        col < pre.counts(bl),
        pre.group_marker(bl, col),
        now.avail_of(bl, col) == umax_avail(bl),
        forall|s: int, i: int|
            0 <= s < 16 && 0 <= i < now.fields(s) && !(s == bl && cfirst <= i < cfirst + cols)
                ==> #[trigger] now.avail_of(s, i) == pre.avail_of(s, i),
    ensures
        now.group_consistent(bl, col),
        now.group_ok(bl, col),
{
    lemma_tier_bounds(pre, bl);
    lemma_tier_bounds(pre, bl - 1);
    assert forall|j: int| 0 <= j < 4 implies #[trigger] now.avail_of(bl - 1, 4 * col + j)
        == umax_avail(bl - 1) by {
        assert(pre.avail_of(bl - 1, 4 * col + j) == umax_avail(bl - 1)) by {
            reveal(BitmapFrameAllocator::group_marker);
        }
        assert(now.avail_of(bl - 1, 4 * col + j) == pre.avail_of(bl - 1, 4 * col + j));
    }
    let ghost j0: int = 0;
    assert(now.avail_of(bl - 1, 4 * col + j0) == umax_avail(bl - 1));
    assert(now.avail_of(bl - 1, 4 * col) == umax_avail(bl - 1));
    assert(now.avail_of(bl - 1, 4 * col + 1) == umax_avail(bl - 1));
    assert(now.avail_of(bl - 1, 4 * col + 2) == umax_avail(bl - 1));
    assert(now.avail_of(bl - 1, 4 * col + 3) == umax_avail(bl - 1));
    reveal(BitmapFrameAllocator::group_consistent);
}

/// Assembles the free relation from the marking and repair steps.
#[verifier::rlimit(100)]
#[verifier::spinoff_prover]
proof fn lemma_free_assemble(
    pre: BitmapFrameAllocator,
    marked: BitmapFrameAllocator,
    post: BitmapFrameAllocator,
    b: int,
    c: int,
    k: int,
)
    requires
        pre.wf(),
        marked.struct_wf(),
        post.wf(),
        pre.same_shape(marked),
        marked.same_shape(post),
        0 <= k <= 10,
        order_tier(k) <= pre.top(),
        0 <= c,
        c + order_cols(k) <= pre.counts(order_tier(k)),
        order_cols(k) == 2 ==> c % 4 == 0 || c % 4 == 2,
        b == c * pow4(order_tier(k) as nat),
        k % 2 == 1 ==> b % (2 * pow4(order_tier(k) as nat) as int) == 0,
        marked.avail_of(order_tier(k), c) == umax_avail(order_tier(k)),
        k % 2 == 1 ==> marked.avail_of(order_tier(k), c + 1) == umax_avail(order_tier(k)),
        forall|s: int, i: int|
            0 <= s < 16 && 0 <= i < marked.fields(s) && !(s == order_tier(k) && c <= i < c
                + order_cols(k)) ==> #[trigger] marked.avail_of(s, i) == pre.avail_of(s, i),
        forall|s: int, i: int|
            0 <= s < 16 && 0 <= i < post.fields(s) && !(order_tier(k) < s <= post.top() && i
                == anc_idx(c, order_tier(k), s)) ==> #[trigger] post.avail_of(s, i)
                == marked.avail_of(s, i),
        forall|s: int|
            order_tier(k) < s <= post.top() ==> #[trigger] post.group_consistent(
                s,
                anc_idx(c, order_tier(k), s),
            ),
        forall|s: int|
            order_tier(k) < s <= pre.top() ==> #[trigger] pre.group_consistent(
                s,
                anc_idx(c, order_tier(k), s),
            ),
        forall|s: int|
            order_tier(k) < s <= pre.top() ==> !(#[trigger] pre.group_marker(
                s,
                anc_idx(c, order_tier(k), s),
            )),
    ensures
        pre.free_post(post, b, k),
{
    let bl = order_tier(k);
    let p = pow4(bl as nat) as int;
    let cols = order_cols(k);
    lemma_pow4_pos(bl as nat);
    lemma_block_cols(k);
    assert(b / p == c && b % p == 0) by (nonlinear_arith)
        requires
            b == c * p,
            p >= 1,
            c >= 0,
    ;
    // the columns in the final state still cache the fully-free value
    lemma_tier_bounds(pre, bl);
    assert(marked.fields(bl) == pre.fields(bl) && post.fields(bl) == pre.fields(bl));
    assert(post.avail_of(bl, c) == marked.avail_of(bl, c));
    if k % 2 == 1 {
        assert(post.avail_of(bl, c + 1) == marked.avail_of(bl, c + 1));
    }
    // composed change: columns plus ancestor chain
    assert forall|s: int, i: int|
        0 <= s < 16 && 0 <= i < pre.fields(s) && !(s == bl && c <= i < c + cols) && !(bl < s
            <= pre.top() && i == anc_idx(c, bl, s)) implies #[trigger] post.avail_of(s, i)
        == pre.avail_of(s, i) by {
        assert(marked.avail_of(s, i) == pre.avail_of(s, i));
    }
    // the freed block reads fully free again
    lemma_block_free_state(post, b, k);
    assert(b / p == c);
    assert forall|s: int|
        order_tier(k) < s <= pre.top() implies #[trigger] pre.group_consistent(
        s,
        anc_idx(b / (pow4(order_tier(k) as nat) as int), order_tier(k), s),
    ) by {
        assert(pre.group_consistent(s, anc_idx(c, order_tier(k), s)));
    }
    assert forall|s: int|
        order_tier(k) < s <= pre.top() implies !(#[trigger] pre.group_marker(
        s,
        anc_idx(b / (pow4(order_tier(k) as nat) as int), order_tier(k), s),
    )) by {
        assert(!pre.group_marker(s, anc_idx(c, order_tier(k), s)));
    }
    // frames outside the block keep their freeness
    lemma_outside_preserved(pre, post, b, k);
}

/// One bottom-up recomputation step keeps every already-recomputed group
/// consistent: only the one group changed, and it is not among their
/// children.
proof fn lemma_update_all_step(
    before: BitmapFrameAllocator,
    after: BitmapFrameAllocator,
    lvl: int,
    li: int,
)
    requires
        before.struct_wf(),
        after.struct_wf(),
        before.same_shape(after),
        1 <= lvl <= before.top(),
        0 <= li < before.counts(lvl),
        after.group_consistent(lvl, li),
        forall|s: int, i: int|
            0 <= s < 16 && 0 <= i < after.fields(s) && !(s == lvl && i == li)
                ==> #[trigger] after.avail_of(s, i) == before.avail_of(s, i),
        forall|s: int, i: int|
            1 <= s < lvl && 0 <= i < before.counts(s) ==> #[trigger] before.group_consistent(
                s,
                i,
            ),
        forall|i: int| 0 <= i < li ==> #[trigger] before.group_consistent(lvl, i),
    ensures
        forall|s: int, i: int|
            1 <= s < lvl && 0 <= i < after.counts(s) ==> #[trigger] after.group_consistent(s, i),
        forall|i: int| 0 <= i < li + 1 ==> #[trigger] after.group_consistent(lvl, i),
{
    assert forall|s: int, i: int|
        1 <= s < lvl && 0 <= i < after.counts(s) implies #[trigger] after.group_consistent(
        s,
        i,
    ) by {
        lemma_tier_bounds(before, s);
        lemma_tier_bounds(before, s - 1);
        lemma_consistent_transfer(before, after, s, i);
    }
    assert forall|i: int| 0 <= i < li + 1 implies #[trigger] after.group_consistent(
        lvl,
        i,
    ) by {
        if i < li {
            lemma_tier_bounds(before, lvl);
            lemma_tier_bounds(before, lvl - 1);
            lemma_consistent_transfer(before, after, lvl, i);
        }
    }
}

/// Groups of tier `s` when tier 0 holds `c` frames.
pub open spec fn tier_count(c: int, s: int) -> int
    decreases s,
{
    if s <= 0 {
        c
    } else {
        (tier_count(c, s - 1) + 3) / 4
    }
}

/// Words of bitmap storage for the tiers from `s` up, starting with `c`
/// groups: tiers stop when fewer than four groups remain.
pub open spec fn bitmap_words(c: int, s: int) -> int
    decreases 16 - s,
{
    if c < 4 || s >= 16 {
        0
    } else {
        word_count(s, c) + bitmap_words((c + 3) / 4, s + 1)
    }
}

/// How many 64-bit words the allocator's bitmaps take for `frame_count`
/// frames.
pub fn get_bitmap_size(frame_count: usize) -> (r: usize)
    requires
        frame_count + 64 <= usize::MAX as int / 4,
    ensures
        r == bitmap_words(frame_count as int, 0),
        r <= frame_count as int + 16,
{
    let mut group_size: usize = 0;
    let mut group_count: usize = frame_count;
    let mut total: usize = 0;
    proof {
        lemma_bitmap_words_le(frame_count as int, 0);
    }
    while group_count >= 4 && group_size < 16
        invariant
            frame_count + 64 <= usize::MAX as int / 4,
            0 <= group_size <= 16,
            0 <= group_count <= frame_count,
            total + bitmap_words(group_count as int, group_size as int) == bitmap_words(
                frame_count as int,
                0,
            ),
            0 <= bitmap_words(frame_count as int, 0) <= frame_count as int + 16,
            0 <= bitmap_words(group_count as int, group_size as int),
            total <= bitmap_words(frame_count as int, 0),
        decreases 16 - group_size,
    {
        let bits: usize = if group_size == 0 {
            1
        } else if group_size == 1 {
            2
        } else {
            4
        };
        let entry_count = (bits * group_count + 63) / 64;
        proof {
            assert(entry_count as int == word_count(group_size as int, group_count as int));
            assert(entry_count as int <= group_count as int + 1) by (nonlinear_arith)
                requires
                    entry_count as int == (bits as int * group_count as int + 63) / 64,
                    1 <= bits as int <= 4,
                    group_count as int >= 4,
            ;
            lemma_bitmap_words_le((group_count as int + 3) / 4, group_size as int + 1);
            assert(entry_count >= 0);
        }
        total = total + entry_count;
        group_size = group_size + 1;
        group_count = (group_count + 3) / 4;
    }
    total
}

/// Bitmap storage never exceeds one word per group plus slack.
proof fn lemma_bitmap_words_le(c: int, s: int)
    requires
        0 <= s <= 16,
        c >= 0,
    ensures
        0 <= bitmap_words(c, s) <= c + (16 - s),
    decreases 16 - s,
{
    if c < 4 || s >= 16 {
    } else {
        lemma_bitmap_words_le((c + 3) / 4, s + 1);
        assert(word_count(s, c) + (c + 3) / 4 <= c + 1) by (nonlinear_arith)
            requires
                c >= 4,
        ;
    }
}

impl BitmapFrameAllocator {
    /// Builds the allocator's zeroed bitmaps for `frame_count` frames,
    /// carving their storage out of the boot bump allocator. Every frame
    /// starts out marked used.
    pub fn setup_bitmap_frame_allocator(
        map_alloc: &mut crate::bump_alloc::BumpAllocator,
        frame_count: usize,
    ) -> (r: BitmapFrameAllocator)
        requires
            old(map_alloc).wf(),
            4 <= frame_count,
            frame_count <= 0x100_0000_0000,
            frame_count + 64 <= usize::MAX as int / 4,
            old(map_alloc).left() >= 8 * bitmap_words(frame_count as int, 0),
        ensures
            final(map_alloc).wf(),
            r.wf(),
            r.counts(0) == frame_count,
            forall|s: int, i: int|
                0 <= s < 16 && 0 <= i < r.fields(s) ==> #[trigger] r.avail_of(s, i) == 0,
    {
        let mut group_maps: Vec<Vec<u64>> = Vec::new();
        let mut group_counts: Vec<usize> = Vec::new();
        let mut group_size: usize = 0;
        let mut group_count: usize = frame_count;
        let mut max_group_size: u8 = 0;
        let mut max_size_group_count: usize = frame_count;
        proof {
            lemma_bitmap_words_le(frame_count as int, 0);
        }
        while group_size < 16
            invariant
                map_alloc.wf(),
                4 <= frame_count <= 0x100_0000_0000,
                frame_count + 64 <= usize::MAX as int / 4,
                0 <= group_size <= 16,
                group_maps@.len() == group_size,
                group_counts@.len() == group_size,
                group_count == tier_count(frame_count as int, group_size as int),
                0 <= group_count <= frame_count,
                group_size > 0 ==> group_count == (group_counts@[group_size - 1] as int + 3) / 4
                    || (group_counts@[group_size - 1] == 0 && group_count < 4),
                group_count >= 4 ==> (max_group_size as int == group_size - 1 || group_size == 0),
                group_size == 0 ==> group_count == frame_count,
                max_group_size as int <= 15,
                group_size > 0 ==> (max_group_size as int) < group_size,
                group_size > 0 ==> group_counts@[0] as int == frame_count,
                group_size > 0 ==> max_size_group_count == group_counts@[max_group_size as int],
                group_size > 0 ==> group_counts@[max_group_size as int] as int >= 4,
                forall|s: int|
                    0 < s <= max_group_size as int && s < group_size ==> #[trigger] group_counts@[s] as int == (
                    group_counts@[s - 1] as int + 3) / 4,
                forall|s: int|
                    (max_group_size as int) < s < group_size ==> #[trigger] group_counts@[s] as int
                        == 0,
                forall|s: int|
                    0 <= s <= max_group_size as int && s < group_size
                        ==> #[trigger] group_maps@[s]@.len() == word_count(
                        s,
                        group_counts@[s] as int,
                    ),
                forall|s: int|
                    (max_group_size as int) < s < group_size ==> #[trigger] group_maps@[s]@.len()
                        == 0,
                forall|s: int, j: int|
                    0 <= s < group_size && 0 <= j < group_maps@[s]@.len()
                        ==> #[trigger] group_maps@[s]@[j] == 0,
                map_alloc.left() >= 8 * bitmap_words(group_count as int, group_size as int),
            decreases 16 - group_size,
        {
            if group_count >= 4 {
                let bits: usize = if group_size == 0 {
                    1
                } else if group_size == 1 {
                    2
                } else {
                    4
                };
                let entry_count = (bits * group_count + 63) / 64;
                proof {
                    assert(entry_count as int == word_count(
                        group_size as int,
                        group_count as int,
                    ));
                    assert(entry_count as int <= group_count as int + 1) by (nonlinear_arith)
                        requires
                            entry_count as int == (bits as int * group_count as int + 63) / 64,
                            1 <= bits as int <= 4,
                            group_count as int >= 4,
                    ;
                    lemma_bitmap_words_le((group_count as int + 3) / 4, group_size as int + 1);
                }
                let row: Vec<u64> = vec![0u64; entry_count];
                let _storage = map_alloc.alloc_bytes((entry_count as u64) * 8);
                group_maps.push(row);
                group_counts.push(group_count);
                max_group_size = group_size as u8;
                max_size_group_count = group_count;
            } else {
                let row: Vec<u64> = Vec::new();
                group_maps.push(row);
                group_counts.push(0);
            }
            group_size = group_size + 1;
            group_count = (group_count + 3) / 4;
        }
        let r = BitmapFrameAllocator {
            group_maps,
            group_counts,
            max_group_size: GroupSize(max_group_size),
            max_size_group_count,
        };
        proof {
            lemma_setup_zero_state(r, frame_count as int);
        }
        r
    }
}

/// An all-zero bitmap state satisfies the allocator's invariant: every group
/// caches zero, and the merge of four zeros is zero.
proof fn lemma_setup_zero_state(r: BitmapFrameAllocator, frame_count: int)
    requires
        r.group_maps@.len() == 16,
        r.group_counts@.len() == 16,
        0 <= r.top() < 16,
        r.counts(0) == frame_count,
        4 <= frame_count <= 0x100_0000_0000,
        frame_count + 64 <= usize::MAX as int / 4,
        r.max_size_group_count == r.counts(r.top()),
        forall|s: int|
            1 <= s <= r.top() ==> #[trigger] r.counts(s) == (r.counts(s - 1) + 3) / 4,
        forall|s: int| r.top() < s < 16 ==> #[trigger] r.counts(s) == 0,
        forall|s: int|
            0 <= s <= r.top() ==> #[trigger] r.words_len(s) == word_count(s, r.counts(s)),
        forall|s: int| r.top() < s < 16 ==> #[trigger] r.words_len(s) == 0,
        forall|s: int, j: int|
            0 <= s < 16 && 0 <= j < r.group_maps@[s]@.len() ==> #[trigger] r.group_maps@[s]@[j]
                == 0,
    ensures
        r.wf(),
        forall|s: int, i: int|
            0 <= s < 16 && 0 <= i < r.fields(s) ==> #[trigger] r.avail_of(s, i) == 0,
{
    assert forall|s: int, i: int|
        0 <= s < 16 && 0 <= i < r.fields(s) implies #[trigger] r.avail_of(s, i) == 0 by {
        lemma_avail_of_zero_word(r, s, i);
    }
    assert forall|s: int, i: int|
        1 <= s <= r.top() && 0 <= i < r.counts(s) implies #[trigger] r.group_ok(s, i) by {
        lemma_tier_bounds(r, s);
        lemma_tier_bounds(r, s - 1);
        reveal(BitmapFrameAllocator::group_consistent);
        assert(r.avail_of(s, i) == 0);
        assert(r.avail_of(s - 1, 4 * i) == 0);
        assert(r.avail_of(s - 1, 4 * i + 1) == 0);
        assert(r.avail_of(s - 1, 4 * i + 2) == 0);
        assert(r.avail_of(s - 1, 4 * i + 3) == 0);
    }
}

/// A field of an all-zero word reads zero.
proof fn lemma_avail_of_zero_word(r: BitmapFrameAllocator, s: int, i: int)
    requires
        0 <= s < 16,
        r.group_maps@.len() == 16,
        0 <= i < r.fields(s),
        forall|j: int|
            0 <= j < r.group_maps@[s]@.len() ==> #[trigger] r.group_maps@[s]@[j] == 0,
    ensures
        r.avail_of(s, i) == 0,
{
    reveal(BitmapFrameAllocator::avail_of);
    lemma_div_bound(i, per_word(s), r.words_len(s));
    let w = r.group_maps@[s]@[i / per_word(s)];
    assert(w == 0);
    let sh = ((i % per_word(s)) * group_bits(s)) as u64;
    let m = group_mask(s) as u64;
    assert((0u64 >> sh) & m == 0) by (bit_vector);
}

/// Allocates an order-`order` block from the allocator: the process-wide
/// physical-memory authority is threaded explicitly.
pub fn alloc_frame_with_order(alloc: &mut BitmapFrameAllocator, order: FrameOrder) -> (r: Option<
    FrameAddr,
>)
    requires
        old(alloc).wf(),
        order.wf(),
    ensures
        final(alloc).wf(),
        old(alloc).same_shape(*final(alloc)),
        match r {
            Option::None => *final(alloc) == *old(alloc) && ((order.0 + 1) as int / 2 > old(
                alloc,
            ).top() || !old(alloc).has_free_block(order.0 as int)),
            Option::Some(addr) => {
                &&& addr.paddr() % 0x1000 == 0
                &&& addr.paddr() < 0x10_0000_0000_0000
                &&& ((order.0 + 1) / 2) as int <= old(alloc).top()
                &&& old(alloc).alloc_post(*final(alloc), addr.paddr() / 0x1000, order.0 as int)
            },
        },
{
    alloc.alloc_frame(order)
}

/// Allocates one order-0 frame.
pub fn alloc_frame(alloc: &mut BitmapFrameAllocator) -> (r: Option<FrameAddr>)
    requires
        old(alloc).wf(),
    ensures
        final(alloc).wf(),
        old(alloc).same_shape(*final(alloc)),
        match r {
            Option::None => *final(alloc) == *old(alloc) && !old(alloc).has_free_block(0),
            Option::Some(addr) => {
                &&& addr.paddr() % 0x1000 == 0
                &&& addr.paddr() < 0x10_0000_0000_0000
                &&& 0 <= old(alloc).top()
                &&& old(alloc).alloc_post(*final(alloc), addr.paddr() / 0x1000, 0)
            },
        },
{
    alloc_frame_with_order(alloc, FrameOrder(0))
}

/// Frees the order-`order` block at `frame`.
pub fn free_frame_with_order(alloc: &mut BitmapFrameAllocator, frame: FrameAddr, order: FrameOrder)
    requires
        old(alloc).wf(),
        order.wf(),
        ((order.0 + 1) / 2) as int <= old(alloc).top(),
        old(alloc).allocated_block(frame.paddr() / 0x1000, order.0 as int),
    ensures
        final(alloc).wf(),
        old(alloc).same_shape(*final(alloc)),
        old(alloc).free_post(*final(alloc), frame.paddr() / 0x1000, order.0 as int),
{
    alloc.free_frame(frame, order);
}

/// Frees the order-0 frame at `frame`.
pub fn free_frame(alloc: &mut BitmapFrameAllocator, frame: FrameAddr)
    requires
        old(alloc).wf(),
        old(alloc).top() >= 0,
        old(alloc).allocated_block(frame.paddr() / 0x1000, 0),
    ensures
        final(alloc).wf(),
        old(alloc).same_shape(*final(alloc)),
        old(alloc).free_post(*final(alloc), frame.paddr() / 0x1000, 0),
{
    alloc.free_frame(frame, FrameOrder(0));
}

/// The ancestor chain returns to its old values once the block's columns
/// are restored: each re-merged ancestor sees the same children as before
/// the allocation.
proof fn lemma_chain_restore(
    s0: BitmapFrameAllocator,
    s1: BitmapFrameAllocator,
    s2: BitmapFrameAllocator,
    b: int,
    k: int,
    u: int,
)
    requires
        s0.wf(),
        0 <= k <= 10,
        order_tier(k) <= s0.top(),
        (k + 1) / 2 <= s0.top(),
        s0.alloc_post(s1, b, k),
        s1.free_post(s2, b, k),
        order_tier(k) < u <= s0.top(),
    ensures
        s2.avail_of(u, anc_idx(b / (pow4(order_tier(k) as nat) as int), order_tier(k), u))
            == s0.avail_of(u, anc_idx(b / (pow4(order_tier(k) as nat) as int), order_tier(k), u)),
    decreases u,
{
    let bl = order_tier(k);
    let p = pow4(bl as nat) as int;
    let c = b / p;
    let cols = order_cols(k);
    let au = anc_idx(c, bl, u);
    lemma_pow4_pos(bl as nat);
    lemma_free_prepare(s1, b, k);
    assert(c + cols <= s0.counts(bl));
    lemma_anc_in_counts(s0, c, bl, u);
    lemma_tier_bounds(s0, u);
    lemma_tier_bounds(s0, u - 1);
    // both states are merge-consistent at this ancestor
    assert(s0.group_consistent(u, au));
    assert(s2.group_consistent(u, au));
    // and their four children agree
    let ac = anc_idx(c, bl, u - 1);
    if u - 1 == bl {
        assert(pow4(0) == 1);
        assert(c / 1int == c) by (nonlinear_arith)
            requires
                c >= 0,
        ;
        assert(ac == c);
    } else {
        lemma_chain_restore(s0, s1, s2, b, k, u - 1);
        lemma_anc_in_counts(s0, c, bl, u - 1);
    }
    lemma_anc_step(c, bl, u - 1);
    assert(4 * au <= ac < 4 * au + 4) by (nonlinear_arith)
        requires
            ac / 4 == au,
            ac >= 0,
    ;
    assert forall|j: int| 0 <= j < 4 implies #[trigger] s2.avail_of(u - 1, 4 * au + j)
        == s0.avail_of(u - 1, 4 * au + j) by {
        let ch = 4 * au + j;
        if ch == ac {
            if u - 1 == bl {
                // the first column: fully free before, restored after
                assert(s0.avail_of(bl, c) == umax_avail(bl));
                assert(s2.avail_of(bl, c) == umax_avail(bl));
            }
        } else if u - 1 == bl && cols == 2 && ch == c + 1 {
            // the second column likewise
            assert(s0.avail_of(bl, c + 1) == umax_avail(bl));
            assert(s2.avail_of(bl, c + 1) == umax_avail(bl));
        } else {
            // off the chain and off the columns: untouched by both steps
            assert(!(bl < u - 1 <= s0.top() && ch == anc_idx(c, bl, u - 1)));
            assert(s1.avail_of(u - 1, ch) == s0.avail_of(u - 1, ch));
            assert(s2.avail_of(u - 1, ch) == s1.avail_of(u - 1, ch));
        }
    }
    reveal(BitmapFrameAllocator::group_consistent);
    let ghost j0: int = 0;
    assert(s2.avail_of(u - 1, 4 * au + j0) == s0.avail_of(u - 1, 4 * au + j0));
    assert(s2.avail_of(u - 1, 4 * au) == s0.avail_of(u - 1, 4 * au));
    assert(s2.avail_of(u - 1, 4 * au + 1) == s0.avail_of(u - 1, 4 * au + 1));
    assert(s2.avail_of(u - 1, 4 * au + 2) == s0.avail_of(u - 1, 4 * au + 2));
    assert(s2.avail_of(u - 1, 4 * au + 3) == s0.avail_of(u - 1, 4 * au + 3));
}

/// Round trip: allocating a block and immediately freeing it leaves every
/// cached Avail of every tier exactly as it was.
pub proof fn lemma_alloc_free_round_trip(
    s0: BitmapFrameAllocator,
    s1: BitmapFrameAllocator,
    s2: BitmapFrameAllocator,
    b: int,
    k: int,
)
    requires
        s0.wf(),
        0 <= k <= 10,
        (k + 1) / 2 <= s0.top(),
        s0.alloc_post(s1, b, k),
        s1.free_post(s2, b, k),
    ensures
        forall|s: int, i: int|
            0 <= s < 16 && 0 <= i < s0.fields(s) ==> #[trigger] s2.avail_of(s, i) == s0.avail_of(
                s,
                i,
            ),
{
    let bl = order_tier(k);
    let p = pow4(bl as nat) as int;
    let c = b / p;
    let cols = order_cols(k);
    lemma_pow4_pos(bl as nat);
    lemma_free_prepare(s1, b, k);
    assert forall|s: int, i: int|
        0 <= s < 16 && 0 <= i < s0.fields(s) implies #[trigger] s2.avail_of(s, i) == s0.avail_of(
        s,
        i,
    ) by {
        if s == bl && c <= i < c + cols {
            // the block's columns were fully free and are again
            assert(s0.avail_of(bl, i) == umax_avail(bl));
            assert(s2.avail_of(bl, i) == umax_avail(bl));
        } else if bl < s <= s0.top() && i == anc_idx(c, bl, s) {
            lemma_chain_restore(s0, s1, s2, b, k, s);
        } else {
            assert(s1.avail_of(s, i) == s0.avail_of(s, i));
            assert(s2.avail_of(s, i) == s1.avail_of(s, i));
        }
    }
}

/// A point lies inside one of the byte ranges.
pub open spec fn in_ranges(rs: Seq<(u64, u64)>, x: int) -> bool {
    exists|j: int| 0 <= j < rs.len() && (#[trigger] rs[j]).0 <= x < rs[j].1
}

/// Each range is well-formed, and the ranges are sorted by start and
/// pairwise disjoint.
pub open spec fn ranges_sorted_disjoint(rs: Seq<(u64, u64)>) -> bool {
    &&& forall|j: int| 0 <= j < rs.len() ==> (#[trigger] rs[j]).0 <= rs[j].1
    &&& forall|j: int| 0 <= j < rs.len() - 1 ==> (#[trigger] rs[j]).1 <= rs[j + 1].0
}

/// In a sorted, disjoint list every earlier range ends before a later one
/// starts.
proof fn lemma_ranges_chain(rs: Seq<(u64, u64)>, i: int, j: int)
    requires
        ranges_sorted_disjoint(rs),
        0 <= i < j < rs.len(),
    ensures
        rs[i].1 <= rs[j].0,
    decreases j - i,
{
    if i + 1 < j {
        lemma_ranges_chain(rs, i + 1, j);
    }
}

/// Membership after appending one range.
proof fn lemma_in_ranges_push(rs: Seq<(u64, u64)>, p: (u64, u64), x: int)
    ensures
        in_ranges(rs.push(p), x) <==> (in_ranges(rs, x) || (p.0 <= x < p.1)),
{
    if in_ranges(rs, x) {
        let w = choose|j: int| 0 <= j < rs.len() && (#[trigger] rs[j]).0 <= x < rs[j].1;
        assert(rs.push(p)[w].0 <= x < rs.push(p)[w].1);
    }
    if p.0 <= x < p.1 {
        assert(rs.push(p)[rs.len() as int].0 <= x < rs.push(p)[rs.len() as int].1);
    }
    if in_ranges(rs.push(p), x) && !(p.0 <= x < p.1) {
        let w = choose|j: int|
            0 <= j < rs.push(p).len() && (#[trigger] rs.push(p)[j]).0 <= x < rs.push(p)[j].1;
        assert(w < rs.len());
        assert(rs[w].0 <= x < rs[w].1);
    }
}

/// Subtracts the reserved ranges from the usable ones: what the platform
/// reports usable, minus the kernel-image and boot-structure spans, before
/// any frame is marked free.
///
/// Both inputs must be sorted and disjoint; the result is too, and covers a
/// point exactly when the first list does and the second does not.
#[verifier::rlimit(100)]
pub fn ranges_difference(plus: &Vec<(u64, u64)>, minus: &Vec<(u64, u64)>) -> (r: Vec<(u64, u64)>)
    requires
        ranges_sorted_disjoint(plus@),
        ranges_sorted_disjoint(minus@),
    ensures
        forall|x: int|
            #[trigger] in_ranges(r@, x) <==> (in_ranges(plus@, x) && !in_ranges(minus@, x)),
        ranges_sorted_disjoint(r@),
{
    let mut out: Vec<(u64, u64)> = Vec::new();
    let mut pi: usize = 0;
    proof {
        assert(plus@.take(0int) =~= Seq::<(u64, u64)>::empty());
    }
    while pi < plus.len()
        invariant
            ranges_sorted_disjoint(plus@),
            ranges_sorted_disjoint(minus@),
            pi as int <= plus@.len(),
            forall|x: int|
                #[trigger] in_ranges(out@, x) <==> (in_ranges(plus@.take(pi as int), x)
                    && !in_ranges(minus@, x)),
            ranges_sorted_disjoint(out@),
            out@.len() > 0 && (pi as int) < plus@.len() ==> out@.last().1 <= plus@[pi as int].0,
        decreases plus@.len() - pi as int,
    {
        let ghost out_entry = out@;
        let (ps, pe) = plus[pi];
        let mut s = ps;
        let mut mi: usize = 0;
        while mi < minus.len()
            invariant
                ranges_sorted_disjoint(plus@),
                ranges_sorted_disjoint(minus@),
                (pi as int) < plus@.len(),
                (ps, pe) == plus@[pi as int],
                ps <= s <= pe,
                mi as int <= minus@.len(),
                forall|x: int|
                    #[trigger] in_ranges(out@, x) <==> ((in_ranges(plus@.take(pi as int), x)
                        && !in_ranges(minus@, x)) || (ps <= x < s && !in_ranges(minus@, x))),
                forall|t: int|
                    0 <= t < mi as int ==> ((#[trigger] minus@[t]).1 <= s || minus@[t].0 >= pe
                        || s == pe),
                ranges_sorted_disjoint(out@),
                out@.len() > 0 ==> out@.last().1 <= s,
                out_entry == out@ || (out@.len() > 0 && out@.last().1 <= s),
            decreases minus@.len() - mi as int,
        {
            let (ms, me) = minus[mi];
            if me <= s || ms >= pe {
                // this reserved span lies wholly outside what is left of the
                // usable range
                mi = mi + 1;
            } else {
                let ghost pre_out = out@;
                let ghost pre_s = s;
                if s < ms {
                    out.push((s, ms));
                    proof {
                        assert forall|x: int|
                            pre_s <= x < ms implies !in_ranges(minus@, x) by {
                            if in_ranges(minus@, x) {
                                let w = choose|t: int|
                                    0 <= t < minus@.len() && (#[trigger] minus@[t]).0 <= x
                                        < minus@[t].1;
                                if w < mi as int {
                                    assert(minus@[w].1 <= pre_s || minus@[w].0 >= pe);
                                } else if w > mi as int {
                                    lemma_ranges_chain(minus@, mi as int, w);
                                }
                            }
                        }
                        assert forall|x: int|
                            #[trigger] in_ranges(out@, x) <==> ((in_ranges(
                            plus@.take(pi as int),
                            x,
                        ) && !in_ranges(minus@, x)) || (ps <= x < ms && !in_ranges(
                            minus@,
                            x,
                        ))) by {
                            lemma_in_ranges_push(pre_out, (pre_s, ms), x);
                        }
                    }
                }
                if me > s {
                    s = if me < pe {
                        me
                    } else {
                        pe
                    };
                }
                proof {
                    assert forall|x: int|
                        #[trigger] in_ranges(out@, x) <==> ((in_ranges(plus@.take(pi as int), x)
                            && !in_ranges(minus@, x)) || (ps <= x < s && !in_ranges(
                            minus@,
                            x,
                        ))) by {
                        if ms <= x < me {
                            assert(minus@[mi as int].0 <= x < minus@[mi as int].1);
                            assert(in_ranges(minus@, x));
                        }
                    }
                }
                mi = mi + 1;
            }
        }
        if s < pe {
            let ghost pre_out = out@;
            out.push((s, pe));
            proof {
                assert forall|x: int| s <= x < pe implies !in_ranges(minus@, x) by {
                    if in_ranges(minus@, x) {
                        let w = choose|t: int|
                            0 <= t < minus@.len() && (#[trigger] minus@[t]).0 <= x < minus@[t].1;
                        assert(s < pe);
                        assert(minus@[w].1 <= s || minus@[w].0 >= pe);
                    }
                }
                assert forall|x: int|
                    #[trigger] in_ranges(out@, x) <==> ((in_ranges(plus@.take(pi as int), x)
                        && !in_ranges(minus@, x)) || (ps <= x < pe && !in_ranges(minus@, x))) by {
                    lemma_in_ranges_push(pre_out, (s, pe), x);
                }
            }
        }
        proof {
            assert(plus@.take(pi as int + 1).drop_last() =~= plus@.take(pi as int));
            assert(plus@.take(pi as int + 1).last() == plus@[pi as int]);
            assert forall|x: int|
                #[trigger] in_ranges(out@, x) <==> (in_ranges(plus@.take(pi as int + 1), x)
                    && !in_ranges(minus@, x)) by {
                lemma_in_ranges_push(plus@.take(pi as int), plus@[pi as int], x);
                assert(plus@.take(pi as int).push(plus@[pi as int]) =~= plus@.take(pi as int + 1));
            }
            if (pi as int) + 1 < plus@.len() {
                assert(plus@[pi as int].1 <= plus@[pi as int + 1].0);
            }
        }
        pi = pi + 1;
    }
    proof {
        assert(plus@.take(plus@.len() as int) =~= plus@);
    }
    out
}

/// The byte just past the last usable byte of the map.
pub open spec fn ranges_top(rs: Seq<(u64, u64)>) -> int
    decreases rs.len(),
{
    if rs.len() == 0 {
        0
    } else {
        let rest = ranges_top(rs.drop_last());
        if rs.last().1 as int > rest {
            rs.last().1 as int
        } else {
            rest
        }
    }
}

/// How many frames the allocator tracks for this map: everything up to the
/// last usable byte, rounded up to whole frames.
pub open spec fn map_frame_count(rs: Seq<(u64, u64)>) -> int {
    spec_align_up(ranges_top(rs), 0x1000) / 0x1000
}

/// Byte range `r` has word-aligned room for `words` 64-bit words of bitmap
/// storage.
pub open spec fn range_hosts(r: (u64, u64), words: int) -> bool {
    r.1 > spec_align_up(r.0 as int, 8) + words * 8
}

/// Frame `f` lies inside the fully usable part of byte range `r`: at or
/// past the first frame boundary in it, wholly before its end.
pub open spec fn frame_in_range(r: (u64, u64), f: int) -> bool {
    spec_align_up(r.0 as int, 0x1000) <= f * 0x1000 && (f + 1) * 0x1000 <= r.1
}

/// Frame `f` lies inside one of the usable byte ranges.
pub open spec fn frame_in_ranges(rs: Seq<(u64, u64)>, f: int) -> bool {
    exists|j: int| 0 <= j < rs.len() && frame_in_range(#[trigger] rs[j], f)
}

/// Builds the live frame allocator from the platform's usable-memory map:
/// sizes the bitmaps, carves their storage out of the first range that can
/// host it, marks the usable frames free and the bitmap's own storage used,
/// and recomputes the cached Avail values.
///
/// Returns the allocator together with the byte range its bitmaps occupy.
/// Fails, before anything goes live, when the map holds too few frames or no
/// range can host the bitmaps.
pub fn init(usable: &Vec<(u64, u64)>) -> (r: Option<(BitmapFrameAllocator, u64, u64)>)
    requires
        forall|j: int| 0 <= j < usable@.len() ==> (#[trigger] usable@[j]).0 <= usable@[j].1,
        // a machine-scale bound: the map stays within the first 16 TiB of
        // physical address space, so every intermediate sum fits
        forall|j: int| 0 <= j < usable@.len() ==> (#[trigger] usable@[j]).1 <= 0x1000_0000_0000,
    ensures
        match r {
            Option::Some(a) => {
                &&& a.0.wf()
                &&& forall|f: int|
                    #[trigger] a.0.frame_free(f) <==> (frame_in_ranges(usable@, f) && !(f * 0x1000
                        < a.1 + a.2 && a.1 < (f + 1) * 0x1000) && 0 <= f < a.0.counts(0))
            },
            Option::None => true,
        },
        // failure comes only from initialization-time impossibility: a map
        // too small for one bitmap tier, beyond the 2^28-frame (1 TiB)
        // bound this model tracks, or with no range able to host the
        // bitmaps' storage
        (r matches Option::None) <==> (map_frame_count(usable@) < 4 || map_frame_count(usable@)
            > 0x1000_0000 || !(exists|j: int|
            0 <= j < usable@.len() && range_hosts(
                #[trigger] usable@[j],
                bitmap_words(map_frame_count(usable@), 0),
            ))),
{
    let frame_align = Alignment::new_from_shift(12);
    let word_align = Alignment::new_from_shift(3);
    proof {
        vstd::arithmetic::power2::lemma2_to64();
    }
    // the frame count: everything up to the last usable byte, rounded up
    let mut frame_count_bytes: u64 = 0;
    let mut j: usize = 0;
    while j < usable.len()
        invariant
            forall|t: int| 0 <= t < usable@.len() ==> (#[trigger] usable@[t]).1
                <= 0x1000_0000_0000,
            frame_count_bytes <= 0x1000_0000_0000,
            frame_align.wf(),
            frame_align.size_spec() == 0x1000,
            forall|t: int| 0 <= t < j as int ==> (#[trigger] usable@[t]).1 <= frame_count_bytes,
            frame_count_bytes as int == ranges_top(usable@.take(j as int)),
            j as int <= usable@.len(),
        decreases usable@.len() - j as int,
    {
        let end = usable[j].1;
        proof {
            assert(usable@.take(j as int + 1).drop_last() =~= usable@.take(j as int));
            assert(usable@.take(j as int + 1).last() == usable@[j as int]);
        }
        if end > frame_count_bytes {
            frame_count_bytes = end;
        }
        j = j + 1;
    }
    proof {
        assert(usable@.take(usable@.len() as int) =~= usable@);
    }
    proof {
        vstd::arithmetic::div_mod::lemma_mod_bound(frame_count_bytes as int, 0x1000);
    }
    let frame_count_u64 = frame_align.align_up(frame_count_bytes) / 0x1000;
    let ghost fc_bytes_up = spec_align_up(frame_count_bytes as int, 0x1000);
    proof {
        assert(frame_count_u64 as int == map_frame_count(usable@));
    }
    if frame_count_u64 < 4 || frame_count_u64 > 0x1000_0000 {
        return None;
    }
    let frame_count = frame_count_u64 as usize;
    proof {
        lemma_bitmap_words_le(frame_count as int, 0);
        lemma_fundamental_div_mod(fc_bytes_up, 0x1000);
        assert(fc_bytes_up % 0x1000 == 0) by (nonlinear_arith)
            requires
                fc_bytes_up == spec_align_up(frame_count_bytes as int, 0x1000),
                frame_count_bytes as int % 0x1000 == (frame_count_bytes as int) % 0x1000,
        ;
        assert(frame_count as int * 0x1000 == fc_bytes_up) by (nonlinear_arith)
            requires
                frame_count as int == fc_bytes_up / 0x1000,
                fc_bytes_up == 0x1000 * (fc_bytes_up / 0x1000) + fc_bytes_up % 0x1000,
                fc_bytes_up % 0x1000 == 0,
        ;
        assert(frame_count_bytes as int <= fc_bytes_up);
    }
    let bitmap_words_needed = get_bitmap_size(frame_count);
    let bitmap_size_bytes = (bitmap_words_needed as u64) * 8;
    // find a usable range that can host the bitmaps at word alignment
    let mut bitmap_addr: u64 = 0;
    let mut found = false;
    let mut j: usize = 0;
    while !found && j < usable.len()
        invariant
            forall|t: int| 0 <= t < usable@.len() ==> (#[trigger] usable@[t]).0 <= usable@[t].1,
            forall|t: int| 0 <= t < usable@.len() ==> (#[trigger] usable@[t]).1
                <= 0x1000_0000_0000,
            j as int <= usable@.len(),
            bitmap_size_bytes <= 0x1000_0000_0000,
            bitmap_size_bytes as int == bitmap_words(map_frame_count(usable@), 0) * 8,
            word_align.wf(),
            word_align.size_spec() == 8,
            found ==> bitmap_addr as int + bitmap_size_bytes as int <= frame_count_bytes as int,
            found ==> (j as int) < usable@.len() && range_hosts(
                usable@[j as int],
                bitmap_words(map_frame_count(usable@), 0),
            ),
            !found ==> forall|t: int|
                0 <= t < j as int ==> !range_hosts(
                    #[trigger] usable@[t],
                    bitmap_words(map_frame_count(usable@), 0),
                ),
            frame_count_bytes <= 0x1000_0000_0000,
            forall|t: int| 0 <= t < usable@.len() ==> (#[trigger] usable@[t]).1
                <= frame_count_bytes,
        decreases usable@.len() - j as int, (if found { 0int } else { 1int }),
    {
        let range = usable[j];
        let start = word_align.align_up(range.0);
        if range.1 >= start && range.1 - start > bitmap_size_bytes {
            bitmap_addr = start;
            found = true;
        } else {
            j = j + 1;
        }
    }
    if !found {
        return None;
    }
    let mut bitmap_bump_alloc = crate::bump_alloc::BumpAllocator::new(
        bitmap_addr,
        bitmap_size_bytes,
    );
    let mut frame_alloc = BitmapFrameAllocator::setup_bitmap_frame_allocator(
        &mut bitmap_bump_alloc,
        frame_count,
    );
    proof {
        lemma_tier_bounds(frame_alloc, 0);
        assert(usable@.take(0int) =~= Seq::<(u64, u64)>::empty());
        assert forall|f: int|
            0 <= f < frame_count as int implies ((#[trigger] frame_alloc.avail_of(0, f) == 1)
            <==> frame_in_ranges(usable@.take(0int), f)) by {
            assert(frame_alloc.avail_of(0, f) == 0);
        }
    }
    // mark every fully usable frame free
    let mut j: usize = 0;
    while j < usable.len()
        invariant
            frame_alloc.struct_wf(),
            frame_alloc.avail_wf(),
            frame_alloc.counts(0) == frame_count,
            frame_alloc.counts(0) <= frame_alloc.fields(0),
            frame_count <= 0x1000_0000,
            frame_align.wf(),
            frame_align.size_spec() == 0x1000,
            forall|t: int| 0 <= t < usable@.len() ==> (#[trigger] usable@[t]).0 <= usable@[t].1,
            forall|t: int| 0 <= t < usable@.len() ==> (#[trigger] usable@[t]).1 <= frame_count
                as int * 0x1000,
            j as int <= usable@.len(),
            forall|f: int|
                0 <= f < frame_count as int ==> ((#[trigger] frame_alloc.avail_of(0, f) == 1)
                    <==> frame_in_ranges(usable@.take(j as int), f)),
        decreases usable@.len() - j as int,
    {
        let ghost pre = frame_alloc;
        let range = usable[j];
        let start = (frame_align.align_up(range.0) / 0x1000) as usize;
        let end = (frame_align.align_down(range.1) / 0x1000) as usize;
        if start < end {
            frame_alloc.free_frame_range(start, end);
        }
        proof {
            assert(usable@.take(j as int + 1) =~= usable@.take(j as int).push(usable@[j as int]));
            assert forall|f: int|
                0 <= f < frame_count as int implies ((#[trigger] frame_alloc.avail_of(0, f) == 1)
                <==> frame_in_ranges(usable@.take(j as int + 1), f)) by {
                lemma_tier_bounds(frame_alloc, 0);
                lemma_init_range_step(pre, frame_alloc, usable@, j as int, f, start as int, end as int);
            }
        }
        j = j + 1;
    }
    proof {
        assert(usable@.take(usable@.len() as int) =~= usable@);
    }
    // the bitmap's own storage cannot track itself: carve it back out
    proof {
        vstd::arithmetic::div_mod::lemma_mod_bound(bitmap_addr as int, 0x1000);
        vstd::arithmetic::div_mod::lemma_mod_bound(
            bitmap_addr as int + bitmap_size_bytes as int,
            0x1000,
        );
    }
    let carve_start = (frame_align.align_down(bitmap_addr) / 0x1000) as usize;
    let carve_end = (frame_align.align_up(bitmap_addr + bitmap_size_bytes) / 0x1000) as usize;
    proof {
        let e = bitmap_addr as int + bitmap_size_bytes as int;
        let eu = spec_align_up(e, 0x1000);
        assert(eu % 0x1000 == 0) by (nonlinear_arith)
            requires
                eu == spec_align_up(e, 0x1000),
                e >= 0,
        ;
        lemma_fundamental_div_mod(eu, 0x1000);
        assert(eu == carve_end as int * 0x1000) by (nonlinear_arith)
            requires
                carve_end as int == eu / 0x1000,
                eu == 0x1000 * (eu / 0x1000) + eu % 0x1000,
                eu % 0x1000 == 0,
        ;
        assert(eu <= e + 0xFFF);
        assert(e <= frame_count_bytes as int);
        assert(frame_count_bytes as int <= frame_count as int * 0x1000);
        assert(carve_end as int <= frame_count as int) by (nonlinear_arith)
            requires
                carve_end as int * 0x1000 <= frame_count as int * 0x1000 + 0xFFF,
        ;
        assert(carve_start as int <= carve_end as int) by (nonlinear_arith)
            requires
                carve_start as int == (bitmap_addr as int - bitmap_addr as int % 0x1000) / 0x1000,
                bitmap_addr as int <= e,
                eu >= e,
                eu == carve_end as int * 0x1000,
                0 <= bitmap_addr as int % 0x1000 < 0x1000,
                bitmap_addr as int >= 0,
        ;
    }
    frame_alloc.use_frame_range(carve_start, carve_end);
    frame_alloc.update_all();
    proof {
        assert forall|f: int|
            #[trigger] frame_alloc.frame_free(f) <==> (frame_in_ranges(usable@, f) && !(f * 0x1000
                < bitmap_addr + bitmap_size_bytes && bitmap_addr < (f + 1) * 0x1000) && 0 <= f
            < frame_alloc.counts(0)) by {
            frame_alloc.lemma_frame_free_is_leaf(f);
            if 0 <= f < frame_alloc.counts(0) {
                lemma_tier_bounds(frame_alloc, 0);
                lemma_init_carve(
                    bitmap_addr as int,
                    bitmap_size_bytes as int,
                    carve_start as int,
                    carve_end as int,
                    f,
                );
            }
        }
    }
    Some((frame_alloc, bitmap_addr, bitmap_size_bytes))
}

/// One range pass marks exactly its fully usable frames free, on top of
/// what earlier passes marked.
proof fn lemma_init_range_step(
    pre: BitmapFrameAllocator,
    now: BitmapFrameAllocator,
    rs: Seq<(u64, u64)>,
    j: int,
    f: int,
    start: int,
    end: int,
)
    requires
        0 <= j < rs.len(),
        rs[j].0 <= rs[j].1,
        0 <= f < now.counts(0),
        now.counts(0) == pre.counts(0),
        pre.counts(0) <= pre.fields(0),
        now.fields(0) == pre.fields(0),
        end <= now.counts(0),
        start == spec_align_up(rs[j].0 as int, 0x1000) / 0x1000,
        end == (rs[j].1 as int - rs[j].1 as int % 0x1000) / 0x1000,
        (pre.avail_of(0, f) == 1) <==> frame_in_ranges(rs.take(j), f),
        start < end ==> (forall|f2: int|
            start <= f2 < end ==> #[trigger] now.avail_of(0, f2) == 1),
        start < end ==> (forall|f2: int|
            0 <= f2 < now.fields(0) && !(start <= f2 < end) ==> #[trigger] now.avail_of(0, f2)
                == pre.avail_of(0, f2)),
        start >= end ==> now == pre,
    ensures
        (now.avail_of(0, f) == 1) <==> frame_in_ranges(rs.take(j + 1), f),
{
    let a0 = rs[j].0 as int;
    let r1 = rs[j].1 as int;
    let au = spec_align_up(a0, 0x1000);
    vstd::arithmetic::div_mod::lemma_mod_bound(a0, 0x1000);
    vstd::arithmetic::div_mod::lemma_mod_bound(r1, 0x1000);
    assert(au % 0x1000 == 0) by (nonlinear_arith)
        requires
            au == spec_align_up(a0, 0x1000),
            a0 % 0x1000 == a0 % 0x1000,
    ;
    lemma_fundamental_div_mod(au, 0x1000);
    assert(au == start * 0x1000) by (nonlinear_arith)
        requires
            start == au / 0x1000,
            au == 0x1000 * (au / 0x1000) + au % 0x1000,
            au % 0x1000 == 0,
    ;
    lemma_fundamental_div_mod(r1, 0x1000);
    assert(end * 0x1000 <= r1 && r1 < end * 0x1000 + 0x1000) by (nonlinear_arith)
        requires
            end == (r1 - r1 % 0x1000) / 0x1000,
            r1 == 0x1000 * (r1 / 0x1000) + r1 % 0x1000,
            0 <= r1 % 0x1000 < 0x1000,
    ;
    assert((au <= f * 0x1000) <==> (start <= f)) by (nonlinear_arith)
        requires
            au == start * 0x1000,
    ;
    assert(((f + 1) * 0x1000 <= r1) <==> (f < end)) by (nonlinear_arith)
        requires
            end * 0x1000 <= r1 && r1 < end * 0x1000 + 0x1000,
    ;
    assert(frame_in_range(rs[j], f) <==> (start <= f < end));
    assert(rs.take(j + 1) =~= rs.take(j).push(rs[j]));
    if frame_in_ranges(rs.take(j), f) {
        let w = choose|t: int| 0 <= t < j && frame_in_range(#[trigger] rs.take(j)[t], f);
        assert(frame_in_range(rs.take(j + 1)[w], f));
    }
    if frame_in_range(rs[j], f) {
        assert(frame_in_range(rs.take(j + 1)[j], f));
    }
    if frame_in_ranges(rs.take(j + 1), f) && !frame_in_range(rs[j], f) {
        let w = choose|t: int| 0 <= t < j + 1 && frame_in_range(#[trigger] rs.take(j + 1)[t], f);
        assert(w < j);
        assert(frame_in_range(rs.take(j)[w], f));
    }
}

/// A frame lies in the carved frame window exactly when it overlaps the
/// carved bytes.
proof fn lemma_init_carve(addr: int, size: int, cs: int, ce: int, f: int)
    requires
        0 <= addr,
        0 <= size,
        cs == (addr - addr % 0x1000) / 0x1000,
        ce == spec_align_up(addr + size, 0x1000) / 0x1000,
    ensures
        (cs <= f < ce) <==> (f * 0x1000 < addr + size && addr < (f + 1) * 0x1000),
{
    lemma_fundamental_div_mod(addr, 0x1000);
    lemma_fundamental_div_mod(addr + size, 0x1000);
    vstd::arithmetic::div_mod::lemma_mod_bound(addr, 0x1000);
    vstd::arithmetic::div_mod::lemma_mod_bound(addr + size, 0x1000);
    assert(cs == addr / 0x1000) by (nonlinear_arith)
        requires
            cs == (addr - addr % 0x1000) / 0x1000,
            addr == 0x1000 * (addr / 0x1000) + addr % 0x1000,
            0 <= addr % 0x1000 < 0x1000,
    ;
    assert((cs <= f) <==> (addr < (f + 1) * 0x1000)) by (nonlinear_arith)
        requires
            cs == addr / 0x1000,
            addr == 0x1000 * (addr / 0x1000) + addr % 0x1000,
            0 <= addr % 0x1000 < 0x1000,
    ;
    let e = addr + size;
    if e % 0x1000 == 0 {
        assert(ce == e / 0x1000) by (nonlinear_arith)
            requires
                ce == e / 0x1000,
        ;
        assert((f < ce) <==> (f * 0x1000 < e)) by (nonlinear_arith)
            requires
                ce == e / 0x1000,
                e == 0x1000 * (e / 0x1000) + e % 0x1000,
                e % 0x1000 == 0,
        ;
    } else {
        assert(spec_align_up(e, 0x1000) == e - e % 0x1000 + 0x1000);
        assert(ce == e / 0x1000 + 1) by (nonlinear_arith)
            requires
                ce == (e - e % 0x1000 + 0x1000) / 0x1000,
                e == 0x1000 * (e / 0x1000) + e % 0x1000,
                0 <= e % 0x1000 < 0x1000,
        ;
        assert((f < ce) <==> (f * 0x1000 < e)) by (nonlinear_arith)
            requires
                ce == e / 0x1000 + 1,
                e == 0x1000 * (e / 0x1000) + e % 0x1000,
                0 < e % 0x1000 < 0x1000,
        ;
    }
}

/// Group index `i` of a tier with `len` words lands inside them.
proof fn lemma_div_bound(i: int, per: int, len: int)
    requires
        0 <= i < len * per,
        per >= 1,
    ensures
        0 <= i / per < len,
{
    assert(0 <= i / per < len) by (nonlinear_arith)
        requires
            0 <= i < len * per,
            per >= 1,
    ;
}

/// Writing one 1-bit field of a word.
proof fn lemma_field_set_b1(w: u64, off: u64, off2: u64, v: u64)
    by (bit_vector)
    requires
        off < 64,
        off2 < 64,
        v <= 1,
    ensures
        (((w & !(1u64 << off)) | (v << off)) >> off) & 1 == v,
        off2 != off ==> (((w & !(1u64 << off)) | (v << off)) >> off2) & 1 == (w >> off2) & 1,
{
}

/// Writing one 2-bit field of a word.
proof fn lemma_field_set_b2(w: u64, off: u64, off2: u64, v: u64)
    by (bit_vector)
    requires
        off + 2 <= 64,
        off2 + 2 <= 64,
        off % 2 == 0,
        off2 % 2 == 0,
        v <= 3,
    ensures
        (((w & !(3u64 << off)) | (v << off)) >> off) & 3 == v,
        off2 != off ==> (((w & !(3u64 << off)) | (v << off)) >> off2) & 3 == (w >> off2) & 3,
{
}

/// Writing one 4-bit field of a word.
proof fn lemma_field_set_b4(w: u64, off: u64, off2: u64, v: u64)
    by (bit_vector)
    requires
        off + 4 <= 64,
        off2 + 4 <= 64,
        off % 4 == 0,
        off2 % 4 == 0,
        v <= 15,
    ensures
        (((w & !(15u64 << off)) | (v << off)) >> off) & 15 == v,
        off2 != off ==> (((w & !(15u64 << off)) | (v << off)) >> off2) & 15 == (w >> off2) & 15,
{
}

/// Writing one `b`-bit field of a word: the written field reads back, every
/// other aligned field is untouched.
proof fn lemma_field_set(w: u64, off: u64, off2: u64, b: u64, m: u64, v: u64)
    requires
        (b == 1 && m == 1) || (b == 2 && m == 3) || (b == 4 && m == 15),
        off + b <= 64,
        off2 + b <= 64,
        off % b == 0,
        off2 % b == 0,
        v <= m,
    ensures
        (((w & !(m << off)) | (v << off)) >> off) & m == v,
        off2 != off ==> (((w & !(m << off)) | (v << off)) >> off2) & m == (w >> off2) & m,
{
    if b == 1 {
        lemma_field_set_b1(w, off, off2, v);
    } else if b == 2 {
        lemma_field_set_b2(w, off, off2, v);
    } else {
        lemma_field_set_b4(w, off, off2, v);
    }
}


/// Words of a tier hold at least its groups and at most 63 fields of padding;
/// four times a tier's group count fits in the tier below.
proof fn lemma_tier_bounds(a: BitmapFrameAllocator, s: int)
    requires
        a.struct_wf(),
        0 <= s <= a.top(),
    ensures
        a.counts(s) <= a.fields(s),
        a.fields(s) <= a.counts(s) + 63,
        s >= 1 ==> 4 * a.counts(s) <= a.fields(s - 1),
{
    let gb = group_bits(s);
    let per = per_word(s);
    let c = a.counts(s);
    let q = word_count(s, c);
    assert(gb * per == 64);
    assert(q == (gb * c + 63) / 64);
    assert(q * 64 >= gb * c && q * 64 <= gb * c + 63) by (nonlinear_arith)
        requires
            q == (gb * c + 63) / 64,
            c >= 0,
            gb >= 1,
    ;
    assert(a.fields(s) == q * per);
    assert(q * per * gb == q * 64) by (nonlinear_arith)
        requires
            gb * per == 64,
    ;
    assert(q * per >= c && q * per <= c + 63) by (nonlinear_arith)
        requires
            q * per * gb == q * 64,
            q * 64 >= gb * c,
            q * 64 <= gb * c + 63,
            gb >= 1,
            per >= 1,
    ;
    if s >= 1 {
        let gb1 = group_bits(s - 1);
        let per1 = per_word(s - 1);
        let c1 = a.counts(s - 1);
        let q1 = word_count(s - 1, c1);
        assert(gb1 * per1 == 64);
        assert(a.words_len(s - 1) == q1);
        assert(q1 * 64 >= gb1 * c1) by (nonlinear_arith)
            requires
                q1 == (gb1 * c1 + 63) / 64,
                c1 >= 0,
                gb1 >= 1,
        ;
        assert(q1 * per1 * gb1 == q1 * 64) by (nonlinear_arith)
            requires
                gb1 * per1 == 64,
        ;
        assert(q1 * per1 >= c1) by (nonlinear_arith)
            requires
                q1 * per1 * gb1 == q1 * 64,
                q1 * 64 >= gb1 * c1,
                gb1 >= 1,
        ;
        // fields(s - 1) is a positive multiple of 4 at least c1, and
        // 4 * counts(s) is the least multiple of 4 at least c1
        assert(per1 % 4 == 0);
        assert(q1 * per1 == (q1 * (per1 / 4)) * 4) by (nonlinear_arith)
            requires
                per1 % 4 == 0,
        ;
        vstd::arithmetic::div_mod::lemma_mod_multiples_basic(q1 * (per1 / 4), 4);
        assert((q1 * per1) % 4 == 0);
        assert(c == (c1 + 3) / 4);
        assert(4 * c <= c1 + 3) by (nonlinear_arith)
            requires
                c == (c1 + 3) / 4,
                c1 >= 0,
        ;
        let f1 = q1 * per1;
        assert(4 * c <= f1) by (nonlinear_arith)
            requires
                4 * c <= c1 + 3,
                f1 >= c1,
                f1 % 4 == 0,
                (4 * c) % 4 == 0,
                c >= 0,
        ;
    }
}

/// Tier group counts never grow going up.
proof fn lemma_counts_le_first(a: BitmapFrameAllocator, s: int)
    requires
        a.struct_wf(),
        0 <= s <= a.top(),
    ensures
        a.counts(s) <= a.counts(0),
        a.counts(s) >= 1,
    decreases s,
{
    if s >= 1 {
        lemma_counts_le_first(a, s - 1);
        assert(a.counts(s) == (a.counts(s - 1) + 3) / 4);
    }
}

/// The ancestor index one tier up is the current one divided by four.
proof fn lemma_anc_step(i0: int, s0: int, s: int)
    requires
        0 <= i0,
        0 <= s0 <= s,
    ensures
        anc_idx(i0, s0, s) / 4 == anc_idx(i0, s0, s + 1),
{
    let p = pow4((s - s0) as nat) as int;
    lemma_pow4_pos((s - s0) as nat);
    assert(pow4((s + 1 - s0) as nat) == 4 * pow4((s - s0) as nat));
    vstd::arithmetic::div_mod::lemma_div_denominator(i0, p, 4);
    assert(p * 4 == 4 * p);
}

/// `pow4` is positive.
proof fn lemma_pow4_pos(s: nat)
    ensures
        pow4(s) >= 1,
    decreases s,
{
    if s > 0 {
        lemma_pow4_pos((s - 1) as nat);
    }
}

/// A group index below a tier's count lands below the next tier's count
/// after division by four.
proof fn lemma_counts_div4(a: BitmapFrameAllocator, s: int, i: int)
    requires
        a.struct_wf(),
        1 <= s + 1 <= a.top(),
        0 <= i < a.counts(s),
    ensures
        0 <= i / 4 < a.counts(s + 1),
{
    assert(a.counts(s + 1) == (a.counts(s) + 3) / 4);
    assert(i / 4 < (a.counts(s) + 3) / 4) by (nonlinear_arith)
        requires
            0 <= i < a.counts(s),
    ;
}

/// After one ancestor is re-merged, every group off the ancestor chain keeps
/// its invariant: its value and its children are untouched.
proof fn lemma_ok_frame(
    before: BitmapFrameAllocator,
    after: BitmapFrameAllocator,
    s0: int,
    i0: int,
    lvl: int,
    li: int,
)
    requires
        before.struct_wf(),
        after.struct_wf(),
        before.same_shape(after),
        1 <= lvl <= before.top(),
        li == anc_idx(i0, s0, lvl),
        0 <= i0,
        0 <= s0 < lvl,
        forall|s: int, i: int|
            0 <= s < 16 && 0 <= i < after.fields(s) && !(s == lvl && i == li)
                ==> #[trigger] after.avail_of(s, i) == before.avail_of(s, i),
        forall|s: int, i: int|
            1 <= s <= before.top() && 0 <= i < before.counts(s) && !(s0 < s <= before.top() && i
                == anc_idx(i0, s0, s)) ==> #[trigger] before.group_ok(s, i),
    ensures
        forall|s: int, i: int|
            1 <= s <= after.top() && 0 <= i < after.counts(s) && !(s0 < s <= after.top() && i
                == anc_idx(i0, s0, s)) ==> #[trigger] after.group_ok(s, i),
{
    assert forall|s: int, i: int|
        1 <= s <= after.top() && 0 <= i < after.counts(s) && !(s0 < s <= after.top() && i
            == anc_idx(i0, s0, s)) implies #[trigger] after.group_ok(s, i) by {
        lemma_tier_bounds(after, s);
        lemma_tier_bounds(after, s - 1);
        assert(before.group_ok(s, i));
        // the children of an off-chain group are off-chain too
        assert(!(s - 1 == lvl && 4 * i <= li < 4 * i + 4)) by {
            if s - 1 == lvl && 4 * i <= li < 4 * i + 4 {
                lemma_anc_step(i0, s0, lvl);
                assert(li / 4 == i) by (nonlinear_arith)
                    requires
                        4 * i <= li < 4 * i + 4,
                        i >= 0,
                ;
                assert(i == anc_idx(i0, s0, s));
            }
        }
        assert(after.avail_of(s, i) == before.avail_of(s, i));
        assert(after.avail_of(s - 1, 4 * i) == before.avail_of(s - 1, 4 * i));
        assert(after.avail_of(s - 1, 4 * i + 1) == before.avail_of(s - 1, 4 * i + 1));
        assert(after.avail_of(s - 1, 4 * i + 2) == before.avail_of(s - 1, 4 * i + 2));
        assert(after.avail_of(s - 1, 4 * i + 3) == before.avail_of(s - 1, 4 * i + 3));
        reveal(BitmapFrameAllocator::group_consistent);
        reveal(BitmapFrameAllocator::group_marker);
    }
}


/// The ancestor of an in-range group is in range at every tier above it.
proof fn lemma_anc_in_counts(a: BitmapFrameAllocator, i0: int, s0: int, s: int)
    requires
        a.struct_wf(),
        0 <= s0 <= s <= a.top(),
        0 <= i0 < a.counts(s0),
    ensures
        0 <= anc_idx(i0, s0, s) < a.counts(s),
    decreases s - s0,
{
    if s == s0 {
        assert(pow4(0) == 1);
        assert(i0 / 1int == i0) by (nonlinear_arith);
    } else {
        lemma_anc_in_counts(a, i0, s0, s - 1);
        lemma_anc_step(i0, s0, s - 1);
        lemma_counts_div4(a, s - 1, anc_idx(i0, s0, s - 1));
    }
}

/// Merge-consistency carries between states whose relevant values are equal.
proof fn lemma_consistent_transfer(
    before: BitmapFrameAllocator,
    after: BitmapFrameAllocator,
    s: int,
    i: int,
)
    requires
        before.group_consistent(s, i),
        after.avail_of(s, i) == before.avail_of(s, i),
        after.avail_of(s - 1, 4 * i) == before.avail_of(s - 1, 4 * i),
        after.avail_of(s - 1, 4 * i + 1) == before.avail_of(s - 1, 4 * i + 1),
        after.avail_of(s - 1, 4 * i + 2) == before.avail_of(s - 1, 4 * i + 2),
        after.avail_of(s - 1, 4 * i + 3) == before.avail_of(s - 1, 4 * i + 3),
    ensures
        after.group_consistent(s, i),
{
    reveal(BitmapFrameAllocator::group_consistent);
}


/// Ancestors of a group and of its parent coincide above the parent.
proof fn lemma_anc_chain_shift(i0: int, s0: int, s: int)
    requires
        0 <= i0,
        0 <= s0,
        s0 < s,
    ensures
        anc_idx(i0, s0, s) == anc_idx(i0 / 4, s0 + 1, s),
    decreases s - s0,
{
    if s == s0 + 1 {
        assert(pow4(0) == 1);
        assert(pow4(1) == 4);
        assert((i0 / 4) / 1int == i0 / 4) by (nonlinear_arith);
    } else {
        lemma_anc_chain_shift(i0, s0, s - 1);
        lemma_anc_step(i0, s0, s - 1);
        lemma_anc_step(i0 / 4, s0 + 1, s - 1);
    }
}

/// Range and padding facts survive a single in-range, in-bound update.
proof fn lemma_avail_wf_update(
    pre: BitmapFrameAllocator,
    now: BitmapFrameAllocator,
    lvl: int,
    li: int,
)
    requires
        pre.struct_wf(),
        now.struct_wf(),
        pre.same_shape(now),
        pre.avail_wf(),
        0 <= lvl <= pre.top(),
        0 <= li < pre.counts(lvl),
        now.avail_of(lvl, li) <= full_avail(lvl),
        forall|s: int, i: int|
            0 <= s < 16 && 0 <= i < now.fields(s) && !(s == lvl && i == li)
                ==> #[trigger] now.avail_of(s, i) == pre.avail_of(s, i),
    ensures
        now.avail_wf(),
{
    assert forall|s: int, i: int|
        0 <= s <= now.top() && 0 <= i < now.fields(s) implies (#[trigger] now.avail_of(s, i)
        <= full_avail(s) && (i >= now.counts(s) ==> now.avail_of(s, i) == 0)) by {
        if !(s == lvl && i == li) {
            assert(now.avail_of(s, i) == pre.avail_of(s, i));
        }
    }
}

/// After the direct parent of a changed group is re-merged, the ancestors
/// above the grandparent are still consistent: neither they nor their
/// children changed. The grandparent itself may have lost consistency, since
/// the parent is one of its children.
proof fn lemma_after_parent_update(
    pre: BitmapFrameAllocator,
    now: BitmapFrameAllocator,
    s0: int,
    i0: int,
)
    requires
        pre.struct_wf(),
        now.struct_wf(),
        pre.same_shape(now),
        0 <= s0 < pre.top(),
        0 <= i0 < pre.counts(s0),
        forall|s: int, i: int|
            0 <= s < 16 && 0 <= i < now.fields(s) && !(s == s0 + 1 && i == i0 / 4)
                ==> #[trigger] now.avail_of(s, i) == pre.avail_of(s, i),
        forall|s: int|
            s0 + 2 <= s <= pre.top() ==> #[trigger] pre.group_consistent(
                s,
                anc_idx(i0, s0, s),
            ),
    ensures
        forall|s: int|
            s0 + 3 <= s <= now.top() ==> #[trigger] now.group_consistent(
                s,
                anc_idx(i0, s0, s),
            ),
        forall|s: int|
            s0 + 3 <= s <= now.top() ==> #[trigger] now.group_consistent(
                s,
                anc_idx(i0 / 4, s0 + 1, s),
            ),
{
    assert forall|s: int|
        s0 + 3 <= s <= now.top() implies #[trigger] now.group_consistent(
        s,
        anc_idx(i0, s0, s),
    ) by {
        let ai = anc_idx(i0, s0, s);
        lemma_anc_in_counts(pre, i0, s0, s);
        lemma_tier_bounds(pre, s);
        lemma_tier_bounds(pre, s - 1);
        assert(pre.group_consistent(s, ai));
        lemma_consistent_transfer(pre, now, s, ai);
    }
    assert forall|s: int|
        s0 + 3 <= s <= now.top() implies #[trigger] now.group_consistent(
        s,
        anc_idx(i0 / 4, s0 + 1, s),
    ) by {
        lemma_anc_chain_shift(i0, s0, s);
    }
}

/// The merge of in-range children is in range for the parent.
proof fn lemma_merge_le_full(s: int, a0: int, a1: int, a2: int, a3: int)
    requires
        s >= 1,
        0 <= a0 <= full_avail(s - 1),
        0 <= a1 <= full_avail(s - 1),
        0 <= a2 <= full_avail(s - 1),
        0 <= a3 <= full_avail(s - 1),
    ensures
        0 <= merge_spec(s, a0, a1, a2, a3) <= full_avail(s),
{
}

} // verus!
