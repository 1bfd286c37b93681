//! Allocation orders, bitmap group sizes, and the cached-availability values
//! the hierarchical frame allocator stores per group.

use vstd::prelude::*;

verus! {

/// The largest allocation order the frame allocator serves: order 10 spans
/// 1024 contiguous order-0 frames.
pub const MAX_PAGE_ORDER: u8 = 10;

/// How many bitmap tiers the allocator keeps room for.
pub const GROUP_SIZE_COUNT: u8 = 16;

/// Bits per stored Avail value at tier `s`.
pub open spec fn group_bits(s: int) -> int {
    if s == 0 {
        1
    } else if s == 1 {
        2
    } else {
        4
    }
}

/// Avail values packed into one 64-bit word at tier `s`.
pub open spec fn per_word(s: int) -> int {
    64int / group_bits(s)
}

/// Mask selecting one Avail field at tier `s`.
pub open spec fn group_mask(s: int) -> int {
    if s == 0 {
        1
    } else if s == 1 {
        3
    } else {
        15
    }
}

/// The Avail value of a size-`s` group whose whole subtree is free: one more
/// than the largest order the group spans.
pub open spec fn umax_avail(s: int) -> int {
    2 * s + 1
}

/// The largest Avail value ever stored: `MAX_PAGE_ORDER + 1`.
pub open spec fn cap_avail() -> int {
    11
}

/// The Avail value actually stored for a fully free size-`s` group: capped,
/// since no order above `MAX_PAGE_ORDER` is served.
pub open spec fn full_avail(s: int) -> int {
    if umax_avail(s) < cap_avail() {
        umax_avail(s)
    } else {
        cap_avail()
    }
}

/// 4 to the power `s`: leaves per size-`s` group.
pub open spec fn pow4(s: nat) -> nat
    decreases s,
{
    if s == 0 {
        1
    } else {
        4 * pow4((s - 1) as nat)
    }
}

/// 2 to the power `k`: frames per order-`k` block.
pub open spec fn pow2k(k: nat) -> nat
    decreases k,
{
    if k == 0 {
        1
    } else {
        2 * pow2k((k - 1) as nat)
    }
}

/// The largest of four values.
pub open spec fn max4(a0: int, a1: int, a2: int, a3: int) -> int {
    let m01 = if a0 >= a1 {
        a0
    } else {
        a1
    };
    let m23 = if a2 >= a3 {
        a2
    } else {
        a3
    };
    if m01 >= m23 {
        m01
    } else {
        m23
    }
}

/// The merge rule: the Avail a size-`s` group caches, given its four size
/// `s - 1` children's Avail values. Both buddy halves fully free make the
/// next order up available from either half; one fully free half makes one
/// order-step less; otherwise the best child wins.
pub open spec fn merge_spec(s: int, a0: int, a1: int, a2: int, a3: int) -> int {
    let um = umax_avail(s - 1);
    let left_max = a0 == um && a1 == um;
    let right_max = a2 == um && a3 == um;
    if left_max && right_max {
        if um + 2 < cap_avail() {
            um + 2
        } else {
            cap_avail()
        }
    } else if left_max || right_max {
        if um + 1 < cap_avail() {
            um + 1
        } else {
            cap_avail()
        }
    } else {
        max4(a0, a1, a2, a3)
    }
}

/// A bitmap tier index: tier `s` groups cover `pow4(s)` frames each.
#[derive(PartialEq, Eq, Structural, Clone, Copy)]
pub struct GroupSize(pub u8);

impl GroupSize {
    /// Bits per stored Avail value in this tier.
    pub fn bits(self) -> (r: u64)
        ensures
            r == group_bits(self.0 as int),
    {
        match self.0 {
            0 => 1,
            1 => 2,
            _ => 4,
        }
    }

    /// Avail values packed into one 64-bit word in this tier.
    pub fn avails_per_entry(self) -> (r: u64)
        ensures
            r == per_word(self.0 as int),
    {
        64 / self.bits()
    }

    /// The word index and bit offset of group `idx` of this tier.
    pub fn idx_offset(self, idx: usize) -> (r: (usize, u64))
        ensures
            r.0 == idx as int / per_word(self.0 as int),
            r.1 == (idx as int % per_word(self.0 as int)) * group_bits(self.0 as int),
            r.1 + group_bits(self.0 as int) <= 64,
    {
        let per = self.avails_per_entry() as usize;
        let entry_idx = idx / per;
        let rem = idx % per;
        proof {
            let p = per_word(self.0 as int);
            let b = group_bits(self.0 as int);
            assert(0 <= (idx as int % p) * b && (idx as int % p) * b + b <= 64)
                by (nonlinear_arith)
                requires
                    p == 64int / b,
                    b == 1 || b == 2 || b == 4,
                    0 <= idx as int % p < p,
            ;
        }
        let bit_offset = (rem as u64) * self.bits();
        (entry_idx, bit_offset)
    }

    /// Mask selecting one Avail field of this tier.
    pub fn mask(self) -> (r: u64)
        ensures
            r == group_mask(self.0 as int),
    {
        let b = self.bits();
        proof {
            assert((1u64 << b) == if b == 1 {
                2u64
            } else if b == 2 {
                4u64
            } else {
                16u64
            }) by (bit_vector)
                requires
                    b == 1 || b == 2 || b == 4,
            ;
        }
        (1u64 << b) - 1
    }

    /// The Avail of a fully free group of this tier, as stored.
    pub fn max_avail(self) -> (r: Avail)
        requires
            self.0 < GROUP_SIZE_COUNT,
        ensures
            r.0 == umax_avail(self.0 as int),
    {
        Avail(self.0 * 2 + 1)
    }

    /// The next smaller tier.
    pub fn sub_size(self) -> (r: GroupSize)
        requires
            self.0 >= 1,
        ensures
            r.0 == self.0 - 1,
    {
        GroupSize(self.0 - 1)
    }

    /// The next larger tier.
    pub fn super_size(self) -> (r: GroupSize)
        requires
            self.0 < GROUP_SIZE_COUNT,
        ensures
            r.0 == self.0 + 1,
    {
        GroupSize(self.0 + 1)
    }
}

/// A cached availability summary: `0` for nothing free, else one more than
/// the best order obtainable.
#[derive(PartialEq, Eq, Structural, Clone, Copy)]
pub struct Avail(pub u8);

impl Avail {
    /// The Avail of a group with nothing to give.
    pub fn empty() -> (r: Avail)
        ensures
            r.0 == 0,
    {
        Avail(0)
    }

    /// The largest Avail ever stored.
    pub fn max() -> (r: Avail)
        ensures
            r.0 == cap_avail(),
    {
        Avail(MAX_PAGE_ORDER + 1)
    }

    /// One order-step up: a buddy pair of groups at this Avail serves it.
    pub fn two(&self) -> (r: Avail)
        requires
            self.0 < 255,
        ensures
            r.0 == self.0 + 1,
    {
        Avail(self.0 + 1)
    }

    /// Two order-steps up: four such groups serve it.
    pub fn four(&self) -> (r: Avail)
        requires
            self.0 < 254,
        ensures
            r.0 == self.0 + 2,
    {
        Avail(self.0 + 2)
    }

    /// The merge rule over a group's four children.
    pub fn merge(size: GroupSize, sub_avails: [Avail; 4]) -> (r: Avail)
        requires
            1 <= size.0 < GROUP_SIZE_COUNT,
        ensures
            r.0 == merge_spec(
                size.0 as int,
                sub_avails[0].0 as int,
                sub_avails[1].0 as int,
                sub_avails[2].0 as int,
                sub_avails[3].0 as int,
            ),
    {
        let sub_group_max_order = size.sub_size().max_avail();

        let left_max = sub_avails[0].0 == sub_group_max_order.0 && sub_avails[1].0
            == sub_group_max_order.0;
        let right_max = sub_avails[2].0 == sub_group_max_order.0 && sub_avails[3].0
            == sub_group_max_order.0;
        if left_max && right_max {
            let four = sub_group_max_order.four();
            if four.0 < Avail::max().0 {
                return four;
            }
            return Avail::max();
        } else if left_max || right_max {
            let two = sub_group_max_order.two();
            if two.0 < Avail::max().0 {
                return two;
            }
            return Avail::max();
        }
        let m01 = if sub_avails[0].0 >= sub_avails[1].0 {
            sub_avails[0]
        } else {
            sub_avails[1]
        };
        let m23 = if sub_avails[2].0 >= sub_avails[3].0 {
            sub_avails[2]
        } else {
            sub_avails[3]
        };
        if m01.0 >= m23.0 {
            m01
        } else {
            m23
        }
    }
}

/// An allocation order: order `k` spans `pow2k(k)` contiguous order-0 frames.
#[derive(Clone, Copy, PartialEq, Eq, Structural)]
pub struct FrameOrder(pub u8);

impl FrameOrder {
    /// Orders above `MAX_PAGE_ORDER` are not served.
    pub open spec fn wf(self) -> bool {
        self.0 <= MAX_PAGE_ORDER
    }

    /// Even orders take one whole group of their tier; odd orders take a
    /// matched buddy pair of groups one tier down.
    pub fn is_single_group(self) -> (r: bool)
        ensures
            r <==> (self.0 as int) % 2 == 0,
    {
        self.0 % 2 == 0
    }

    /// The bitmap tier this order allocates from.
    pub fn group_size(self) -> (r: GroupSize)
        requires
            self.wf(),
        ensures
            r.0 == (self.0 + 1) / 2,
    {
        GroupSize((self.0 + 1) / 2)
    }

    /// The Avail a group must cache for this order to be taken from it.
    pub fn free_avail(self) -> (r: Avail)
        requires
            self.wf(),
        ensures
            r.0 == self.0 + 1,
    {
        Avail(self.0 + 1)
    }

    /// log2 of the frames an order-`self` block spans.
    pub fn page_shift(self) -> (r: u64)
        ensures
            r == self.0,
    {
        self.0 as u64
    }
}

/// `pow4(s) == pow2k(2 * s)`.
pub proof fn lemma_pow4_pow2k(s: nat)
    ensures
        pow4(s) == pow2k(2 * s),
    decreases s,
{
    if s > 0 {
        lemma_pow4_pow2k((s - 1) as nat);
        assert(pow2k(2 * s) == 2 * pow2k((2 * s - 1) as nat));
        assert((2 * s - 1) as nat == 2 * (s - 1) + 1);
        assert(pow2k((2 * s - 1) as nat) == 2 * pow2k((2 * (s - 1)) as nat));
    }
}

/// `pow2k` is positive and monotone.
pub proof fn lemma_pow2k_pos(k: nat)
    ensures
        pow2k(k) >= 1,
    decreases k,
{
    if k > 0 {
        lemma_pow2k_pos((k - 1) as nat);
    }
}

} // verus!
