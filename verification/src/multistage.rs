//! A two-stage lookup table over the Unicode code-point domain.
//!
//! The domain 0..0x10FFFF is sparse: assignments cluster in scripts. A flat
//! array would waste memory and a hash map would waste lookup time, so code
//! points are split into a high part (`cp >> shift`) selecting a block and a
//! low part (`cp & (2^shift - 1)`) indexing into it. Blocks of `2^shift`
//! slots are allocated lazily, stored in one flat buffer, and never freed or
//! moved once allocated.

use vstd::arithmetic::div_mod::{
    lemma_fundamental_div_mod, lemma_fundamental_div_mod_converse, lemma_mod_bound,
};
use vstd::arithmetic::power2::{
    lemma2_to64, lemma_pow2_pos, lemma_pow2_strictly_increases, pow2,
};
use vstd::bits::{
    lemma_u32_low_bits_mask_is_mod, lemma_u32_pow2_no_overflow, lemma_u32_shl_is_mul,
    lemma_u32_shr_is_div, lemma_usize_pow2_no_overflow, lemma_usize_shl_is_mul,
    lemma_usize_shr_is_div, low_bits_mask,
};
use vstd::pervasive::VecAdditionalExecFns;
use vstd::prelude::*;

verus! {

/// Marks a slot of the high-level index whose block was never allocated.
pub(crate) const UNALLOCATED: u16 = 0xFFFF;

/// Two-stage map from a 21-bit code-point domain to values of type `T`.
pub struct MultiStage<T> {
    /// Block-size exponent; the block size is `2^shift`.
    shift: u8,
    /// One slot per `code_point >> shift`, holding the index of that range's
    /// block in `low`, or `UNALLOCATED`.
    high: Vec<u16>,
    /// Flat storage of all allocated blocks, each of size `2^shift`.
    low: Vec<T>,
    /// The value every slot of a freshly allocated block holds until written.
    fill: T,
}

impl<T> MultiStage<T> {
    /// The block-size exponent fixed at construction.
    pub closed spec fn spec_shift(self) -> nat {
        self.shift as nat
    }

    /// The value an allocated slot holds until it is written.
    pub closed spec fn fill_value(self) -> T {
        self.fill
    }

    /// The block size, `2^shift`.
    pub open spec fn block_size(self) -> nat {
        pow2(self.spec_shift())
    }

    /// The slot of the high-level index that covers `cp`.
    pub open spec fn high_index(self, cp: u32) -> nat {
        (cp as nat) / self.block_size()
    }

    /// The offset of `cp` within its block.
    pub open spec fn low_index(self, cp: u32) -> nat {
        (cp as nat) % self.block_size()
    }

    /// Number of allocated blocks.
    closed spec fn num_blocks(self) -> nat {
        self.low@.len() / self.block_size()
    }

    /// Position in `low` of the slot for `cp`, meaningful only when the
    /// covering block is allocated.
    closed spec fn slot_of(self, cp: u32) -> int {
        (self.high@[self.high_index(cp) as int] as int) * (self.block_size() as int)
            + (self.low_index(cp) as int)
    }

    /// Structural invariant: the high-level index addresses only allocated
    /// blocks, every block has exactly one high-level slot pointing at it,
    /// and `low` consists of whole blocks.
    pub closed spec fn wf(self) -> bool {
        &&& 1 <= self.shift < 16
        &&& self.high@.len() <= 0xFFFF
        &&& self.low@.len() == self.num_blocks() * self.block_size()
        &&& count_allocated(self.high@) == self.num_blocks()
        &&& forall|i: int|
            0 <= i < self.high@.len() && self.high@[i] != UNALLOCATED ==> (
            #[trigger] self.high@[i] as nat) < self.num_blocks()
        &&& forall|i: int, j: int|
            #![trigger self.high@[i], self.high@[j]]
            0 <= i < j < self.high@.len() && self.high@[i] != UNALLOCATED && self.high@[j]
                != UNALLOCATED ==> self.high@[i] != self.high@[j]
    }

    /// The value stored for `cp`: `None` while the covering block was never
    /// allocated, otherwise the block slot's current content.
    pub closed spec fn spec_get(self, cp: u32) -> Option<T> {
        let h = self.high_index(cp) as int;
        if h < self.high@.len() && self.high@[h] != UNALLOCATED {
            Some(self.low@[self.slot_of(cp)])
        } else {
            None
        }
    }
}

impl<T: Copy> MultiStage<T> {
    /// An empty table with the given block-size exponent; `fill` is the value
    /// every slot holds until it is written.
    pub fn new(shift: u8, fill: T) -> (r: MultiStage<T>)
        requires
            1 <= shift < 16,
        ensures
            r.wf(),
            r.spec_shift() == shift,
            r.fill_value() == fill,
            forall|cp: u32| r.spec_get(cp) is None,
    {
        let r = MultiStage { shift, high: Vec::new(), low: Vec::new(), fill };
        proof {
            lemma_pow2_pos(shift as nat);
            assert(r.num_blocks() == 0) by {
                assert(r.low@.len() == 0);
            }
            assert(count_allocated(r.high@) == 0);
            assert(r.low@.len() == r.num_blocks() * r.block_size());
        }
        r
    }

    /// The low- and high-level positions of a code point, in that order.
    pub fn indices(&self, index: u32) -> (r: (usize, usize))
        requires
            self.wf(),
        ensures
            r.0 == self.low_index(index),
            r.1 == self.high_index(index),
    {
        let s = self.shift as u32;
        proof {
            lemma_u32_pow2_no_overflow(s as nat);
            lemma_u32_shl_is_mul(1u32, s);
            lemma_u32_shr_is_div(index, s);
            assert(low_bits_mask(s as nat) == (pow2(s as nat) - 1) as nat);
            lemma_u32_low_bits_mask_is_mod(index, s as nat);
            lemma_pow2_pos(s as nat);
            lemma_mod_bound(index as int, pow2(s as nat) as int);
        }
        let high_idx = (index >> s) as usize;
        let low_idx = (index & ((1u32 << s) - 1)) as usize;
        (low_idx, high_idx)
    }

    /// Read-only lookup; `None` while the covering block was never allocated.
    pub fn get(&self, index: u32) -> (r: Option<&T>)
        requires
            self.wf(),
        ensures
            match r {
                Some(v) => self.spec_get(index) == Some(*v),
                None => self.spec_get(index) is None,
            },
    {
        let (low_idx, high_idx) = self.indices(index);
        if high_idx < self.high.len() && self.high[high_idx] != UNALLOCATED {
            let block = self.high[high_idx] as usize;
            let s = self.shift as usize;
            let n = self.low.len();
            proof {
                self.lemma_slot_in_bounds(index);
                lemma_usize_pow2_no_overflow(s as nat);
                lemma_usize_shl_is_mul(block, s);
            }
            let slot = (block << s) + low_idx;
            assert(slot == self.slot_of(index));
            Some(&self.low[slot])
        } else {
            None
        }
    }

    /// The slot of an allocated block stays inside `low`.
    proof fn lemma_slot_in_bounds(self, cp: u32)
        requires
            self.wf(),
            self.low@.len() <= usize::MAX,
            self.high_index(cp) < self.high@.len(),
            self.high@[self.high_index(cp) as int] != UNALLOCATED,
        ensures
            0 <= self.slot_of(cp) < self.low@.len(),
            (self.high@[self.high_index(cp) as int] as int) * (self.block_size() as int)
                == (self.high@[self.high_index(cp) as int] as nat) * self.block_size(),
            self.low_index(cp) < self.block_size(),
            (self.high@[self.high_index(cp) as int] as nat) * self.block_size() + self.low_index(
                cp,
            ) < usize::MAX,
    {
        let b = self.high@[self.high_index(cp) as int] as int;
        let bs = self.block_size() as int;
        lemma_pow2_pos(self.spec_shift());
        lemma_mod_bound(cp as int, bs);
        assert(b < self.num_blocks());
        assert((b + 1) * bs <= (self.num_blocks() as int) * bs) by (nonlinear_arith)
            requires
                b + 1 <= self.num_blocks() as int,
                bs > 0,
        ;
        assert(b * bs + self.low_index(cp) < (b + 1) * bs) by (nonlinear_arith)
            requires
                (self.low_index(cp) as int) < bs,
        ;
        assert(b * bs >= 0) by (nonlinear_arith)
            requires
                b >= 0,
                bs > 0,
        ;
    }

    /// Slots of distinct code points never alias.
    proof fn lemma_slot_injective(self, a: u32, b: u32)
        requires
            self.wf(),
            self.spec_get(a) is Some,
            self.spec_get(b) is Some,
            self.slot_of(a) == self.slot_of(b),
        ensures
            a == b,
    {
        let bs = self.block_size() as int;
        let ha = self.high_index(a) as int;
        let hb = self.high_index(b) as int;
        let ba = self.high@[ha] as int;
        let bb = self.high@[hb] as int;
        let la = self.low_index(a) as int;
        let lb = self.low_index(b) as int;
        lemma_pow2_pos(self.spec_shift());
        lemma_mod_bound(a as int, bs);
        lemma_mod_bound(b as int, bs);
        let x = self.slot_of(a);
        lemma_fundamental_div_mod_converse(x, bs, ba, la);
        lemma_fundamental_div_mod_converse(x, bs, bb, lb);
        assert(ba == bb && la == lb);
        assert(ha == hb);
        lemma_fundamental_div_mod(a as int, bs);
        lemma_fundamental_div_mod(b as int, bs);
    }

    /// A readable slot for the given code point. If its covering block was
    /// never touched before, the block is allocated, every slot of it set to
    /// the fill value. Returns the slot's current content; blocks already
    /// allocated, and slots of other blocks, are left exactly as they were.
    pub fn entry(&mut self, index: u32) -> (r: T)
        requires
            old(self).wf(),
            old(self).high_index(index) < 0xFFFF,
        ensures
            final(self).wf(),
            final(self).spec_shift() == old(self).spec_shift(),
            final(self).fill_value() == old(self).fill_value(),
            final(self).spec_get(index) is Some,
            r == final(self).spec_get(index)->Some_0,
            forall|cp: u32| #[trigger]
                final(self).spec_get(cp) == (if old(self).spec_get(cp) is None && old(
                    self,
                ).high_index(cp) == old(self).high_index(index) {
                    Some(old(self).fill_value())
                } else {
                    old(self).spec_get(cp)
                }),
    {
        let (low_idx, high_idx) = self.indices(index);
        let ghost high0 = self.high@;
        while self.high.len() <= high_idx
            invariant
                self.shift == old(self).shift,
                self.fill == old(self).fill,
                self.low == old(self).low,
                self.wf(),
                high_idx < 0xFFFF,
                high_idx == old(self).high_index(index),
                self.high@.len() >= high0.len(),
                forall|i: int| 0 <= i < high0.len() ==> self.high@[i] == high0[i],
                forall|i: int|
                    high0.len() <= i < self.high@.len() ==> self.high@[i] == UNALLOCATED,
            decreases high_idx + 1 - self.high.len(),
        {
            proof {
                lemma_count_push(self.high@, UNALLOCATED);
            }
            self.high.push(UNALLOCATED);
        }
        let ghost mid = *self;
        proof {
            assert forall|cp: u32| #[trigger] mid.spec_get(cp) == old(self).spec_get(cp) by {
                let h = mid.high_index(cp) as int;
                if h < high0.len() {
                    assert(mid.high@[h] == high0[h]);
                } else if h < mid.high@.len() {
                    assert(mid.high@[h] == UNALLOCATED);
                }
            }
        }
        let s = self.shift as usize;
        proof {
            lemma_usize_pow2_no_overflow(s as nat);
            lemma_usize_shl_is_mul(1usize, s);
            lemma_pow2_pos(s as nat);
        }
        let bsize = 1usize << s;
        proof {
            lemma2_to64();
            assert(pow2(15nat) == 0x8000);
            if (s as nat) < 15 {
                lemma_pow2_strictly_increases(s as nat, 15nat);
            }
            assert(0 < bsize <= 0x8000);
        }
        if self.high[high_idx] == UNALLOCATED {
            let len = self.low.len();
            proof {
                lemma_count_with_unallocated(self.high@, high_idx as int);
                assert(mid.num_blocks() <= 0xFFFE);
                lemma_usize_shr_is_div(len, s);
                assert(len + bsize <= 0xFFFF * 0x8000) by (nonlinear_arith)
                    requires
                        len == mid.num_blocks() * (bsize as nat),
                        mid.num_blocks() + 1 <= 0xFFFF,
                        0 < bsize <= 0x8000,
                ;
            }
            let block_idx = (len >> s) as u16;
            proof {
                assert(block_idx == mid.num_blocks() as u16);
                assert(block_idx != UNALLOCATED);
            }
            let mut k: usize = 0;
            while k < bsize
                invariant
                    k <= bsize,
                    self.shift == mid.shift,
                    self.fill == mid.fill,
                    self.high == mid.high,
                    self.low@.len() == len + k,
                    len + bsize <= 0xFFFF * 0x8000,
                    forall|i: int| 0 <= i < len ==> self.low@[i] == mid.low@[i],
                    forall|i: int| len <= i < self.low@.len() ==> self.low@[i] == mid.fill,
                decreases bsize - k,
            {
                self.low.push(self.fill);
                k += 1;
            }
            proof {
                lemma_count_update(self.high@, high_idx as int, block_idx);
            }
            self.high.set(high_idx, block_idx);
            proof {
                self.lemma_after_alloc(mid, index, len as int);
            }
        } else {
            assert(mid.spec_get(index) is Some);
        }
        let block = self.high[high_idx] as usize;
        let n = self.low.len();
        proof {
            self.lemma_slot_in_bounds(index);
            lemma_usize_pow2_no_overflow(s as nat);
            lemma_usize_shl_is_mul(block, s);
        }
        let slot = (block << s) + low_idx;
        assert(slot == self.slot_of(index));
        self.low[slot]
    }

    /// After allocating a fresh fill-initialised block for `index`'s range,
    /// the table is well formed again and only that range's unassigned code
    /// points changed, each now holding the fill value.
    proof fn lemma_after_alloc(self, mid: MultiStage<T>, index: u32, len: int)
        requires
            mid.wf(),
            self.shift == mid.shift,
            self.fill == mid.fill,
            mid.high_index(index) < mid.high@.len(),
            mid.high@[mid.high_index(index) as int] == UNALLOCATED,
            len == mid.low@.len(),
            len <= usize::MAX,
            self.low@.len() == len + mid.block_size(),
            forall|i: int| 0 <= i < len ==> self.low@[i] == mid.low@[i],
            forall|i: int| len <= i < self.low@.len() ==> self.low@[i] == mid.fill,
            self.high@ == mid.high@.update(
                mid.high_index(index) as int,
                (mid.num_blocks() as u16),
            ),
            mid.num_blocks() <= 0xFFFE,
            count_allocated(self.high@) == count_allocated(mid.high@) + 1,
        ensures
            self.wf(),
            self.spec_get(index) == Some(mid.fill),
            forall|cp: u32| #[trigger]
                self.spec_get(cp) == (if mid.spec_get(cp) is None && mid.high_index(cp)
                    == mid.high_index(index) {
                    Some(mid.fill_value())
                } else {
                    mid.spec_get(cp)
                }),
    {
        let bs = mid.block_size() as int;
        let hidx = mid.high_index(index) as int;
        let nb = mid.num_blocks() as int;
        lemma_pow2_pos(mid.spec_shift());
        assert((nb + 1) * bs == nb * bs + bs) by (nonlinear_arith);
        assert(len == nb * bs);
        assert(self.low@.len() as int == (nb + 1) * bs + 0);
        lemma_fundamental_div_mod_converse(self.low@.len() as int, bs, nb + 1, 0);
        assert(self.num_blocks() == nb + 1);
        assert(self.wf()) by {
            assert forall|i: int, j: int|
                #![trigger self.high@[i], self.high@[j]]
                0 <= i < j < self.high@.len() && self.high@[i] != UNALLOCATED && self.high@[j]
                    != UNALLOCATED implies self.high@[i] != self.high@[j] by {
                if i != hidx && j != hidx {
                    assert(mid.high@[i] == self.high@[i] && mid.high@[j] == self.high@[j]);
                }
            }
        }
        assert forall|cp: u32| #[trigger]
            self.spec_get(cp) == (if mid.spec_get(cp) is None && mid.high_index(cp)
                == mid.high_index(index) {
                Some(mid.fill_value())
            } else {
                mid.spec_get(cp)
            }) by {
            let h = self.high_index(cp) as int;
            lemma_mod_bound(cp as int, bs);
            if h == hidx {
                assert(self.high@[h] == nb as u16);
                assert(self.slot_of(cp) == nb * bs + self.low_index(cp));
                assert(len <= self.slot_of(cp) < self.low@.len()) by (nonlinear_arith)
                    requires
                        self.slot_of(cp) == nb * bs + self.low_index(cp),
                        len == nb * bs,
                        0 <= self.low_index(cp) < bs,
                        self.low@.len() == len + bs,
                ;
                assert(self.spec_get(cp) == Some(mid.fill));
            } else if h < mid.high@.len() && mid.high@[h] != UNALLOCATED {
                mid.lemma_slot_in_bounds(cp);
                assert(self.slot_of(cp) == mid.slot_of(cp));
                assert(self.low@[mid.slot_of(cp)] == mid.low@[mid.slot_of(cp)]);
            } else {
                assert(self.spec_get(cp) is None && mid.spec_get(cp) is None);
            }
        }
    }

    /// Overwrite the slot for `index`, whose block must already be allocated.
    /// Every other code point keeps its value: the round trip through a later
    /// `get` returns exactly the value written last.
    pub fn set(&mut self, index: u32, value: T)
        requires
            old(self).wf(),
            old(self).spec_get(index) is Some,
        ensures
            final(self).wf(),
            final(self).spec_shift() == old(self).spec_shift(),
            final(self).fill_value() == old(self).fill_value(),
            final(self).spec_get(index) == Some(value),
            forall|cp: u32|
                cp != index ==> #[trigger] final(self).spec_get(cp) == old(self).spec_get(cp),
    {
        let (low_idx, high_idx) = self.indices(index);
        let block = self.high[high_idx] as usize;
        let s = self.shift as usize;
        let n = self.low.len();
        proof {
            self.lemma_slot_in_bounds(index);
            lemma_usize_pow2_no_overflow(s as nat);
            lemma_usize_shl_is_mul(block, s);
        }
        let slot = (block << s) + low_idx;
        assert(slot == self.slot_of(index));
        self.low.set(slot, value);
        proof {
            assert(self.wf());
            assert forall|cp: u32| cp != index implies #[trigger] self.spec_get(cp) == old(
                self,
            ).spec_get(cp) by {
                let h = self.high_index(cp) as int;
                if h < self.high@.len() && self.high@[h] != UNALLOCATED {
                    assert(old(self).spec_get(cp) is Some);
                    if old(self).slot_of(cp) == old(self).slot_of(index) {
                        old(self).lemma_slot_injective(cp, index);
                        assert(false);
                    } else {
                        old(self).lemma_slot_in_bounds(cp);
                        assert(self.slot_of(cp) == old(self).slot_of(cp));
                        assert(self.low@[self.slot_of(cp)] == old(self).low@[old(
                            self,
                        ).slot_of(cp)]);
                    }
                } else {
                    assert(self.spec_get(cp) is None);
                    assert(old(self).spec_get(cp) is None);
                }
            }
        }
    }
}

/// How many slots of a high-level index point at an allocated block.
spec fn count_allocated(s: Seq<u16>) -> nat
    decreases s.len(),
{
    if s.len() == 0 {
        0
    } else {
        count_allocated(s.drop_last()) + if s.last() != UNALLOCATED {
            1nat
        } else {
            0nat
        }
    }
}

proof fn lemma_count_le_len(s: Seq<u16>)
    ensures
        count_allocated(s) <= s.len(),
    decreases s.len(),
{
    if s.len() > 0 {
        lemma_count_le_len(s.drop_last());
    }
}

proof fn lemma_count_with_unallocated(s: Seq<u16>, i: int)
    requires
        0 <= i < s.len(),
        s[i] == UNALLOCATED,
    ensures
        count_allocated(s) <= s.len() - 1,
    decreases s.len(),
{
    if i == s.len() - 1 {
        lemma_count_le_len(s.drop_last());
    } else {
        lemma_count_with_unallocated(s.drop_last(), i);
    }
}

proof fn lemma_count_push(s: Seq<u16>, x: u16)
    ensures
        count_allocated(s.push(x)) == count_allocated(s) + if x != UNALLOCATED {
            1nat
        } else {
            0nat
        },
{
    assert(s.push(x).drop_last() =~= s);
}

proof fn lemma_count_update(s: Seq<u16>, i: int, v: u16)
    requires
        0 <= i < s.len(),
        s[i] == UNALLOCATED,
        v != UNALLOCATED,
    ensures
        count_allocated(s.update(i, v)) == count_allocated(s) + 1,
    decreases s.len(),
{
    let t = s.update(i, v);
    if i == s.len() - 1 {
        assert(t.drop_last() =~= s.drop_last());
    } else {
        assert(t.drop_last() =~= s.drop_last().update(i, v));
        lemma_count_update(s.drop_last(), i, v);
    }
}

} // verus!
