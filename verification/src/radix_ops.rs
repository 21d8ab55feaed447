//! Block-level radix operations: shifts, resizing, comparisons with zero and
//! boolean blocks.
use crate::radix::{
    all_zero, carries_empty, copy_blocks, lemma_radix_mod, lemma_radix_push, lemma_radix_split, lemma_radix_zero,
    pow_nat, BooleanBlock, RadixCiphertext,
};
use crate::server_key::{reduced, ServerKey, ZeroComparisonType};
use crate::shortint::Ciphertext;
use vstd::arithmetic::power2::pow2;
use vstd::prelude::*;

verus! {

/// 1 when the flag holds, 0 otherwise.
pub open spec fn bit(b: bool) -> u64 {
    if b {
        1
    } else {
        0
    }
}

impl ServerKey {
    /// A boolean block holding `b`.
    pub fn boolean_block(&self, b: bool) -> (r: Ciphertext)
        requires
            self.wf(),
        ensures
            self.boolean_wf(r),
            r.value == bit(b),
    {
        proof {
            self.lemma_wf();
        }
        Ciphertext {
            value: if b {
                1
            } else {
                0
            },
            degree: 1,
            message_modulus: self.key.message_modulus,
            carry_modulus: self.key.carry_modulus,
        }
    }

    /// Shifts the integer left by `shift` bits, dropping the bits that leave
    /// the last block: the value becomes `v * 2^shift` modulo `msg ^ len`.
    pub fn unchecked_scalar_left_shift_assign_parallelized(
        &self,
        ct: &mut RadixCiphertext,
        shift: u64,
    )
        requires
            self.wf(),
            self.normalized(old(ct).blocks@),
            1 <= shift <= self.msg_bits(),
        ensures
            final(ct).blocks@.len() == old(ct).blocks@.len(),
            self.clean(final(ct).blocks@),
            self.value(final(ct).blocks@) == reduced_mul(
                self.value(old(ct).blocks@),
                pow2(shift as nat),
                self.modulus(old(ct).blocks@.len()),
            ),
            forall|j: int|
                0 <= j < final(ct).blocks@.len() ==> #[trigger] final(ct).blocks@[j].value == shifted_block(
                    old(ct).blocks@,
                    j,
                    self.msg(),
                    pow2(shift as nat),
                ),
    {
        proof {
            self.lemma_wf();
            vstd::arithmetic::power2::lemma_pow2_adds(shift as nat, (self.msg_bits() - shift) as nat);
            vstd::arithmetic::power2::lemma_pow2_pos(shift as nat);
            vstd::arithmetic::power2::lemma_pow2_pos((self.msg_bits() - shift) as nat);
            vstd::bits::lemma_u64_pow2_no_overflow(shift as nat);
            vstd::bits::lemma_u64_shl_is_mul(1, shift);
        }
        let msg = self.key.message_modulus.0;
        let p: u64 = 1u64 << shift;
        let h: u64 = msg / p;
        proof {
            let q = pow2((self.msg_bits() - shift) as nat);
            assert(shift as nat + (self.msg_bits() - shift) as nat == self.msg_bits());
            assert(msg == p * q);
            vstd::arithmetic::div_mod::lemma_div_multiples_vanish(q as int, p as int);
            assert(h == q);
            assert(h * p == msg) by (nonlinear_arith)
                requires
                    h == q,
                    msg == p * q,
            ;
        }
        let blocks = &ct.blocks;
        let mut out: Vec<Ciphertext> = Vec::new();
        let mut carry: u64 = 0;
        let mut i: usize = 0;
        proof {
            assert(blocks@.subrange(0, 0) =~= Seq::<Ciphertext>::empty());
            assert(pow_nat(self.msg(), 0) == 1);
            assert(self.value(blocks@.subrange(0, 0)) == 0);
            assert(self.value(out@) == 0);
            assert(0 * p == 0) by (nonlinear_arith);
        }
        while i < blocks.len()
            invariant
                self.wf(),
                msg as nat == self.msg(),
                2 <= msg <= 128,
                msg <= self.key.size(),
                h * p == msg,
                h >= 1,
                p >= 1,
                self.normalized(blocks@),
                i <= blocks@.len(),
                out@.len() == i,
                self.clean(out@),
                carry < p,
                self.value(blocks@.subrange(0, i as int)) * p == self.value(out@) + pow_nat(
                    self.msg(),
                    i as nat,
                ) * carry,
                p == pow2(shift as nat),
                h == msg / p,
                i > 0 ==> carry == blocks@[i - 1].value / h,
                i == 0 ==> carry == 0,
                forall|j: int|
                    0 <= j < i ==> #[trigger] out@[j].value == shifted_block(blocks@, j, self.msg(), p as nat),
            decreases blocks@.len() - i,
        {
            let x = blocks[i].value;
            assert((x as nat) < self.msg());
            proof {
                vstd::arithmetic::div_mod::lemma_fundamental_div_mod(x as int, h as int);
                assert(x % h <= h - 1);
                assert((x % h) * p <= (h - 1) * p) by (nonlinear_arith)
                    requires
                        x % h <= h - 1,
                ;
                assert((h - 1) * p == msg - p) by (nonlinear_arith)
                    requires
                        h * p == msg,
                ;
            }
            let low = (x % h) * p;
            let next = x / h;
            proof {
                assert(low <= (h - 1) * p) by (nonlinear_arith)
                    requires
                        low == (x % h) * p,
                        x % h <= h - 1,
                ;
                assert((h - 1) * p == msg - p) by (nonlinear_arith)
                    requires
                        h * p == msg,
                ;
                assert(next < p) by (nonlinear_arith)
                    requires
                        next == x / h,
                        x < msg,
                        h * p == msg,
                        h >= 1,
                ;
            }
            let d = low + carry;
            let c = Ciphertext {
                value: d,
                degree: msg - 1,
                message_modulus: self.key.message_modulus,
                carry_modulus: self.key.carry_modulus,
            };
            proof {
                let pw = pow_nat(self.msg(), i as nat);
                assert(blocks@.subrange(0, i + 1) =~= blocks@.subrange(0, i as int).push(
                    blocks@[i as int],
                ));
                lemma_radix_push(blocks@.subrange(0, i as int), blocks@[i as int], self.msg());
                lemma_radix_push(out@, c, self.msg());
                assert(pow_nat(self.msg(), (i + 1) as nat) == self.msg() * pw);
                assert(x * p == msg * next + low) by (nonlinear_arith)
                    requires
                        x == h * next + x % h,
                        low == (x % h) * p,
                        h * p == msg,
                ;
                let old_v = self.value(blocks@.subrange(0, i as int));
                assert((old_v + pw * x) * p == old_v * p + pw * (x * p)) by (nonlinear_arith);
                assert(pw * (msg * next + low) == pw * (low + carry) + (msg * pw) * next - pw
                    * carry) by (nonlinear_arith);
            }
            out.push(c);
            carry = next;
            i = i + 1;
        }
        proof {
            assert(blocks@.subrange(0, blocks@.len() as int) =~= blocks@);
            self.lemma_clean_normalized(out@);
            lemma_radix_mod(
                out@,
                self.msg(),
                (self.value(blocks@) * p) as int,
                carry as int,
            );
        }
        ct.blocks = out;
    }

    /// Shifts left by `shift` bits after cleaning the carries if there are any.
    pub fn scalar_left_shift_assign_parallelized(&self, ct: &mut RadixCiphertext, shift: u64)
        requires
            self.wf(),
            self.blocks_wf(old(ct).blocks@),
            1 <= shift <= self.msg_bits(),
        ensures
            final(ct).blocks@.len() == old(ct).blocks@.len(),
            self.clean(final(ct).blocks@),
            self.value(final(ct).blocks@) == reduced_mul(
                self.value(old(ct).blocks@),
                pow2(shift as nat),
                self.modulus(old(ct).blocks@.len()),
            ),
    {
        proof {
            self.lemma_wf();
        }
        let ghost v0 = self.value(ct.blocks@);
        let ghost m = self.modulus(ct.blocks@.len());
        if !crate::radix::blocks_carries_are_empty(ct.blocks.as_slice()) {
            let blocks = self.full_propagate_blocks(ct.blocks.as_slice());
            ct.blocks = blocks;
        } else {
            proof {
                self.lemma_clean_value_small(ct.blocks@);
            }
        }
        proof {
            self.lemma_clean_normalized(ct.blocks@);
            crate::radix::lemma_pow_nat_positive(self.msg(), old(ct).blocks@.len());
            lemma_reduced_mul_mod(v0, pow2(shift as nat), m);
        }
        self.unchecked_scalar_left_shift_assign_parallelized(ct, shift);
    }

    /// The integer with `num_blocks` zero blocks added on the most significant side.
    pub fn extend_radix_with_trivial_zero_blocks_msb(
        &self,
        ct: &RadixCiphertext,
        num_blocks: usize,
    ) -> (r: RadixCiphertext)
        requires
            self.wf(),
            self.blocks_wf(ct.blocks@),
            ct.blocks@.len() + num_blocks <= usize::MAX,
        ensures
            r.blocks@.len() == ct.blocks@.len() + num_blocks,
            r.blocks@.subrange(0, ct.blocks@.len() as int) == ct.blocks@,
            forall|i: int|
                ct.blocks@.len() <= i < r.blocks@.len() ==> #[trigger] r.blocks@[i].value == 0
                    && r.blocks@[i].degree == 0,
            self.blocks_wf(r.blocks@),
            carries_empty_kept(ct.blocks@, r.blocks@),
            self.value(r.blocks@) == self.value(ct.blocks@),
    {
        let mut blocks = copy_blocks(ct.blocks.as_slice());
        self.extend_blocks_with_zeros(&mut blocks, num_blocks);
        RadixCiphertext { blocks }
    }

    pub fn extend_radix_with_trivial_zero_blocks_msb_assign(
        &self,
        ct: &mut RadixCiphertext,
        num_blocks: usize,
    )
        requires
            self.wf(),
            self.blocks_wf(old(ct).blocks@),
            old(ct).blocks@.len() + num_blocks <= usize::MAX,
        ensures
            final(ct).blocks@.len() == old(ct).blocks@.len() + num_blocks,
            final(ct).blocks@.subrange(0, old(ct).blocks@.len() as int) == old(ct).blocks@,
            forall|i: int|
                old(ct).blocks@.len() <= i < final(ct).blocks@.len()
                    ==> #[trigger] final(ct).blocks@[i].value == 0 && final(ct).blocks@[i].degree
                    == 0,
            self.blocks_wf(final(ct).blocks@),
            carries_empty_kept(old(ct).blocks@, final(ct).blocks@),
            self.value(final(ct).blocks@) == self.value(old(ct).blocks@),
    {
        self.extend_blocks_with_zeros(&mut ct.blocks, num_blocks);
    }

    fn extend_blocks_with_zeros(&self, blocks: &mut Vec<Ciphertext>, num_blocks: usize)
        requires
            self.wf(),
            self.blocks_wf(old(blocks)@),
            old(blocks)@.len() + num_blocks <= usize::MAX,
        ensures
            final(blocks)@.len() == old(blocks)@.len() + num_blocks,
            final(blocks)@.subrange(0, old(blocks)@.len() as int) == old(blocks)@,
            forall|i: int|
                old(blocks)@.len() <= i < final(blocks)@.len() ==> #[trigger] final(blocks)@[i].value
                    == 0 && final(blocks)@[i].degree == 0,
            self.blocks_wf(final(blocks)@),
            carries_empty_kept(old(blocks)@, final(blocks)@),
            self.value(final(blocks)@) == self.value(old(blocks)@),
    {
        proof {
            self.lemma_wf();
        }
        let ghost start = blocks@;
        let n0 = blocks.len();
        let mut k: usize = 0;
        while k < num_blocks
            invariant
                self.wf(),
                self.key.size() >= 2,
                n0 == start.len(),
                n0 + num_blocks <= usize::MAX,
                k <= num_blocks,
                blocks@.len() == n0 + k,
                blocks@.subrange(0, n0 as int) == start,
                forall|i: int|
                    n0 <= i < blocks@.len() ==> #[trigger] blocks@[i].value == 0
                        && blocks@[i].degree == 0,
                self.blocks_wf(blocks@),
                self.value(blocks@) == self.value(start),
            decreases num_blocks - k,
        {
            let z = self.key.create_trivial(0);
            proof {
                lemma_radix_push(blocks@, z, self.msg());
                assert(pow_nat(self.msg(), blocks@.len()) * 0 == 0) by (nonlinear_arith);
            }
            let ghost before = blocks@;
            blocks.push(z);
            assert(blocks@.subrange(0, n0 as int) =~= before.subrange(0, n0 as int));
            k = k + 1;
        }
        proof {
            assert forall|i: int|
                0 <= i < blocks@.len() && carries_empty(start) implies #[trigger] blocks@[i].degree
                < blocks@[i].message_modulus.0 by {
                if i < n0 {
                    assert(blocks@[i] == blocks@.subrange(0, n0 as int)[i]);
                } else {
                    assert(self.key.block_wf(blocks@[i]));
                }
            }
        }
    }

    /// Removes the `num_blocks` most significant blocks.
    pub fn trim_radix_blocks_msb_assign(&self, ct: &mut RadixCiphertext, num_blocks: usize)
        requires
            num_blocks <= old(ct).blocks@.len(),
        ensures
            final(ct).blocks@ == old(ct).blocks@.subrange(
                0,
                old(ct).blocks@.len() - num_blocks,
            ),
    {
        let n = ct.blocks.len();
        ct.blocks.truncate(n - num_blocks);
    }

    /// Moves every block `shift` positions toward the most significant end;
    /// the `shift` lowest blocks become zero and the length stays the same.
    pub fn blockshift(&self, ct: &RadixCiphertext, shift: usize) -> (r: RadixCiphertext)
        requires
            self.wf(),
            self.blocks_wf(ct.blocks@),
            shift <= ct.blocks@.len(),
        ensures
            r.blocks@.len() == ct.blocks@.len(),
            self.blocks_wf(r.blocks@),
            forall|i: int| 0 <= i < shift ==> #[trigger] r.blocks@[i].value == 0 && r.blocks@[i].degree == 0,
            forall|i: int| shift <= i < r.blocks@.len() ==> #[trigger] r.blocks@[i] == ct.blocks@[i - shift],
            self.value(r.blocks@) == self.modulus(shift as nat) * self.value(
                ct.blocks@.subrange(0, ct.blocks@.len() - shift),
            ),
    {
        proof {
            self.lemma_wf();
        }
        let n = ct.blocks.len();
        let mut out: Vec<Ciphertext> = Vec::new();
        let mut i: usize = 0;
        while i < n
            invariant
                self.wf(),
                self.key.size() >= 2,
                n == ct.blocks@.len(),
                self.blocks_wf(ct.blocks@),
                shift <= n,
                i <= n,
                out@.len() == i,
                self.blocks_wf(out@),
                forall|j: int| 0 <= j < i && j < shift ==> #[trigger] out@[j].value == 0 && out@[j].degree == 0,
                forall|j: int| shift <= j < i ==> #[trigger] out@[j] == ct.blocks@[j - shift],
            decreases n - i,
        {
            if i < shift {
                let z = self.key.create_trivial(0);
                out.push(z);
            } else {
                assert(self.key.block_wf(ct.blocks@[i - shift]));
                out.push(ct.blocks[i - shift]);
            }
            i = i + 1;
        }
        proof {
            lemma_radix_split(out@, self.msg(), shift as int);
            let low = out@.subrange(0, shift as int);
            assert(all_zero(low));
            lemma_radix_zero(low, self.msg());
            let high = out@.subrange(shift as int, n as int);
            let src = ct.blocks@.subrange(0, n - shift);
            assert(high =~= src);
        }
        RadixCiphertext { blocks: out }
    }

    /// A boolean block that is 1 exactly when every block holds 0.
    pub fn are_all_blocks_zero(&self, blocks: &[Ciphertext]) -> (r: Ciphertext)
        requires
            self.wf(),
        ensures
            self.boolean_wf(r),
            r.value == bit(all_zero(blocks@)),
    {
        let mut i: usize = 0;
        let mut all: bool = true;
        while i < blocks.len()
            invariant
                i <= blocks@.len(),
                all == forall|j: int| 0 <= j < i ==> #[trigger] blocks@[j].value == 0,
            decreases blocks@.len() - i,
        {
            if blocks[i].value != 0 {
                all = false;
            }
            i = i + 1;
        }
        self.boolean_block(all)
    }

    /// One boolean block per input block: whether it equals zero
    /// (`Equality`) or differs from it (`Difference`).
    pub fn compare_blocks_with_zero(
        &self,
        lhs: &[Ciphertext],
        comparison_type: ZeroComparisonType,
    ) -> (r: Vec<Ciphertext>)
        requires
            self.wf(),
        ensures
            r@.len() == lhs@.len(),
            forall|i: int| 0 <= i < r@.len() ==> self.boolean_wf(#[trigger] r@[i]),
            forall|i: int|
                0 <= i < r@.len() ==> #[trigger] r@[i].value == (match comparison_type {
                    ZeroComparisonType::Equality => bit(lhs@[i].value == 0),
                    ZeroComparisonType::Difference => bit(lhs@[i].value != 0),
                }),
    {
        let mut out: Vec<Ciphertext> = Vec::new();
        let mut i: usize = 0;
        while i < lhs.len()
            invariant
                self.wf(),
                i <= lhs@.len(),
                out@.len() == i,
                forall|j: int| 0 <= j < i ==> self.boolean_wf(#[trigger] out@[j]),
                forall|j: int|
                    0 <= j < i ==> #[trigger] out@[j].value == (match comparison_type {
                        ZeroComparisonType::Equality => bit(lhs@[j].value == 0),
                        ZeroComparisonType::Difference => bit(lhs@[j].value != 0),
                    }),
            decreases lhs@.len() - i,
        {
            let b = match comparison_type {
                ZeroComparisonType::Equality => lhs[i].value == 0,
                ZeroComparisonType::Difference => lhs[i].value != 0,
            };
            out.push(self.boolean_block(b));
            i = i + 1;
        }
        out
    }

    /// A boolean block that is 1 exactly when one of the blocks is not 0.
    pub fn is_at_least_one_comparisons_block_true(&self, comparisons: Vec<Ciphertext>) -> (r:
        Ciphertext)
        requires
            self.wf(),
        ensures
            self.boolean_wf(r),
            r.value == bit(!all_zero(comparisons@)),
    {
        let z = self.are_all_blocks_zero(comparisons.as_slice());
        self.boolean_block(z.value == 0)
    }

    pub fn boolean_bitnot(&self, b: &BooleanBlock) -> (r: BooleanBlock)
        requires
            self.wf(),
            self.boolean_wf(b.0),
        ensures
            self.boolean_wf(r.0),
            r.0.value == 1 - b.0.value,
    {
        BooleanBlock(self.boolean_block(b.0.value == 0))
    }

    pub fn boolean_bitnot_assign(&self, b: &mut BooleanBlock)
        requires
            self.wf(),
            self.boolean_wf(old(b).0),
        ensures
            self.boolean_wf(final(b).0),
            final(b).0.value == 1 - old(b).0.value,
    {
        *b = self.boolean_bitnot(b);
    }

    pub fn boolean_bitor_assign(&self, lhs: &mut BooleanBlock, rhs: &BooleanBlock)
        requires
            self.wf(),
            self.boolean_wf(old(lhs).0),
            self.boolean_wf(rhs.0),
        ensures
            self.boolean_wf(final(lhs).0),
            final(lhs).0.value == bit(old(lhs).0.value == 1 || rhs.0.value == 1),
    {
        let r = self.boolean_block(lhs.0.value == 1 || rhs.0.value == 1);
        *lhs = BooleanBlock(r);
    }

    pub proof fn lemma_clean_value_small(&self, s: Seq<Ciphertext>)
        requires
            self.wf(),
            self.clean(s),
        ensures
            self.value(s) < self.modulus(s.len()),
            reduced(self.value(s), self.msg(), s.len()) == self.value(s),
    {
        self.lemma_wf();
        self.lemma_clean_normalized(s);
        crate::radix::lemma_radix_bound(s, self.msg());
        vstd::arithmetic::div_mod::lemma_small_mod(self.value(s), self.modulus(s.len()));
    }

    pub proof fn lemma_normalized_value_small(&self, s: Seq<Ciphertext>)
        requires
            self.wf(),
            self.normalized(s),
        ensures
            self.value(s) < self.modulus(s.len()),
            reduced(self.value(s), self.msg(), s.len()) == self.value(s),
    {
        crate::radix::lemma_radix_bound(s, self.msg());
        vstd::arithmetic::div_mod::lemma_small_mod(self.value(s), self.modulus(s.len()));
    }
}

/// Block `j` of `s` shifted left by the bits of `p` (a power of two dividing
/// `base`): the low bits of block `j` moved up, and the bits that leave
/// block `j - 1` brought in.
pub open spec fn shifted_block(s: Seq<Ciphertext>, j: int, base: nat, p: nat) -> nat {
    (s[j].value as nat % (base / p)) * p + (if j == 0 {
        0
    } else {
        s[j - 1].value as nat / (base / p)
    })
}

/// `v * factor` reduced modulo `m`.
pub open spec fn reduced_mul(v: nat, factor: nat, m: nat) -> nat {
    (v * factor) % m
}

/// If the first blocks had empty carries, so do the second.
pub open spec fn carries_empty_kept(before: Seq<Ciphertext>, after: Seq<Ciphertext>) -> bool {
    carries_empty(before) ==> carries_empty(after)
}

/// Reducing before multiplying changes nothing modulo `m`.
pub proof fn lemma_reduced_mul_mod(v: nat, factor: nat, m: nat)
    requires
        m > 0,
    ensures
        reduced_mul(v % m, factor, m) == reduced_mul(v, factor, m),
{
    vstd::arithmetic::div_mod::lemma_mul_mod_noop_left(v as int, factor as int, m as int);
}

} // verus!
