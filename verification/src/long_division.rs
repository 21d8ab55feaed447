//! Bit-by-bit restoring long division of unsigned radix integers.
//!
//! The remainder is kept in two radix integers of which one is always zero:
//! after each step the candidate that survives (the shifted remainder, or the
//! shifted remainder minus the divisor) goes to one of them, and the other
//! one is cleared, so that adding them block by block never overflows.
use crate::parallel::{join, par_map, par_zip_map};
use crate::radix::{
    all_zero, concat_blocks, copy_block_range, lemma_pow_nat_positive, lemma_radix_split, lemma_radix_zero, pow_nat,
    radix_value, rotate_blocks_left, BooleanBlock, RadixCiphertext,
};
use crate::radix_ops::bit;
use crate::server_key::{ServerKey, ZeroComparisonType};
use crate::shortint::{
    bivariate_lut_entry, lut_entry, packed_index, BivariateLookupTable, Ciphertext, MessageModulus,
    DEGREE_BOUND,
};
use crate::division_lemmas::{
    lemma_divisor_cut, lemma_high_mask, lemma_low_mask, lemma_pow_nat_pow2, lemma_shl_one, lemma_top_bit,
};
use vstd::arithmetic::power2::{lemma_pow2_adds, pow2};
use vstd::prelude::*;

verus! {

/// Number of the low bits of block `j` that have not been processed yet, when
/// `u` bits of a number of `b`-bit blocks remain (they are the low `u` bits).
pub open spec fn unread_bits(u: nat, j: nat, b: nat) -> nat {
    if u <= j * b {
        0
    } else if u - j * b >= b {
        b
    } else {
        (u - j * b) as nat
    }
}

impl ServerKey {

    /// What the numerator's unread bits are worth when `u` bits remain: the
    /// blocks below the one being read, and that block's unread bits `t`.
    pub open spec fn unread_value(&self, num: Seq<Ciphertext>, u: nat, t: nat) -> nat {
        if u == 0 {
            0
        } else {
            let bb = ((u - 1) as nat / self.msg_bits()) as int;
            self.value(num.subrange(0, bb)) + self.modulus(bb as nat) * t
        }
    }

    /// The numerator stack when `u >= 1` bits remain: the blocks below the
    /// one being read as they are, then that block with its unread bits `t`
    /// moved up to the top of the block.
    pub open spec fn stack_holds(&self, num: Seq<Ciphertext>, stack: Seq<Ciphertext>, u: nat, t: nat) -> bool {
        let b = self.msg_bits();
        let bb = ((u - 1) as nat / b) as int;
        let pos = (u - 1) as nat % b;
        &&& stack.len() == bb + 1
        &&& stack.subrange(0, bb) == num.subrange(0, bb)
        &&& self.key.block_wf(stack.last())
        &&& (stack.last().degree as nat) < self.key.size()
        &&& t < pow2(pos + 1)
        &&& stack.last().value as nat == t * pow2((b - 1 - pos) as nat)
    }

    /// The unread bits of the block being read once bit `i` has been read.
    pub open spec fn next_unread(&self, num: Seq<Ciphertext>, i: nat, t: nat) -> nat {
        let b = self.msg_bits();
        if i % b != 0 {
            t % pow2(i % b)
        } else if i == 0 {
            0
        } else {
            num[(i / b) as int - 1].value as nat
        }
    }

    /// The state of the long division when the low `u` bits of the numerator
    /// remain: the quotient holds `qh` above bit `u` and nothing below, the
    /// remainders add up to `prefix - qh * divisor` where `prefix` is the
    /// numerator above bit `u`, one of them is zero, and the stack holds the
    /// unread bits.
    pub open spec fn long_division_state(
        &self,
        num: Seq<Ciphertext>,
        div: Seq<Ciphertext>,
        q: Seq<Ciphertext>,
        r1: Seq<Ciphertext>,
        r2: Seq<Ciphertext>,
        stack: Seq<Ciphertext>,
        u: nat,
        qh: nat,
        prefix: nat,
        t: nat,
    ) -> bool {
        let b = self.msg_bits();
        let n = num.len();
        let dv = self.value(div);
        let rv = self.value(r1) + self.value(r2);
        &&& self.clean(num)
        &&& self.clean(div)
        &&& div.len() == n
        &&& q.len() == n
        &&& r1.len() == n
        &&& r2.len() == n
        &&& u <= n * b
        &&& self.clean(r1)
        &&& self.clean(r2)
        &&& (all_zero(r1) || all_zero(r2))
        &&& self.blocks_wf(q)
        &&& forall|j: int| 0 <= j < n ==> (#[trigger] q[j]).degree + pow2(unread_bits(u, j as nat, b)) <= self.msg()
        &&& self.value(q) == qh * pow2(u)
        &&& prefix == qh * dv + rv
        &&& (dv > 0 ==> rv < dv)
        &&& (dv == 0 ==> rv == prefix && qh + 1 == pow2((n * b - u) as nat))
        &&& self.value(num) == prefix * pow2(u) + self.unread_value(num, u, t)
        &&& (u > 0 ==> self.stack_holds(num, stack, u, t))
    }

    /// Reading bit `i` of the numerator: the processed part gains that bit,
    /// and the stack holds the bits below it.
    proof fn lemma_numerator_step(
        &self,
        num: Seq<Ciphertext>,
        old_stack: Seq<Ciphertext>,
        new_stack: Seq<Ciphertext>,
        i: nat,
        t: nat,
        prefix: nat,
    )
        requires
            self.wf(),
            self.clean(num),
            i < num.len() * self.msg_bits(),
            self.stack_holds(num, old_stack, i + 1, t),
            self.value(num) == prefix * pow2(i + 1) + self.unread_value(num, i + 1, t),
            i % self.msg_bits() == 0 ==> new_stack == old_stack.drop_last(),
            i % self.msg_bits() != 0 ==> new_stack.len() == old_stack.len() && new_stack.drop_last()
                == old_stack.drop_last() && self.key.block_wf(new_stack.last())
                && (new_stack.last().degree as nat) < self.key.size() && new_stack.last().value as nat
                == (t % pow2(i % self.msg_bits())) * pow2((self.msg_bits() - i % self.msg_bits()) as nat),
        ensures
            t / pow2(i % self.msg_bits()) <= 1,
            self.value(num) == (2 * prefix + t / pow2(i % self.msg_bits())) * pow2(i) + self.unread_value(
                num,
                i,
                self.next_unread(num, i, t),
            ),
            i > 0 ==> self.stack_holds(num, new_stack, i, self.next_unread(num, i, t)),
    {
        self.lemma_wf();
        let b = self.msg_bits();
        let bb = i / b;
        let pos = i % b;
        assert((i + 1 - 1) as nat == i);
        vstd::arithmetic::div_mod::lemma_fundamental_div_mod(i as int, b as int);
        lemma_top_bit(t, pos, b);
        let pp = pow2(pos);
        let bitv = t / pp;
        let tl = t % pp;
        let w = self.modulus(bb);
        lemma_pow_nat_pow2(b, bb);
        assert(i == b * bb + pos);
        lemma_pow2_adds(b * bb, pos);
        assert(w * pp == pow2(i));
        lemma_pow2_adds(i, 1);
        vstd::arithmetic::power2::lemma2_to64();
        let v = self.value(num.subrange(0, bb as int));
        let pi = pow2(i);
        assert(self.unread_value(num, i + 1, t) == v + w * t);
        assert(prefix * (pi * 2) + (v + w * t) == (2 * prefix + bitv) * pi + (v + w * tl)) by (nonlinear_arith)
            requires
                t == pp * bitv + tl,
                w * pp == pi,
        ;
        if pos != 0 {
            vstd::arithmetic::div_mod::lemma_fundamental_div_mod_converse((i - 1) as int, b as int, bb as int, (pos - 1) as int);
            assert(((i - 1) as nat) / b == bb);
            assert(((i - 1) as nat) % b == pos - 1);
            assert(self.unread_value(num, i, tl) == v + w * tl);
            if i > 0 {
                assert(new_stack.subrange(0, bb as int) =~= new_stack.drop_last());
                assert(old_stack.subrange(0, bb as int) =~= old_stack.drop_last());
                assert((pos - 1 + 1) as nat == pos);
                assert((b - 1 - (pos - 1)) as nat == (b - pos) as nat);
            }
        } else {
            assert(pp == 1);
            assert(tl == 0);
            assert(w * tl == 0) by (nonlinear_arith)
                requires
                    tl == 0,
            ;
            if i == 0 {
                assert(num.subrange(0, 0) =~= Seq::<Ciphertext>::empty());
                assert(v == 0);
            } else {
                if bb == 0 {
                    assert(b * bb == 0) by (nonlinear_arith)
                        requires
                            bb == 0,
                    ;
                }
                assert(bb >= 1);
                assert(bb < num.len()) by (nonlinear_arith)
                    requires
                        i == b * bb + pos,
                        i < num.len() * b,
                        b >= 1,
                ;
                let bm = (bb - 1) as nat;
                assert((i - 1) as int == bm * b + (b - 1)) by (nonlinear_arith)
                    requires
                        i == b * bb + pos,
                        pos == 0,
                        bm == bb - 1,
                ;
                vstd::arithmetic::div_mod::lemma_fundamental_div_mod_converse((i - 1) as int, b as int, bm as int, (b - 1) as int);
                assert(((i - 1) as nat) / b == bm);
                assert(((i - 1) as nat) % b == b - 1);
                let t2 = num[bm as int].value as nat;
                assert(num.subrange(0, bb as int) =~= num.subrange(0, bm as int).push(num[bm as int]));
                crate::radix::lemma_radix_push(num.subrange(0, bm as int), num[bm as int], self.msg());
                assert(self.unread_value(num, i, t2) == self.value(num.subrange(0, bm as int)) + self.modulus(bm) * t2);
                assert(v == self.value(num.subrange(0, bm as int)) + self.modulus(bm) * t2);
                // The stack now ends with the block below, as it was.
                assert(new_stack.len() == bm + 1);
                assert(new_stack.subrange(0, bm as int) =~= old_stack.subrange(0, bb as int).subrange(0, bm as int));
                assert(num.subrange(0, bm as int) =~= num.subrange(0, bb as int).subrange(0, bm as int));
                assert(new_stack.last() == old_stack.subrange(0, bb as int)[bm as int]);
                assert(num.subrange(0, bb as int)[bm as int] == num[bm as int]);
                assert(self.key.block_wf(num[bm as int]));
                assert(num[bm as int].degree < num[bm as int].message_modulus.0);
                assert((b - 1 + 1) as nat == b);
                assert((b - 1 - (b - 1)) as nat == 0);
                assert(pow2(0) == 1);
                assert(t2 * 1 == t2);
            }
        }
    }


    /// Replacing the low blocks of clean blocks whose value fits in them
    /// gives the value of the new low blocks.
    proof fn lemma_replace_low_blocks(&self, s: Seq<Ciphertext>, low: Seq<Ciphertext>, len: int)
        requires
            self.wf(),
            self.clean(s),
            self.clean(low),
            0 < len <= s.len(),
            low.len() == len,
            self.value(s) < self.modulus(len as nat),
        ensures
            self.clean(low + s.subrange(len, s.len() as int)),
            self.value(low + s.subrange(len, s.len() as int)) == self.value(low),
            all_zero(low + s.subrange(len, s.len() as int)) == all_zero(low),
            (low + s.subrange(len, s.len() as int)).len() == s.len(),
    {
        self.lemma_wf();
        let m = self.modulus(len as nat);
        let tail = s.subrange(len, s.len() as int);
        let r = low + tail;
        lemma_radix_split(s, self.msg(), len);
        let hv = self.value(tail);
        if hv > 0 {
            assert(m * hv >= m) by (nonlinear_arith)
                requires
                    hv >= 1,
            ;
        }
        lemma_radix_zero(tail, self.msg());
        assert(r.subrange(0, len) =~= low);
        assert(r.subrange(len, r.len() as int) =~= tail);
        lemma_radix_split(r, self.msg(), len);
        assert(m * 0 == 0) by (nonlinear_arith);
        assert forall|i: int| 0 <= i < r.len() implies self.key.block_wf(#[trigger] r[i]) && r[i].degree < r[i].message_modulus.0 by {
            if i < len {
                assert(r[i] == low[i]);
            } else {
                assert(r[i] == s[i]);
            }
        }
        if all_zero(low) {
            assert forall|i: int| 0 <= i < r.len() implies #[trigger] r[i].value == 0 by {
                if i < len {
                    assert(r[i] == low[i]);
                } else {
                    assert(r[i] == tail[i - len]);
                }
            }
        }
        if all_zero(r) {
            assert forall|i: int| 0 <= i < low.len() implies #[trigger] low[i].value == 0 by {
                assert(r[i] == low[i]);
            }
        }
    }


    /// One step of the long division, for bit `i` of the numerator (the bits
    /// are read from the most significant one down):
    /// `R := 2 R + N(i); if R >= D { R := R - D; Q(i) := 1 }`.
    #[verifier::rlimit(100)]
    #[verifier::spinoff_prover]
    pub(crate) fn long_division_step(
        &self,
        divisor: &RadixCiphertext,
        quotient: &mut RadixCiphertext,
        remainder1: &mut RadixCiphertext,
        remainder2: &mut RadixCiphertext,
        numerator_block_stack: &mut Vec<Ciphertext>,
        merge_overflow_flags_luts: &Vec<BivariateLookupTable>,
        i: usize,
        num_bits_in_message: u64,
        total_bits: usize,
        Ghost(num): Ghost<Seq<Ciphertext>>,
        Ghost(qh): Ghost<nat>,
        Ghost(prefix): Ghost<nat>,
        Ghost(t): Ghost<nat>,
    ) -> (next: Ghost<(nat, nat, nat)>)
        requires
            self.wf(),
            num_bits_in_message as nat == self.msg_bits(),
            total_bits as nat == num.len() * self.msg_bits(),
            i < total_bits,
            merge_overflow_flags_luts@.len() == self.msg_bits(),
            forall|p: int|
                0 <= p < merge_overflow_flags_luts@.len() ==> self.is_merge_flag_lut(
                    #[trigger] merge_overflow_flags_luts@[p],
                    p as nat,
                ),
            self.long_division_state(
                num,
                divisor.blocks@,
                old(quotient).blocks@,
                old(remainder1).blocks@,
                old(remainder2).blocks@,
                old(numerator_block_stack)@,
                (i + 1) as nat,
                qh,
                prefix,
                t,
            ),
        ensures
            self.long_division_state(
                num,
                divisor.blocks@,
                final(quotient).blocks@,
                final(remainder1).blocks@,
                final(remainder2).blocks@,
                final(numerator_block_stack)@,
                i as nat,
                next@.0,
                next@.1,
                next@.2,
            ),
    {
        proof {
            self.lemma_wf();
        }
        let ghost b = self.msg_bits();
        let ghost n = num.len();
        let ghost dv = self.value(divisor.blocks@);
        let ghost v1 = self.value(remainder1.blocks@);
        let ghost v2 = self.value(remainder2.blocks@);
        let ghost rv = v1 + v2;
        let ghost q0 = quotient.blocks@;
        let ghost r1_0 = remainder1.blocks@;
        let ghost r2_0 = remainder2.blocks@;
        let ghost stack0 = numerator_block_stack@;
        let num_blocks = quotient.blocks.len();
        let block_of_bit = i / num_bits_in_message as usize;
        let pos_in_block = i % num_bits_in_message as usize;
        // `i` goes from `total_bits - 1` down to 0, `msb_bit_set` up from 0.
        let msb_bit_set = total_bits - 1 - i;
        let last_non_trivial_block = msb_bit_set / num_bits_in_message as usize;
        // The blocks of the remainders from this one on are known to be 0.
        let first_trivial_block = last_non_trivial_block + 1;
        let ghost s = msb_bit_set as nat;
        let ghost len = first_trivial_block as int;
        let ghost w = self.modulus(len as nat);
        proof {
            // The processed part of the numerator, hence the remainder, is
            // below `2^s`, which fits in the interesting blocks.
            self.lemma_processed_bound(num, (i + 1) as nat, prefix, self.unread_value(num, (i + 1) as nat, t));
            assert(s + (i + 1) == n * b);
            let ms = msb_bit_set as int;
            let bi = b as int;
            vstd::arithmetic::div_mod::lemma_fundamental_div_mod(ms, bi);
            assert(s + 1 <= b * (len as nat)) by (nonlinear_arith)
                requires
                    ms == bi * (len - 1) + ms % bi,
                    ms % bi < bi,
                    s == ms,
                    bi == b,
            ;
            assert(len <= n) by (nonlinear_arith)
                requires
                    ms == bi * (len - 1) + ms % bi,
                    ms % bi >= 0,
                    ms < n * bi,
                    bi >= 1,
            ;
            lemma_pow_nat_pow2(b, len as nat);
            vstd::arithmetic::power2::lemma_pow2_unfold(s + 1);
            if s + 1 < b * (len as nat) {
                vstd::arithmetic::power2::lemma_pow2_strictly_increases(s + 1, b * (len as nat));
            }
            assert(2 * rv + 1 < w);
            assert(((i + 1 - 1) as nat) == i);
            assert((n * b - (i + 1)) as nat == s);
            assert(rv < pow2(s));
            vstd::arithmetic::div_mod::lemma_fundamental_div_mod(i as int, bi);
            assert(block_of_bit < n) by (nonlinear_arith)
                requires
                    i == bi * (block_of_bit as int) + (i as int) % bi,
                    (i as int) % bi >= 0,
                    i < n * bi,
                    bi >= 1,
            ;
            assert(pos_in_block as nat == (i as nat) % b);
        }
        let merged = self.shifted_merged_remainder(
            remainder1,
            remainder2,
            numerator_block_stack,
            last_non_trivial_block,
            pos_in_block,
            Ghost(t),
        );
        let ghost bitv = t / pow2(pos_in_block as nat);
        let ghost x = 2 * rv + bitv;
        let ghost fits = x >= dv;
        proof {
            vstd::arithmetic::power2::lemma_pow2_unfold(s + 1);
            assert((s + 1 - 1) as nat == s);
            assert(pow2(s + 1) == 2 * pow2(s));
            assert(bitv <= 1);
            assert(rv < pow2(s));
            assert(2 * rv + bitv < 2 * pow2(s)) by (nonlinear_arith)
                requires
                    rv < pow2(s),
                    bitv <= 1,
            ;
            assert(x < pow2(s + 1));
        }
        let (interesting_divisor, divisor_ms_blocks) = self.split_divisor(
            divisor,
            msb_bit_set,
            num_bits_in_message,
        );
        let (
            (new_remainder, subtraction_overflowed),
            (at_least_one_upper_block_is_non_zero, cleaned_merged_interesting_remainder),
        ) = self.overflow_flags(&merged, &interesting_divisor, &divisor_ms_blocks);
        // The two flags are merged with a boolean OR (their sum, 2 when both
        // are set, would not fit in a one-bit message).
        let mut overflow_flag = BooleanBlock(subtraction_overflowed.0);
        self.boolean_bitor_assign(&mut overflow_flag, &BooleanBlock(at_least_one_upper_block_is_non_zero));
        let overflow_flag = overflow_flag.0;
        let ghost overflowed = overflow_flag.value != 0;
        proof {
            // The remainder overflows the divisor exactly when the subtraction
            // of its low part wrapped or its high part is nonzero.
            lemma_overflow_flag(x, dv, s + 1);
            assert(overflowed == !fits);
        }
        // The flag is packed with each block with a factor above its degree.
        let factor = MessageModulus(overflow_flag.degree + 1);
        let ghost cleaned_before = cleaned_merged_interesting_remainder.blocks@;
        let ghost new_remainder_before = new_remainder.blocks@;
        let (cleaned_merged_interesting_remainder, new_remainder) = self.zero_out_candidates(
            cleaned_merged_interesting_remainder,
            new_remainder,
            &overflow_flag,
            factor,
        );
        let ghost lut = merge_overflow_flags_luts@[pos_in_block as int];
        proof {
            assert(self.is_merge_flag_lut(lut, pos_in_block as nat));
            let so = subtraction_overflowed.0.value;
            let atl = at_least_one_upper_block_is_non_zero.value;
            assert(packed_index(so as nat, atl as nat, self.msg()) < self.key.size()) by (nonlinear_arith)
                requires
                    so <= 1,
                    atl <= 1,
                    self.msg() >= 2,
                    self.msg() * self.msg() <= self.key.size(),
                    packed_index(so as nat, atl as nat, self.msg()) == so * self.msg() + atl,
            ;
            assert(subtraction_overflowed.0.degree * self.key.message_modulus.0 <= self.msg()) by (nonlinear_arith)
                requires
                    subtraction_overflowed.0.degree <= 1,
            ;
        }
        let did_not_overflow = self.key.unchecked_apply_lookup_table_bivariate(
            subtraction_overflowed.as_ref(),
            &at_least_one_upper_block_is_non_zero,
            &merge_overflow_flags_luts[pos_in_block],
        );
        proof {
            let so = subtraction_overflowed.0.value;
            let atl = at_least_one_upper_block_is_non_zero.value;
            assert(lut.acc.table@[packed_index(so as nat, atl as nat, self.msg()) as int] as nat == (if so == 0
                && atl == 0 {
                pow2(pos_in_block as nat)
            } else {
                0
            }));
            assert(did_not_overflow.value as nat == (if fits { pow2(pos_in_block as nat) } else { 0 }));
        }
        let mut quotient_block = quotient.blocks[block_of_bit];
        proof {
            lemma_unread_bits_step(i as nat, block_of_bit as nat, b);
            assert(q0[block_of_bit as int].degree + pow2(unread_bits((i + 1) as nat, block_of_bit as nat, b)) <= self.msg());
            vstd::arithmetic::power2::lemma_pow2_unfold((pos_in_block + 1) as nat);
            assert(self.key.block_wf(quotient_block));
        }
        self.key.unchecked_add_assign(&mut quotient_block, &did_not_overflow);
        quotient.blocks.set(block_of_bit, quotient_block);
        let ghost low1 = cleaned_merged_interesting_remainder.blocks@;
        let ghost low2 = new_remainder.blocks@;
        let tail1 = copy_block_range(remainder1.blocks.as_slice(), first_trivial_block, num_blocks);
        remainder1.blocks = concat_blocks(cleaned_merged_interesting_remainder.blocks, tail1.as_slice());
        let tail2 = copy_block_range(remainder2.blocks.as_slice(), first_trivial_block, num_blocks);
        remainder2.blocks = concat_blocks(new_remainder.blocks, tail2.as_slice());
        let ghost next_qh = 2 * qh + (if fits { 1nat } else { 0nat });
        let ghost next_prefix = 2 * prefix + bitv;
        let ghost next_t = self.next_unread(num, i as nat, t);
        let ghost nr = if fits { (x - dv) as nat } else { x };
        proof {
            // The new remainders: the surviving candidate in one, zero in the other.
            assert(v1 <= rv && v2 <= rv);
            self.lemma_replace_low_blocks(r1_0, low1, len);
            self.lemma_replace_low_blocks(r2_0, low2, len);
            assert(remainder1.blocks@ == low1 + r1_0.subrange(len, n as int));
            assert(remainder2.blocks@ == low2 + r2_0.subrange(len, n as int));
            lemma_radix_zero(low1, self.msg());
            lemma_radix_zero(low2, self.msg());
            if fits {
                assert(all_zero(low1));
                assert forall|j: int| 0 <= j < low2.len() implies #[trigger] low2[j].value == new_remainder_before[j].value by {}
                crate::radix::lemma_radix_same_values(low2, new_remainder_before, self.msg());
                let dl = self.value(interesting_divisor.blocks@);
                assert(dl == dv);
                assert(x - dv < w);
                vstd::arithmetic::div_mod::lemma_small_mod((x - dv) as nat, w);
                assert(self.value(low2) == x - dv);
            } else {
                assert(all_zero(low2));
                assert forall|j: int| 0 <= j < low1.len() implies #[trigger] low1[j].value == merged.blocks@[j].value by {
                    assert(low1[j].value == cleaned_before[j].value);
                }
                crate::radix::lemma_radix_same_values(low1, merged.blocks@, self.msg());
            }
            assert(self.value(low1) + self.value(low2) == nr);
        }
        proof {
            lemma_remainder_step(prefix, qh, rv, dv, bitv, (n * b - (i + 1)) as nat);
            assert((n * b - (i + 1)) as nat + 1 == (n * b - i) as nat);
            self.lemma_numerator_step(num, stack0, numerator_block_stack@, i as nat, t, prefix);
        }
        proof {
            // The quotient gains the bit at position `i`.
            let qn = quotient.blocks@;
            let bb = block_of_bit as int;
            assert(qn == q0.update(bb, quotient_block));
            assert forall|j: int| 0 <= j < n implies self.key.block_wf(#[trigger] qn[j]) && qn[j].degree
                + pow2(unread_bits(i as nat, j as nat, b)) <= self.msg() by {
                lemma_unread_bits_step(i as nat, j as nat, b);
                if j != bb {
                    assert(qn[j] == q0[j]);
                }
            }
            crate::radix::lemma_radix_update(q0, bb, quotient_block, self.msg());
            lemma_pow_nat_pow2(b, bb as nat);
            vstd::arithmetic::div_mod::lemma_fundamental_div_mod(i as int, b as int);
            lemma_pow2_adds(b * (bb as nat), pos_in_block as nat);
            assert(b * (bb as nat) + pos_in_block as nat == i as nat);
            lemma_pow2_adds(i as nat, 1);
            vstd::arithmetic::power2::lemma2_to64();
            let wb = self.modulus(bb as nat);
            let pp = pow2(pos_in_block as nat);
            let pi = pow2(i as nat);
            let dno = did_not_overflow.value as nat;
            assert(wb * pp == pi);
            let old_digit = q0[bb].value as nat;
            assert(quotient_block.value == old_digit + dno);
            assert(wb * (old_digit + dno) == wb * old_digit + wb * dno) by (nonlinear_arith);
            assert(self.value(qn) == self.value(q0) + wb * dno);
            assert(self.value(q0) == qh * (pi * 2));
            assert(self.value(qn) == next_qh * pi) by (nonlinear_arith)
                requires
                    self.value(qn) == self.value(q0) + wb * dno,
                    self.value(q0) == qh * (pi * 2),
                    wb * pp == pi,
                    dno == (if fits { pp } else { 0 }),
                    next_qh == 2 * qh + (if fits { 1nat } else { 0nat }),
            ;
        }
        Ghost((next_qh, next_prefix, next_t))
    }


    /// The part of the numerator above bit `u` is below `2^(total - u)`.
    proof fn lemma_processed_bound(&self, num: Seq<Ciphertext>, u: nat, prefix: nat, rest: nat)
        requires
            self.wf(),
            self.clean(num),
            u <= num.len() * self.msg_bits(),
            self.value(num) == prefix * pow2(u) + rest,
        ensures
            prefix < pow2((num.len() * self.msg_bits() - u) as nat),
    {
        self.lemma_wf();
        let tb = num.len() * self.msg_bits();
        self.lemma_clean_value_small(num);
        lemma_pow_nat_pow2(self.msg_bits(), num.len());
        assert(self.msg_bits() * num.len() == tb) by (nonlinear_arith)
            requires
                tb == num.len() * self.msg_bits(),
        ;
        let k = (tb - u) as nat;
        lemma_pow2_adds(k, u);
        vstd::arithmetic::power2::lemma_pow2_pos(u);
        let pk = pow2(k);
        let pu = pow2(u);
        assert(prefix < pk) by (nonlinear_arith)
            requires
                prefix * pu + rest < pk * pu,
                pu > 0,
        ;
    }


    /// The state before any bit is read: nothing in the quotient nor in the
    /// remainders, the whole numerator on the stack.
    pub(crate) proof fn lemma_initial_division_state(
        &self,
        num: Seq<Ciphertext>,
        div: Seq<Ciphertext>,
        q: Seq<Ciphertext>,
        r1: Seq<Ciphertext>,
        r2: Seq<Ciphertext>,
    )
        requires
            self.wf(),
            self.clean(num),
            self.clean(div),
            div.len() == num.len(),
            q.len() == num.len(),
            r1.len() == num.len(),
            r2.len() == num.len(),
            self.clean(q),
            self.clean(r1),
            self.clean(r2),
            all_zero(q),
            all_zero(r1),
            all_zero(r2),
            forall|j: int| 0 <= j < q.len() ==> (#[trigger] q[j]).degree == 0,
        ensures
            self.long_division_state(
                num,
                div,
                q,
                r1,
                r2,
                num,
                num.len() * self.msg_bits(),
                0,
                0,
                (if num.len() == 0 {
                    0
                } else {
                    num[num.len() - 1].value as nat
                }),
            ),
    {
        self.lemma_wf();
        let b = self.msg_bits();
        let n = num.len();
        let u = n * b;
        let t0: nat = if n == 0 {
            0
        } else {
            num[n - 1].value as nat
        };
        lemma_radix_zero(q, self.msg());
        lemma_radix_zero(r1, self.msg());
        lemma_radix_zero(r2, self.msg());
        vstd::arithmetic::power2::lemma2_to64();
        assert((n * b - u) as nat == 0);
        assert forall|j: int| 0 <= j < n implies (#[trigger] q[j]).degree + pow2(unread_bits(u, j as nat, b)) <= self.msg() by {
            assert(u - j * b >= b) by (nonlinear_arith)
                requires
                    u == n * b,
                    0 <= j < n,
            ;
        }
        if n == 0 {
            assert(u == 0);
            assert(num =~= Seq::<Ciphertext>::empty());
            assert(self.value(num) == 0);
        } else {
            let nm = (n - 1) as nat;
            assert(u >= 1) by (nonlinear_arith)
                requires
                    u == n * b,
                    n >= 1,
                    b >= 1,
            ;
            assert((u - 1) as int == nm * b + (b - 1)) by (nonlinear_arith)
                requires
                    u == n * b,
                    nm == n - 1,
            ;
            vstd::arithmetic::div_mod::lemma_fundamental_div_mod_converse((u - 1) as int, b as int, nm as int, (b - 1) as int);
            assert(((u - 1) as nat) / b == nm);
            assert(((u - 1) as nat) % b == b - 1);
            assert(num =~= num.subrange(0, nm as int).push(num[nm as int]));
            crate::radix::lemma_radix_push(num.subrange(0, nm as int), num[nm as int], self.msg());
            assert(self.key.block_wf(num[nm as int]));
            assert(num[nm as int].degree < num[nm as int].message_modulus.0);
            assert((b - 1 + 1) as nat == b);
            assert((b - 1 - (b - 1)) as nat == 0);
            assert(pow2(0) == 1);
            assert(t0 * 1 == t0);
            assert(num.last() == num[nm as int]);
            assert(0 * pow2(u) == 0) by (nonlinear_arith);
        }
        assert(0 * self.value(div) == 0) by (nonlinear_arith);
    }

    /// Once every bit is read, the quotient and the remainders hold the
    /// result of the division.
    pub(crate) proof fn lemma_final_division_state(
        &self,
        num: Seq<Ciphertext>,
        div: Seq<Ciphertext>,
        q: Seq<Ciphertext>,
        r1: Seq<Ciphertext>,
        r2: Seq<Ciphertext>,
        stack: Seq<Ciphertext>,
        qh: nat,
        prefix: nat,
        t: nat,
    )
        requires
            self.wf(),
            self.long_division_state(num, div, q, r1, r2, stack, 0, qh, prefix, t),
        ensures
            self.value(q) == crate::div_mod::unsigned_quotient(
                self.value(num),
                self.value(div),
                self.modulus(num.len()),
            ),
            self.value(r1) + self.value(r2) == crate::div_mod::unsigned_remainder(
                self.value(num),
                self.value(div),
            ),
            forall|j: int| 0 <= j < q.len() ==> ((#[trigger] q[j]).degree as nat) < self.msg(),
    {
        self.lemma_wf();
        let b = self.msg_bits();
        let n = num.len();
        let dv = self.value(div);
        let rv = self.value(r1) + self.value(r2);
        vstd::arithmetic::power2::lemma2_to64();
        assert(pow2(0) == 1);
        assert(self.value(num) == prefix);
        assert(self.value(q) == qh);
        assert forall|j: int| 0 <= j < q.len() implies ((#[trigger] q[j]).degree as nat) < self.msg() by {
            assert(unread_bits(0, j as nat, b) == 0);
        }
        if dv > 0 {
            vstd::arithmetic::div_mod::lemma_fundamental_div_mod_converse(prefix as int, dv as int, qh as int, rv as int);
        } else {
            lemma_pow_nat_pow2(b, n);
            assert(b * n == n * b) by (nonlinear_arith);
        }
    }

    /// Adds the second remainder into the first, block by block, and clears
    /// the carries.
    pub(crate) fn add_remainders(&self, remainder1: &mut RadixCiphertext, remainder2: &RadixCiphertext)
        requires
            self.wf(),
            self.clean(old(remainder1).blocks@),
            self.clean(remainder2.blocks@),
            old(remainder1).blocks@.len() == remainder2.blocks@.len(),
            all_zero(old(remainder1).blocks@) || all_zero(remainder2.blocks@),
        ensures
            final(remainder1).blocks@.len() == remainder2.blocks@.len(),
            self.clean(final(remainder1).blocks@),
            self.value(final(remainder1).blocks@) == self.value(old(remainder1).blocks@) + self.value(
                remainder2.blocks@,
            ),
    {
        proof {
            self.lemma_wf();
        }
        let add_and_clean = |r1_block: &Ciphertext, r2_block: &Ciphertext| -> (r: Ciphertext)
            requires
                self.wf(),
                self.key.block_wf(*r1_block),
                self.key.block_wf(*r2_block),
                r1_block.degree < self.key.message_modulus.0,
                r2_block.degree < self.key.message_modulus.0,
                r1_block.value == 0 || r2_block.value == 0,
            ensures
                self.key.block_wf(r),
                r.value == r1_block.value + r2_block.value,
                r.degree < self.key.message_modulus.0,
            {
                proof {
                    self.lemma_wf();
                }
                let mut block = *r1_block;
                self.key.unchecked_add_assign(&mut block, r2_block);
                self.key.message_extract_assign(&mut block);
                proof {
                    vstd::arithmetic::div_mod::lemma_small_mod(
                        (r1_block.value + r2_block.value) as nat,
                        self.msg(),
                    );
                }
                block
            };
        let ghost r1 = remainder1.blocks@;
        let ghost r2 = remainder2.blocks@;
        proof {
            assert forall|i: int| 0 <= i < r1.len() implies add_and_clean.requires((&r1[i], &r2[i])) by {
                assert(self.key.block_wf(r1[i]) && self.key.block_wf(r2[i]));
                assert(r1[i].degree < r1[i].message_modulus.0);
                assert(r2[i].degree < r2[i].message_modulus.0);
            }
        }
        let blocks = par_zip_map(remainder1.blocks.as_slice(), remainder2.blocks.as_slice(), add_and_clean);
        proof {
            assert forall|i: int| 0 <= i < blocks@.len() implies self.key.block_wf(#[trigger] blocks@[i])
                && blocks@[i].degree < blocks@[i].message_modulus.0 && blocks@[i].value == r1[i].value
                + r2[i].value by {
                assert(add_and_clean.ensures((&r1[i], &r2[i]), blocks@[i]));
            }
            crate::radix::lemma_radix_add(r1, r2, blocks@, self.msg());
        }
        remainder1.blocks = blocks;
    }

    /// A table on `x * msg + y`, for two boolean blocks `x` and `y`, that
    /// gives `2^pos` when both are 0 and 0 otherwise.
    pub open spec fn is_merge_flag_lut(&self, lut: BivariateLookupTable, pos: nat) -> bool {
        &&& self.key.bivariate_lut_wf(&lut)
        &&& lut.ct_right_modulus.0 == self.key.message_modulus.0
        &&& lut.acc.degree as nat <= pow2(pos)
        &&& forall|x: u64, y: u64|
            x <= 1 && y <= 1 ==> #[trigger] lut.acc.table@[packed_index(x as nat, y as nat, self.msg()) as int]
                as nat == (if x == 0 && y == 0 {
                pow2(pos)
            } else {
                0
            })
    }

    /// The table that merges the two overflow flags into the quotient bit at
    /// position `pos` of its block.
    fn merge_overflow_flag_lut(&self, bit_position_in_block: u64) -> (lut: BivariateLookupTable)
        requires
            self.wf(),
            (bit_position_in_block as nat) < self.msg_bits(),
        ensures
            self.is_merge_flag_lut(lut, bit_position_in_block as nat),
    {
        proof {
            self.lemma_wf();
            lemma_shl_one(bit_position_in_block);
            vstd::arithmetic::power2::lemma_pow2_strictly_increases(bit_position_in_block as nat, self.msg_bits());
        }
        let merge = move |x: u64, y: u64| -> (r: u64)
            ensures
                r == (if x == 0 && y == 0 {
                    1u64 << bit_position_in_block
                } else {
                    0
                }),
            {
                if x == 0 && y == 0 {
                    1u64 << bit_position_in_block
                } else {
                    0
                }
            };
        let lut = self.key.generate_lookup_table_bivariate(merge);
        proof {
            let p = pow2(bit_position_in_block as nat);
            let size = self.key.size();
            assert(p < size);
            assert forall|y: u64| (y as nat) < size implies (#[trigger] lut.acc.table@[y as int] as nat) <= p by {
                let l = (y / self.key.message_modulus.0) % self.key.message_modulus.0;
                let r = (y % self.key.message_modulus.0) % self.key.message_modulus.0;
                assert(bivariate_lut_entry(merge, l, r, lut.acc.table@[y as int], size));
                let o = choose|o: u64| #[trigger] merge.ensures((l, r), o) && lut.acc.table@[y as int] as nat == o as nat % size;
                vstd::arithmetic::div_mod::lemma_small_mod(o as nat, size);
            }
            let w = choose|w: int| 0 <= w < lut.acc.table@.len() && #[trigger] lut.acc.table@[w] == lut.acc.degree;
            assert(lut.acc.table@[(w as u64) as int] as nat <= p);
            assert forall|x: u64, y: u64| x <= 1 && y <= 1 implies #[trigger] lut.acc.table@[packed_index(
                x as nat,
                y as nat,
                self.msg(),
            ) as int] as nat == (if x == 0 && y == 0 {
                p
            } else {
                0
            }) by {
                assert(packed_index(x as nat, y as nat, self.msg()) < size) by (nonlinear_arith)
                    requires
                        x <= 1,
                        y <= 1,
                        self.msg() >= 2,
                        self.msg() * self.msg() <= size,
                        packed_index(x as nat, y as nat, self.msg()) == x * self.msg() + y,
                ;
                let k = packed_index(x as nat, y as nat, self.msg()) as int;
                assert(bivariate_lut_entry(merge, x, y, lut.acc.table@[k], size));
                let o = choose|o: u64| #[trigger] merge.ensures((x, y), o) && lut.acc.table@[k] as nat == o as nat % size;
                vstd::arithmetic::div_mod::lemma_small_mod(o as nat, size);
            }
        }
        lut
    }

    /// One merge table per bit position of a block.
    pub(crate) fn merge_overflow_flags_luts(&self, num_bits_in_message: u64) -> (luts: Vec<BivariateLookupTable>)
        requires
            self.wf(),
            num_bits_in_message as nat == self.msg_bits(),
        ensures
            luts@.len() == self.msg_bits(),
            forall|p: int| 0 <= p < luts@.len() ==> self.is_merge_flag_lut(#[trigger] luts@[p], p as nat),
    {
        let mut luts: Vec<BivariateLookupTable> = Vec::new();
        let mut bit_position_in_block: u64 = 0;
        while bit_position_in_block < num_bits_in_message
            invariant
                self.wf(),
                num_bits_in_message as nat == self.msg_bits(),
                bit_position_in_block <= num_bits_in_message,
                luts@.len() == bit_position_in_block,
                forall|p: int| 0 <= p < luts@.len() ==> self.is_merge_flag_lut(#[trigger] luts@[p], p as nat),
            decreases num_bits_in_message - bit_position_in_block,
        {
            let lut = self.merge_overflow_flag_lut(bit_position_in_block);
            luts.push(lut);
            bit_position_in_block = bit_position_in_block + 1;
        }
        luts
    }

    /// Evaluates the bivariate table on every block, paired with `rhs`.
    fn apply_bivariate_to_blocks(&self, rx: &mut RadixCiphertext, rhs: &Ciphertext, lut: &BivariateLookupTable)
        requires
            self.wf(),
            self.blocks_wf(old(rx).blocks@),
            self.key.block_wf(*rhs),
            self.key.bivariate_lut_wf(lut),
            lut.ct_right_modulus.0 < 256,
            forall|i: int|
                0 <= i < old(rx).blocks@.len() ==> packed_index(
                    (#[trigger] old(rx).blocks@[i]).value as nat,
                    rhs.value as nat,
                    lut.ct_right_modulus.0 as nat,
                ) < self.key.size() && old(rx).blocks@[i].degree * lut.ct_right_modulus.0 + rhs.degree
                    <= DEGREE_BOUND,
        ensures
            final(rx).blocks@.len() == old(rx).blocks@.len(),
            self.blocks_wf(final(rx).blocks@),
            forall|i: int|
                0 <= i < final(rx).blocks@.len() ==> (#[trigger] final(rx).blocks@[i]).value
                    == lut.acc.table@[packed_index(
                    old(rx).blocks@[i].value as nat,
                    rhs.value as nat,
                    lut.ct_right_modulus.0 as nat,
                ) as int] && final(rx).blocks@[i].degree == lut.acc.degree,
    {
        let apply = |block: &Ciphertext| -> (r: Ciphertext)
            requires
                self.wf(),
                self.key.block_wf(*block),
                self.key.block_wf(*rhs),
                self.key.bivariate_lut_wf(lut),
                lut.ct_right_modulus.0 < 256,
                packed_index(block.value as nat, rhs.value as nat, lut.ct_right_modulus.0 as nat)
                    < self.key.size(),
                block.degree * lut.ct_right_modulus.0 + rhs.degree <= DEGREE_BOUND,
            ensures
                self.key.block_wf(r),
                r.value == lut.acc.table@[packed_index(
                    block.value as nat,
                    rhs.value as nat,
                    lut.ct_right_modulus.0 as nat,
                ) as int],
                r.degree == lut.acc.degree,
            { self.key.unchecked_apply_lookup_table_bivariate(block, rhs, lut) };
        let ghost before = rx.blocks@;
        proof {
            assert forall|i: int| 0 <= i < before.len() implies apply.requires((&before[i],)) by {
                assert(self.key.block_wf(before[i]));
            }
        }
        let blocks = par_map(rx.blocks.as_slice(), apply);
        proof {
            assert forall|i: int| 0 <= i < blocks@.len() implies self.key.block_wf(#[trigger] blocks@[i])
                && blocks@[i].value == lut.acc.table@[packed_index(
                before[i].value as nat,
                rhs.value as nat,
                lut.ct_right_modulus.0 as nat,
            ) as int] && blocks@[i].degree == lut.acc.degree by {
                assert(apply.ensures((&before[i],), blocks@[i]));
            }
        }
        rx.blocks = blocks;
    }

    /// Of the two candidates for the new remainder, keeps the shifted
    /// remainder when the flag says the subtraction overflowed and the
    /// difference otherwise, and clears the other one, the two in parallel.
    fn zero_out_candidates(
        &self,
        cleaned_merged_interesting_remainder: RadixCiphertext,
        new_remainder: RadixCiphertext,
        overflow_flag: &Ciphertext,
        factor: MessageModulus,
    ) -> (res: (RadixCiphertext, RadixCiphertext))
        requires
            self.wf(),
            self.clean(cleaned_merged_interesting_remainder.blocks@),
            self.clean(new_remainder.blocks@),
            self.key.block_wf(*overflow_flag),
            overflow_flag.degree < factor.0,
            factor.0 <= 2,
        ensures
            res.0.blocks@.len() == cleaned_merged_interesting_remainder.blocks@.len(),
            self.clean(res.0.blocks@),
            forall|i: int|
                0 <= i < res.0.blocks@.len() ==> (#[trigger] res.0.blocks@[i]).value == (if overflow_flag.value
                    != 0 {
                    cleaned_merged_interesting_remainder.blocks@[i].value
                } else {
                    0
                }),
            res.1.blocks@.len() == new_remainder.blocks@.len(),
            self.clean(res.1.blocks@),
            forall|i: int|
                0 <= i < res.1.blocks@.len() ==> (#[trigger] res.1.blocks@[i]).value == (if overflow_flag.value
                    == 0 {
                    new_remainder.blocks@[i].value
                } else {
                    0
                }),
    {
        let ghost cleaned = cleaned_merged_interesting_remainder.blocks@;
        let ghost difference = new_remainder.blocks@;
        let zero_out_if_overflow_did_not_happen = move || -> (r: RadixCiphertext)
            requires
                self.wf(),
                self.clean(cleaned_merged_interesting_remainder.blocks@),
                self.key.block_wf(*overflow_flag),
                overflow_flag.degree < factor.0,
                factor.0 <= 2,
            ensures
                r.blocks@.len() == cleaned.len(),
                self.clean(r.blocks@),
                forall|i: int|
                    0 <= i < r.blocks@.len() ==> (#[trigger] r.blocks@[i]).value == (if overflow_flag.value
                        != 0 {
                        cleaned[i].value
                    } else {
                        0
                    }),
            {
                let mut rx = cleaned_merged_interesting_remainder;
                self.zero_out_blocks_on_flag(&mut rx, overflow_flag, factor, true);
                rx
            };
        let zero_out_if_overflow_happened = move || -> (r: RadixCiphertext)
            requires
                self.wf(),
                self.clean(new_remainder.blocks@),
                self.key.block_wf(*overflow_flag),
                overflow_flag.degree < factor.0,
                factor.0 <= 2,
            ensures
                r.blocks@.len() == difference.len(),
                self.clean(r.blocks@),
                forall|i: int|
                    0 <= i < r.blocks@.len() ==> (#[trigger] r.blocks@[i]).value == (if overflow_flag.value
                        == 0 {
                        difference[i].value
                    } else {
                        0
                    }),
            {
                let mut rx = new_remainder;
                self.zero_out_blocks_on_flag(&mut rx, overflow_flag, factor, false);
                rx
            };
        join(zero_out_if_overflow_did_not_happen, zero_out_if_overflow_happened)
    }

    /// Keeps every block when the flag's nonzero-ness is `keep_on_overflow`,
    /// and replaces every block by 0 otherwise; the flag is packed with the
    /// block using `factor`, which must exceed the flag's degree.
    fn zero_out_blocks_on_flag(
        &self,
        rx: &mut RadixCiphertext,
        overflow_flag: &Ciphertext,
        factor: MessageModulus,
        keep_on_overflow: bool,
    )
        requires
            self.wf(),
            self.clean(old(rx).blocks@),
            self.key.block_wf(*overflow_flag),
            overflow_flag.degree < factor.0,
            factor.0 <= 2,
        ensures
            final(rx).blocks@.len() == old(rx).blocks@.len(),
            self.clean(final(rx).blocks@),
            forall|i: int|
                0 <= i < final(rx).blocks@.len() ==> (#[trigger] final(rx).blocks@[i]).value == (if (
                overflow_flag.value != 0) == keep_on_overflow {
                    old(rx).blocks@[i].value
                } else {
                    0
                }),
    {
        proof {
            self.lemma_wf();
        }
        let keep_or_zero = move |block: u64, flag: u64| -> (r: u64)
            ensures
                r == (if (flag != 0) == keep_on_overflow {
                    block
                } else {
                    0
                }),
            {
                if (flag != 0) == keep_on_overflow {
                    block
                } else {
                    0
                }
            };
        let lut = self.key.generate_lookup_table_bivariate_with_factor(keep_or_zero, factor);
        let ghost old_blocks = rx.blocks@;
        let ghost size = self.key.size();
        let ghost f = factor.0 as nat;
        proof {
            let m = self.msg();
            assert forall|i: int| 0 <= i < old_blocks.len() implies packed_index(
                (#[trigger] old_blocks[i]).value as nat,
                overflow_flag.value as nat,
                f,
            ) < size && old_blocks[i].degree * factor.0 + overflow_flag.degree <= DEGREE_BOUND by {
                assert(self.key.block_wf(old_blocks[i]));
                let v = old_blocks[i].value as nat;
                let d = old_blocks[i].degree as nat;
                assert(d < m);
                assert(packed_index(v, overflow_flag.value as nat, f) < size) by (nonlinear_arith)
                    requires
                        v <= d,
                        d < m,
                        overflow_flag.value < f,
                        f <= 2,
                        m >= 2,
                        m * m <= size,
                        packed_index(v, overflow_flag.value as nat, f) == v * f + overflow_flag.value,
                ;
                assert(d * f <= 2 * m) by (nonlinear_arith)
                    requires
                        d < m,
                        f <= 2,
                ;
            }
            // Every entry of the table is a block value or 0: below the message modulus.
            assert forall|y: u64| (y as nat) < size implies (#[trigger] lut.acc.table@[y as int] as nat) < m by {
                let l = (y / factor.0) % self.key.message_modulus.0;
                let r = (y % factor.0) % self.key.message_modulus.0;
                assert(bivariate_lut_entry(keep_or_zero, l, r, lut.acc.table@[y as int], size));
                let o = choose|o: u64| #[trigger] keep_or_zero.ensures((l, r), o) && lut.acc.table@[y as int] as nat == o as nat % size;
                vstd::arithmetic::div_mod::lemma_small_mod(o as nat, size);
            }
            let w = choose|w: int| 0 <= w < lut.acc.table@.len() && #[trigger] lut.acc.table@[w] == lut.acc.degree;
            assert(lut.acc.table@[(w as u64) as int] < m);
        }
        self.apply_bivariate_to_blocks(rx, overflow_flag, &lut);
        proof {
            let m = self.msg();
            assert forall|i: int| 0 <= i < rx.blocks@.len() implies (#[trigger] rx.blocks@[i]).value == (if (
            overflow_flag.value != 0) == keep_on_overflow {
                old_blocks[i].value
            } else {
                0
            }) && rx.blocks@[i].degree < rx.blocks@[i].message_modulus.0 by {
                assert(self.key.block_wf(old_blocks[i]));
                let l = old_blocks[i].value;
                let r = overflow_flag.value;
                let k = packed_index(l as nat, r as nat, f);
                assert(k < size);
                assert(bivariate_lut_entry(keep_or_zero, l, r, lut.acc.table@[k as int], size));
                let o = choose|o: u64| #[trigger] keep_or_zero.ensures((l, r), o) && lut.acc.table@[k as int] as nat == o as nat % size;
                vstd::arithmetic::div_mod::lemma_small_mod(o as nat, size);
                assert(self.key.block_wf(rx.blocks@[i]));
            }
        }
    }

    /// `R := R << 1; R(0) := N(i)` on the low `last_non_trivial_block + 1`
    /// blocks of the two remainders (the others are zero), which are then
    /// added block by block: one of the two is zero, so no block overflows.
    fn shifted_merged_remainder(
        &self,
        remainder1: &RadixCiphertext,
        remainder2: &RadixCiphertext,
        numerator_block_stack: &mut Vec<Ciphertext>,
        last_non_trivial_block: usize,
        pos_in_block: usize,
        Ghost(t): Ghost<nat>,
    ) -> (merged: RadixCiphertext)
        requires
            self.wf(),
            self.clean(remainder1.blocks@),
            self.clean(remainder2.blocks@),
            remainder1.blocks@.len() == remainder2.blocks@.len(),
            last_non_trivial_block < remainder1.blocks@.len(),
            all_zero(remainder1.blocks@) || all_zero(remainder2.blocks@),
            2 * (self.value(remainder1.blocks@) + self.value(remainder2.blocks@)) + 1 < self.modulus(
                (last_non_trivial_block + 1) as nat,
            ),
            old(numerator_block_stack)@.len() >= 1,
            self.key.block_wf(old(numerator_block_stack)@.last()),
            (old(numerator_block_stack)@.last().degree as nat) < self.key.size(),
            (pos_in_block as nat) < self.msg_bits(),
            t < pow2(pos_in_block as nat + 1),
            old(numerator_block_stack)@.last().value as nat == t * pow2(
                (self.msg_bits() - 1 - pos_in_block) as nat,
            ),
        ensures
            merged.blocks@.len() == last_non_trivial_block + 1,
            self.normalized(merged.blocks@),
            self.value(merged.blocks@) == 2 * (self.value(remainder1.blocks@) + self.value(
                remainder2.blocks@,
            )) + t / pow2(pos_in_block as nat),
            t / pow2(pos_in_block as nat) <= 1,
            pos_in_block == 0 ==> final(numerator_block_stack)@ == old(numerator_block_stack)@.drop_last(),
            pos_in_block != 0 ==> final(numerator_block_stack)@.len() == old(numerator_block_stack)@.len()
                && final(numerator_block_stack)@.drop_last() == old(numerator_block_stack)@.drop_last()
                && self.key.block_wf(final(numerator_block_stack)@.last())
                && (final(numerator_block_stack)@.last().degree as nat) < self.key.size()
                && final(numerator_block_stack)@.last().value as nat == (t % pow2(pos_in_block as nat))
                * pow2((self.msg_bits() - pos_in_block) as nat),
    {
        proof {
            self.lemma_wf();
        }
        let num_blocks = remainder1.blocks.len();
        let ghost len = (last_non_trivial_block + 1) as int;
        let ghost m = self.modulus(len as nat);
        let mut interesting_remainder1 = RadixCiphertext {
            blocks: copy_block_range(remainder1.blocks.as_slice(), 0, last_non_trivial_block + 1),
        };
        let mut interesting_remainder2 = RadixCiphertext {
            blocks: copy_block_range(remainder2.blocks.as_slice(), 0, last_non_trivial_block + 1),
        };
        let ghost low1 = interesting_remainder1.blocks@;
        let ghost low2 = interesting_remainder2.blocks@;
        proof {
            self.lemma_low_blocks_hold_value(remainder1.blocks@, len, m);
            self.lemma_low_blocks_hold_value(remainder2.blocks@, len, m);
            self.lemma_clean_normalized(low1);
            self.lemma_clean_normalized(low2);
            assert(all_zero(remainder1.blocks@) ==> all_zero(low1));
            assert(all_zero(remainder2.blocks@) ==> all_zero(low2));
        }
        self.left_shift_interesting_remainder1(
            &mut interesting_remainder1,
            numerator_block_stack,
            pos_in_block,
            Ghost(t),
        );
        proof {
            vstd::arithmetic::power2::lemma2_to64();
            self.lemma_clean_normalized(interesting_remainder1.blocks@);
        }
        self.unchecked_scalar_left_shift_assign_parallelized(&mut interesting_remainder2, 1);
        let ghost shifted1 = interesting_remainder1.blocks@;
        let ghost shifted2 = interesting_remainder2.blocks@;
        proof {
            let v2 = self.value(low2);
            assert(pow2(1) == 2);
            vstd::arithmetic::div_mod::lemma_small_mod(2 * v2, m);
            assert(self.value(shifted2) == 2 * v2);
            let h = self.msg() / 2;
            vstd::arithmetic::power2::lemma_pow2_unfold(self.msg_bits());
            assert(h * 2 == self.msg());
            assert(2 * self.msg() <= self.key.size()) by (nonlinear_arith)
                requires
                    self.msg() >= 2,
                    self.msg() * self.msg() <= self.key.size(),
            ;
            assert forall|j: int| 0 <= j < shifted2.len() implies (#[trigger] shifted1[j]).value
                + shifted2[j].value < self.msg() && shifted1[j].degree + shifted2[j].degree
                < self.key.size() by {
                assert(self.key.block_wf(shifted1[j]) && self.key.block_wf(shifted2[j]));
                assert(shifted1[j].degree < shifted1[j].message_modulus.0);
                assert(shifted2[j].degree < shifted2[j].message_modulus.0);
                assert(shifted2[j].value == crate::radix_ops::shifted_block(low2, j, self.msg(), 2));
                if all_zero(low2) {
                    assert(low2[j].value == 0);
                    if j > 0 {
                        assert(low2[j - 1].value == 0);
                    }
                    assert((0nat % h) * 2 == 0);
                    assert(0nat / h == 0);
                } else {
                    assert(all_zero(low1));
                    if j == 0 {
                        let x = low2[0].value as nat % h;
                        assert(x < h);
                        assert(x * 2 + 2 <= self.msg());
                    } else {
                        assert(shifted1[j].value == 0);
                    }
                }
            }
        }
        let mut merged_interesting_remainder = interesting_remainder1;
        self.unchecked_add_assign(&mut merged_interesting_remainder, &interesting_remainder2);
        proof {
            let mb = merged_interesting_remainder.blocks@;
            assert forall|j: int| 0 <= j < mb.len() implies (#[trigger] mb[j].value as nat) < self.msg()
                && (mb[j].degree as nat) < self.key.size() by {
                assert(mb[j].value == shifted1[j].value + shifted2[j].value);
            }
        }
        merged_interesting_remainder
    }


    /// The blocks that hold the low `msb_bit_set + 1` bits of the divisor,
    /// trimmed to those bits, and the blocks above them, with those bits
    /// cleared.
    fn split_divisor(
        &self,
        divisor: &RadixCiphertext,
        msb_bit_set: usize,
        num_bits_in_message: u64,
    ) -> (parts: (RadixCiphertext, RadixCiphertext))
        requires
            self.wf(),
            num_bits_in_message as nat == self.msg_bits(),
            self.clean(divisor.blocks@),
            (msb_bit_set as nat) < divisor.blocks@.len() * self.msg_bits(),
            msb_bit_set < usize::MAX,
        ensures
            parts.0.blocks@.len() == msb_bit_set as nat / self.msg_bits() + 1,
            self.normalized(parts.0.blocks@),
            self.value(parts.0.blocks@) == self.value(divisor.blocks@) % pow2((msb_bit_set + 1) as nat),
            self.normalized(parts.1.blocks@),
            all_zero(parts.1.blocks@) == (self.value(divisor.blocks@) < pow2((msb_bit_set + 1) as nat)),
    {
        proof {
            self.lemma_wf();
        }
        let num_blocks = divisor.blocks.len();
        let last_non_trivial_block = msb_bit_set / num_bits_in_message as usize;
        let ghost b = self.msg_bits();
        proof {
            let ms = msb_bit_set as int;
            let bi = b as int;
            vstd::arithmetic::div_mod::lemma_fundamental_div_mod(ms, bi);
            vstd::arithmetic::div_mod::lemma_fundamental_div_mod(ms + 1, bi);
            assert(last_non_trivial_block < num_blocks) by (nonlinear_arith)
                requires
                    ms == bi * (last_non_trivial_block as int) + ms % bi,
                    ms % bi >= 0,
                    ms < (num_blocks as int) * bi,
                    bi >= 1,
            ;
            assert((ms + 1) / bi <= num_blocks) by (nonlinear_arith)
                requires
                    ms + 1 == bi * ((ms + 1) / bi) + (ms + 1) % bi,
                    (ms + 1) % bi >= 0,
                    ms < (num_blocks as int) * bi,
                    bi >= 1,
            ;
        }
        let first_ms_block = (msb_bit_set + 1) / num_bits_in_message as usize;
        let interesting_divisor = RadixCiphertext {
            blocks: copy_block_range(divisor.blocks.as_slice(), 0, last_non_trivial_block + 1),
        };
        let divisor_ms_blocks = RadixCiphertext {
            blocks: copy_block_range(divisor.blocks.as_slice(), first_ms_block, num_blocks),
        };
        proof {
            self.lemma_clean_subrange(divisor.blocks@, 0, last_non_trivial_block + 1);
        }
        let ghost dv = self.value(divisor.blocks@);
        let ghost whole = divisor.blocks@;
        let trim_low = move || -> (d: RadixCiphertext)
            requires
                self.wf(),
                num_bits_in_message as nat == self.msg_bits(),
                self.clean(interesting_divisor.blocks@),
                interesting_divisor.blocks@.len() == msb_bit_set as nat / self.msg_bits() + 1,
                msb_bit_set < usize::MAX,
            ensures
                d.blocks@.len() == interesting_divisor.blocks@.len(),
                self.normalized(d.blocks@),
                self.value(d.blocks@) == self.value(interesting_divisor.blocks@) % pow2(
                    (msb_bit_set + 1) as nat,
                ),
            {
                let mut d = interesting_divisor;
                self.trim_last_interesting_divisor_bits(&mut d, msb_bit_set, num_bits_in_message);
                d
            };
        let trim_high = move || -> (d: RadixCiphertext)
            requires
                self.wf(),
                num_bits_in_message as nat == self.msg_bits(),
                self.clean(whole),
                (msb_bit_set as nat) < whole.len() * self.msg_bits(),
                msb_bit_set < usize::MAX,
                divisor_ms_blocks.blocks@ == whole.subrange(
                    ((msb_bit_set + 1) as nat / self.msg_bits()) as int,
                    whole.len() as int,
                ),
            ensures
                self.normalized(d.blocks@),
                all_zero(d.blocks@) == (self.value(whole) < pow2((msb_bit_set + 1) as nat)),
            {
                let mut d = divisor_ms_blocks;
                self.trim_first_divisor_ms_bits(&mut d, msb_bit_set, num_bits_in_message, Ghost(whole));
                d
            };
        let ghost low = interesting_divisor.blocks@;
        let (low_part, high_part) = join(trim_low, trim_high);
        proof {
            let s1 = msb_bit_set as nat + 1;
            let len = (last_non_trivial_block + 1) as int;
            lemma_radix_split(whole, self.msg(), len);
            let hv = self.value(whole.subrange(len, whole.len() as int));
            let w = pow_nat(self.msg(), len as nat);
            lemma_pow_nat_pow2(b, len as nat);
            let ms = msb_bit_set as int;
            let bi = b as int;
            vstd::arithmetic::div_mod::lemma_fundamental_div_mod(ms, bi);
            assert(s1 <= b * (len as nat)) by (nonlinear_arith)
                requires
                    ms == bi * (len - 1) + ms % bi,
                    ms % bi < bi,
                    s1 == ms + 1,
                    bi == b,
            ;
            vstd::arithmetic::power2::lemma_pow2_adds(s1, (b * (len as nat) - s1) as nat);
            vstd::arithmetic::power2::lemma_pow2_pos(s1);
            vstd::arithmetic::power2::lemma_pow2_pos((b * (len as nat) - s1) as nat);
            let ps = pow2(s1);
            let pr = pow2((b * (len as nat) - s1) as nat);
            assert(w == ps * pr);
            assert(dv == self.value(low) + (ps * pr) * hv);
            assert(dv == self.value(low) + ps * (pr * hv)) by (nonlinear_arith)
                requires
                    dv == self.value(low) + (ps * pr) * hv,
            ;
            vstd::arithmetic::div_mod::lemma_mod_multiples_vanish((pr * hv) as int, self.value(low) as int, ps as int);
            vstd::arithmetic::mul::lemma_mul_is_commutative(ps as int, (pr * hv) as int);
        }
        (low_part, high_part)
    }


    /// Subtracts the divisor's low part from the merged remainder, tests the
    /// divisor's high blocks against zero, and copies the merged remainder
    /// with its carries cleared, the three in parallel.
    fn overflow_flags(
        &self,
        merged: &RadixCiphertext,
        interesting_divisor: &RadixCiphertext,
        divisor_ms_blocks: &RadixCiphertext,
    ) -> (res: ((RadixCiphertext, BooleanBlock), (Ciphertext, RadixCiphertext)))
        requires
            self.wf(),
            self.normalized(merged.blocks@),
            self.normalized(interesting_divisor.blocks@),
            merged.blocks@.len() == interesting_divisor.blocks@.len(),
        ensures
            res.0.0.blocks@.len() == merged.blocks@.len(),
            self.clean(res.0.0.blocks@),
            self.value(res.0.0.blocks@) as int == (self.value(merged.blocks@) as int - self.value(
                interesting_divisor.blocks@,
            ) as int) % (self.modulus(merged.blocks@.len()) as int),
            self.boolean_wf(res.0.1.0),
            res.0.1.0.value == bit(self.value(merged.blocks@) < self.value(interesting_divisor.blocks@)),
            self.boolean_wf(res.1.0),
            res.1.0.value == bit(!all_zero(divisor_ms_blocks.blocks@)),
            res.1.1.blocks@.len() == merged.blocks@.len(),
            self.clean(res.1.1.blocks@),
            forall|j: int|
                0 <= j < merged.blocks@.len() ==> (#[trigger] res.1.1.blocks@[j]).value
                    == merged.blocks@[j].value,
    {
        let do_overflowing_sub = || -> (r: (RadixCiphertext, BooleanBlock))
            requires
                self.wf(),
                self.normalized(merged.blocks@),
                self.normalized(interesting_divisor.blocks@),
                merged.blocks@.len() == interesting_divisor.blocks@.len(),
            ensures
                r.0.blocks@.len() == merged.blocks@.len(),
                self.clean(r.0.blocks@),
                self.value(r.0.blocks@) as int == (self.value(merged.blocks@) as int - self.value(
                    interesting_divisor.blocks@,
                ) as int) % (self.modulus(merged.blocks@.len()) as int),
                self.boolean_wf(r.1.0),
                r.1.0.value == bit(self.value(merged.blocks@) < self.value(interesting_divisor.blocks@)),
            { self.unchecked_unsigned_overflowing_sub_parallelized(merged, interesting_divisor) };
        let check_divisor_upper_blocks = || -> (r: Ciphertext)
            requires
                self.wf(),
            ensures
                self.boolean_wf(r),
                r.value == bit(!all_zero(divisor_ms_blocks.blocks@)),
            {
                // The blocks are compared with 0: is any of them nonzero?
                let trivial_blocks = &divisor_ms_blocks.blocks;
                if trivial_blocks.is_empty() {
                    proof {
                        self.lemma_wf();
                    }
                    self.key.create_trivial(0)
                } else {
                    let tmp = self.compare_blocks_with_zero(
                        trivial_blocks.as_slice(),
                        ZeroComparisonType::Difference,
                    );
                    let r = self.is_at_least_one_comparisons_block_true(tmp);
                    proof {
                        assert(all_zero(tmp@) == all_zero(divisor_ms_blocks.blocks@)) by {
                            if all_zero(tmp@) {
                                assert forall|i: int| 0 <= i < divisor_ms_blocks.blocks@.len() implies #[trigger] divisor_ms_blocks.blocks@[i].value == 0 by {
                                    assert(tmp@[i].value == 0);
                                }
                            }
                            if all_zero(divisor_ms_blocks.blocks@) {
                                assert forall|i: int| 0 <= i < tmp@.len() implies #[trigger] tmp@[i].value == 0 by {
                                    assert(divisor_ms_blocks.blocks@[i].value == 0);
                                }
                            }
                        }
                    }
                    r
                }
            };
        // A copy of the merged remainder at nominal noise level, so that it can
        // go through bivariate tables.
        let create_clean_version_of_merged_remainder = || -> (r: RadixCiphertext)
            requires
                self.wf(),
                self.normalized(merged.blocks@),
            ensures
                r.blocks@.len() == merged.blocks@.len(),
                self.clean(r.blocks@),
                forall|j: int|
                    0 <= j < merged.blocks@.len() ==> (#[trigger] r.blocks@[j]).value
                        == merged.blocks@[j].value,
            {
                let r = self.message_extracted(merged);
                proof {
                    assert forall|j: int| 0 <= j < merged.blocks@.len() implies (#[trigger] r.blocks@[j]).value
                        == merged.blocks@[j].value by {
                        vstd::arithmetic::div_mod::lemma_small_mod(
                            merged.blocks@[j].value as nat,
                            self.msg(),
                        );
                    }
                }
                r
            };
        let upper_and_clean = move || -> (r: (Ciphertext, RadixCiphertext))
            requires
                self.wf(),
                self.normalized(merged.blocks@),
            ensures
                self.boolean_wf(r.0),
                r.0.value == bit(!all_zero(divisor_ms_blocks.blocks@)),
                r.1.blocks@.len() == merged.blocks@.len(),
                self.clean(r.1.blocks@),
                forall|j: int|
                    0 <= j < merged.blocks@.len() ==> (#[trigger] r.1.blocks@[j]).value
                        == merged.blocks@[j].value,
            { join(check_divisor_upper_blocks, create_clean_version_of_merged_remainder) };
        join(do_overflowing_sub, upper_and_clean)
    }

    /// A copy of the blocks with their carries cleared.
    fn message_extracted(&self, ct: &RadixCiphertext) -> (r: RadixCiphertext)
        requires
            self.wf(),
            self.blocks_wf(ct.blocks@),
        ensures
            r.blocks@.len() == ct.blocks@.len(),
            self.clean(r.blocks@),
            forall|i: int|
                0 <= i < r.blocks@.len() ==> (#[trigger] r.blocks@[i]).value == ct.blocks@[i].value
                    % self.key.message_modulus.0,
    {
        let extract = |block: &Ciphertext| -> (r: Ciphertext)
            requires
                self.wf(),
                self.key.block_wf(*block),
            ensures
                self.key.block_wf(r),
                r.value == block.value % self.key.message_modulus.0,
                r.degree < self.key.message_modulus.0,
            { self.key.message_extract(block) };
        let blocks = par_map(ct.blocks.as_slice(), extract);
        proof {
            assert forall|i: int| 0 <= i < blocks@.len() implies self.key.block_wf(#[trigger] blocks@[i])
                && blocks@[i].degree < blocks@[i].message_modulus.0 && blocks@[i].value
                == ct.blocks@[i].value % self.key.message_modulus.0 by {
                assert(extract.ensures((&ct.blocks@[i],), blocks@[i]));
            }
        }
        RadixCiphertext { blocks }
    }

    /// The first `len` blocks of clean blocks whose value is below
    /// `msg ^ len` hold the whole value.
    proof fn lemma_low_blocks_hold_value(&self, s: Seq<Ciphertext>, len: int, m: nat)
        requires
            self.wf(),
            self.clean(s),
            0 < len <= s.len(),
            m == self.modulus(len as nat),
            self.value(s) < m,
        ensures
            self.value(s.subrange(0, len)) == self.value(s),
            self.clean(s.subrange(0, len)),
            all_zero(s) ==> all_zero(s.subrange(0, len)),
    {
        self.lemma_wf();
        crate::radix::lemma_radix_split(s, self.msg(), len);
        let hv = self.value(s.subrange(len, s.len() as int));
        if hv > 0 {
            assert(m * hv >= m) by (nonlinear_arith)
                requires
                    hv >= 1,
            ;
        }
        assert(m * hv == 0) by (nonlinear_arith)
            requires
                hv == 0,
        ;
        self.lemma_clean_subrange(s, 0, len);
        if all_zero(s) {
            assert forall|i: int| 0 <= i < len implies #[trigger] s.subrange(0, len)[i].value == 0 by {
                assert(s.subrange(0, len)[i] == s[i]);
            }
        }
    }

    /// The last interesting block of the divisor may hold bits above the
    /// current one: keeps only the low `msb_bit_set + 1` bits of the value.
    fn trim_last_interesting_divisor_bits(
        &self,
        interesting_divisor: &mut RadixCiphertext,
        msb_bit_set: usize,
        num_bits_in_message: u64,
    )
        requires
            self.wf(),
            num_bits_in_message as nat == self.msg_bits(),
            self.clean(old(interesting_divisor).blocks@),
            old(interesting_divisor).blocks@.len() == msb_bit_set as nat / self.msg_bits() + 1,
            msb_bit_set < usize::MAX,
        ensures
            final(interesting_divisor).blocks@.len() == old(interesting_divisor).blocks@.len(),
            self.normalized(final(interesting_divisor).blocks@),
            self.value(final(interesting_divisor).blocks@) == self.value(old(interesting_divisor).blocks@)
                % pow2((msb_bit_set + 1) as nat),
    {
        proof {
            self.lemma_wf();
            self.lemma_clean_normalized(interesting_divisor.blocks@);
        }
        let ghost b = self.msg_bits();
        let ghost old_blocks = interesting_divisor.blocks@;
        let ghost last = (msb_bit_set as nat / b) as int;
        let ghost dv = self.value(old_blocks);
        proof {
            lemma_radix_split(old_blocks, self.msg(), last);
            let low = old_blocks.subrange(0, last);
            self.lemma_clean_subrange(old_blocks, 0, last);
            self.lemma_clean_value_small(low);
            let top = old_blocks.subrange(last, last + 1);
            assert(top.drop_first().len() == 0);
            assert(radix_value(top.drop_first(), self.msg()) == 0);
            assert(top[0] == old_blocks[last]);
            assert(self.msg() * 0 == 0) by (nonlinear_arith);
            lemma_pow_nat_pow2(b, last as nat);
            vstd::arithmetic::div_mod::lemma_fundamental_div_mod(msb_bit_set as int, b as int);
        }
        if ((msb_bit_set + 1) % num_bits_in_message as usize) == 0 {
            proof {
                let l1 = (last + 1) as nat;
                let ms = msb_bit_set as int;
                let bi = b as int;
                assert(ms == bi * last + ms % bi);
                assert((ms + 1) % bi == 0);
                vstd::arithmetic::div_mod::lemma_fundamental_div_mod(ms + 1, bi);
                assert(bi * l1 == ms + 1) by (nonlinear_arith)
                    requires
                        ms + 1 == bi * ((ms + 1) / bi),
                        ms == bi * last + ms % bi,
                        bi >= 1,
                        l1 == last + 1,
                        0 <= ms % bi < bi,
                ;
                lemma_pow_nat_pow2(b, l1);
                self.lemma_clean_value_small(old_blocks);
                vstd::arithmetic::div_mod::lemma_small_mod(dv, pow2((msb_bit_set + 1) as nat));
            }
            return;
        }
        // Where the msb is in the block.
        let pos_in_block = msb_bit_set as u64 % num_bits_in_message;
        let shift_amount = num_bits_in_message - (pos_in_block + 1);
        // Ones on the message part, zeros on the carries.
        let full_message_mask = self.key.message_modulus.0 - 1;
        // Keeps only the bits that belong below the msb.
        let shifted_mask = full_message_mask >> shift_amount;
        let mask_bits = move |x: u64| -> (r: u64)
            ensures
                r == x & shifted_mask,
            { x & shifted_mask };
        let masking_lut = self.key.generate_lookup_table(mask_bits);
        let last_index = interesting_divisor.blocks.len() - 1;
        let mut block = interesting_divisor.blocks[last_index];
        let ghost x = block.value;
        proof {
            assert(self.key.block_wf(block) && (block.value as nat) < self.msg());
        }
        self.key.apply_lookup_table_assign(&mut block, &masking_lut);
        interesting_divisor.blocks.set(last_index, block);
        proof {
            let p = pos_in_block as nat;
            let r = p + 1;
            lemma_shl_one(num_bits_in_message);
            lemma_shl_one((pos_in_block + 1) as u64);
            assert(self.msg() == pow2(b));
            lemma_low_mask(x, full_message_mask, num_bits_in_message, pos_in_block);
            assert(lut_entry(mask_bits, x, masking_lut.table@[x as int], self.key.size()));
            let o = choose|o: u64| #[trigger] mask_bits.ensures((x,), o) && masking_lut.table@[x as int] as nat == o as nat % self.key.size();
            assert(o == x % (1u64 << ((pos_in_block + 1) as u64)));
            if pos_in_block + 1 == num_bits_in_message {
                let ms = msb_bit_set as int;
                let bi = b as int;
                vstd::arithmetic::div_mod::lemma_fundamental_div_mod(ms, bi);
                assert(ms % bi == bi - 1);
                assert(ms + 1 == (ms / bi + 1) * bi + 0) by (nonlinear_arith)
                    requires
                        ms == bi * (ms / bi) + ms % bi,
                        ms % bi == bi - 1,
                ;
                vstd::arithmetic::div_mod::lemma_fundamental_div_mod_converse(ms + 1, bi, ms / bi + 1, 0);
                assert(false);
            }
            if pos_in_block + 1 < num_bits_in_message {
                vstd::arithmetic::power2::lemma_pow2_strictly_increases((pos_in_block + 1) as nat, b);
            }
            assert((1u64 << ((pos_in_block + 1) as u64)) as nat == pow2(r));
            vstd::arithmetic::power2::lemma_pow2_pos(r);
            assert(o < (1u64 << ((pos_in_block + 1) as u64)));
            assert(o < self.msg());
            vstd::arithmetic::div_mod::lemma_small_mod(o as nat, self.key.size());
            let new_blocks = interesting_divisor.blocks@;
            assert(new_blocks.subrange(0, last) =~= old_blocks.subrange(0, last));
            lemma_radix_split(new_blocks, self.msg(), last);
            let ntop = new_blocks.subrange(last, last + 1);
            assert(ntop.drop_first().len() == 0);
            assert(radix_value(ntop.drop_first(), self.msg()) == 0);
            assert(ntop[0] == block);
            let w = pow_nat(self.msg(), last as nat);
            lemma_pow_nat_positive(self.msg(), last as nat);
            assert(msb_bit_set == b * last + p);
            assert(b * (last as nat) + r == msb_bit_set + 1);
            lemma_pow2_adds(b * (last as nat), r);
            lemma_divisor_cut(
                dv,
                self.value(old_blocks.subrange(0, last)),
                w,
                x as nat,
                0,
                self.msg(),
                r,
                b,
                msb_bit_set as nat,
            );
            assert(self.msg() * 0 == 0) by (nonlinear_arith);
            assert forall|i: int| 0 <= i < new_blocks.len() implies self.key.block_wf(#[trigger] new_blocks[i])
                && (new_blocks[i].value as nat) < self.msg() && (new_blocks[i].degree as nat) < self.key.size() by {
                if i != last {
                    assert(new_blocks[i] == old_blocks[i]);
                } else {
                    self.key.lemma_lut_degree_bound(&masking_lut);
                }
            }
        }
    }

    /// The first most significant block of the divisor may hold bits at and
    /// below the current one: clears them, so that the blocks are all zero
    /// exactly when the divisor is below `2^(msb_bit_set + 1)`.
    fn trim_first_divisor_ms_bits(
        &self,
        divisor_ms_blocks: &mut RadixCiphertext,
        msb_bit_set: usize,
        num_bits_in_message: u64,
        Ghost(divisor): Ghost<Seq<Ciphertext>>,
    )
        requires
            self.wf(),
            num_bits_in_message as nat == self.msg_bits(),
            self.clean(divisor),
            (msb_bit_set as nat) < divisor.len() * self.msg_bits(),
            msb_bit_set < usize::MAX,
            old(divisor_ms_blocks).blocks@ == divisor.subrange(
                ((msb_bit_set + 1) as nat / self.msg_bits()) as int,
                divisor.len() as int,
            ),
        ensures
            final(divisor_ms_blocks).blocks@.len() == old(divisor_ms_blocks).blocks@.len(),
            self.normalized(final(divisor_ms_blocks).blocks@),
            all_zero(final(divisor_ms_blocks).blocks@) == (self.value(divisor) < pow2(
                (msb_bit_set + 1) as nat,
            )),
    {
        proof {
            self.lemma_wf();
        }
        let ghost b = self.msg_bits();
        let ghost n = divisor.len();
        let ghost dv = self.value(divisor);
        let ghost m = ((msb_bit_set + 1) as nat / b) as int;
        let ghost k = msb_bit_set as nat;
        proof {
            let ms = msb_bit_set as int;
            let bi = b as int;
            vstd::arithmetic::div_mod::lemma_fundamental_div_mod(ms + 1, bi);
            assert(m * bi <= ms + 1) by (nonlinear_arith)
                requires
                    ms + 1 == bi * m + (ms + 1) % bi,
                    (ms + 1) % bi >= 0,
            ;
            if m > n {
                assert(false) by (nonlinear_arith)
                    requires
                        m >= n + 1,
                        bi >= 1,
                        m * bi <= ms + 1,
                        ms < n * bi,
                ;
            }
            self.lemma_clean_normalized(divisor);
            self.lemma_clean_subrange(divisor, m, n as int);
            self.lemma_clean_normalized(divisor.subrange(m, n as int));
            lemma_radix_split(divisor, self.msg(), m);
            self.lemma_clean_subrange(divisor, 0, m);
            self.lemma_clean_value_small(divisor.subrange(0, m));
            lemma_pow_nat_pow2(b, m as nat);
            lemma_radix_zero(divisor.subrange(m, n as int), self.msg());
        }
        if divisor_ms_blocks.blocks.is_empty() || ((msb_bit_set + 1) % num_bits_in_message as usize) == 0 {
            proof {
                let ms = msb_bit_set as int;
                let bi = b as int;
                let hv = self.value(divisor.subrange(m, n as int));
                let w = pow_nat(self.msg(), m as nat);
                if divisor_ms_blocks.blocks@.len() == 0 {
                    assert(m == n);
                    assert(ms + 1 >= bi * m) by (nonlinear_arith)
                        requires
                            ms + 1 == bi * m + (ms + 1) % bi,
                            (ms + 1) % bi >= 0,
                    ;
                    assert(ms + 1 <= bi * m) by (nonlinear_arith)
                        requires
                            ms < n * bi,
                            m == n,
                    ;
                } else {
                    assert((ms + 1) % bi == 0);
                }
                assert(b * (m as nat) == msb_bit_set + 1);
                assert(hv == 0 ==> w * hv == 0) by (nonlinear_arith);
                assert(hv >= 1 ==> w * hv >= w) by (nonlinear_arith);
            }
            return;
        }
        // Where the msb is in the block.
        let pos_in_block = msb_bit_set as u64 % num_bits_in_message;
        let shift_amount = pos_in_block + 1;
        let full_message_mask = self.key.message_modulus.0 - 1;
        let shifted_mask = full_message_mask << shift_amount;
        // Keep the mask within the message bits, so that the degree stays
        // below the message modulus.
        let shifted_mask = shifted_mask & full_message_mask;
        let mask_bits = move |x: u64| -> (r: u64)
            ensures
                r == x & shifted_mask,
            { x & shifted_mask };
        let masking_lut = self.key.generate_lookup_table(mask_bits);
        let mut block = divisor_ms_blocks.blocks[0];
        let ghost x = block.value;
        proof {
            assert(self.key.block_wf(block) && (block.value as nat) < self.msg());
        }
        self.key.apply_lookup_table_assign(&mut block, &masking_lut);
        let ghost old_ms = divisor_ms_blocks.blocks@;
        divisor_ms_blocks.blocks.set(0, block);
        proof {
            let p = pos_in_block as nat;
            let r = p + 1;
            let ms = msb_bit_set as int;
            let bi = b as int;
            vstd::arithmetic::div_mod::lemma_fundamental_div_mod(ms, bi);
            if pos_in_block + 1 == num_bits_in_message {
                assert(ms % bi == bi - 1);
                assert(ms + 1 == (ms / bi + 1) * bi + 0) by (nonlinear_arith)
                    requires
                        ms == bi * (ms / bi) + ms % bi,
                        ms % bi == bi - 1,
                ;
                vstd::arithmetic::div_mod::lemma_fundamental_div_mod_converse(ms + 1, bi, ms / bi + 1, 0);
                assert(false);
            }
            assert(pos_in_block as int == ms % bi);
            assert(ms + 1 == (ms / bi) * bi + (ms % bi + 1)) by (nonlinear_arith)
                requires
                    ms == bi * (ms / bi) + ms % bi,
            ;
            vstd::arithmetic::div_mod::lemma_fundamental_div_mod_converse(ms + 1, bi, ms / bi, ms % bi + 1);
            assert(m == ms / bi);
            lemma_shl_one(num_bits_in_message);
            lemma_shl_one((pos_in_block + 1) as u64);
            vstd::arithmetic::power2::lemma_pow2_pos(r);
            lemma_high_mask(x, full_message_mask, num_bits_in_message, pos_in_block);
            assert(lut_entry(mask_bits, x, masking_lut.table@[x as int], self.key.size()));
            let o = choose|o: u64| #[trigger] mask_bits.ensures((x,), o) && masking_lut.table@[x as int] as nat == o as nat % self.key.size();
            assert(o == x - x % (1u64 << ((pos_in_block + 1) as u64)));
            vstd::arithmetic::div_mod::lemma_small_mod(o as nat, self.key.size());
            let new_ms = divisor_ms_blocks.blocks@;
            assert(new_ms[0] == block);
            assert(new_ms.drop_first() =~= old_ms.drop_first());
            assert(old_ms[0] == divisor[m]);
            assert(old_ms.drop_first() =~= divisor.subrange(m + 1, n as int));
            let hv = self.value(divisor.subrange(m + 1, n as int));
            let w = pow_nat(self.msg(), m as nat);
            lemma_pow_nat_positive(self.msg(), m as nat);
            assert(b * (m as nat) + r == msb_bit_set + 1);
            lemma_pow2_adds(b * (m as nat), r);
            assert(self.value(old_ms) == x + self.msg() * hv);
            lemma_divisor_cut(
                dv,
                self.value(divisor.subrange(0, m)),
                w,
                x as nat,
                hv,
                self.msg(),
                r,
                b,
                k,
            );
            lemma_radix_zero(new_ms, self.msg());
            self.key.lemma_lut_degree_bound(&masking_lut);
            assert forall|i: int| 0 <= i < new_ms.len() implies self.key.block_wf(#[trigger] new_ms[i])
                && (new_ms[i].value as nat) < self.msg() && (new_ms[i].degree as nat) < self.key.size() by {
                if i != 0 {
                    assert(new_ms[i] == old_ms[i]);
                    assert(self.normalized(divisor.subrange(m, n as int)));
                }
            }
        }
    }

    /// `R := R << 1; R(0) := N(i)`: the numerator block that holds the next
    /// bit is put below the remainder, so that shifting left pulls that bit
    /// in; the shifted numerator block goes back on the stack while it still
    /// holds unread bits.
    fn left_shift_interesting_remainder1(
        &self,
        interesting_remainder1: &mut RadixCiphertext,
        numerator_block_stack: &mut Vec<Ciphertext>,
        pos_in_block: usize,
        Ghost(t): Ghost<nat>,
    )
        requires
            self.wf(),
            self.normalized(old(interesting_remainder1).blocks@),
            old(interesting_remainder1).blocks@.len() >= 1,
            2 * self.value(old(interesting_remainder1).blocks@) + 1 < self.modulus(
                old(interesting_remainder1).blocks@.len(),
            ),
            old(numerator_block_stack)@.len() >= 1,
            self.key.block_wf(old(numerator_block_stack)@.last()),
            (old(numerator_block_stack)@.last().degree as nat) < self.key.size(),
            (pos_in_block as nat) < self.msg_bits(),
            t < pow2(pos_in_block as nat + 1),
            old(numerator_block_stack)@.last().value as nat == t * pow2(
                (self.msg_bits() - 1 - pos_in_block) as nat,
            ),
        ensures
            final(interesting_remainder1).blocks@.len() == old(interesting_remainder1).blocks@.len(),
            self.clean(final(interesting_remainder1).blocks@),
            self.value(final(interesting_remainder1).blocks@) == 2 * self.value(
                old(interesting_remainder1).blocks@,
            ) + t / pow2(pos_in_block as nat),
            t / pow2(pos_in_block as nat) <= 1,
            all_zero(old(interesting_remainder1).blocks@) ==> final(interesting_remainder1).blocks@[0].value
                == t / pow2(pos_in_block as nat) && forall|j: int|
                1 <= j < final(interesting_remainder1).blocks@.len()
                    ==> #[trigger] final(interesting_remainder1).blocks@[j].value == 0,
            pos_in_block == 0 ==> final(numerator_block_stack)@ == old(numerator_block_stack)@.drop_last(),
            pos_in_block != 0 ==> final(numerator_block_stack)@.len() == old(numerator_block_stack)@.len()
                && final(numerator_block_stack)@.drop_last() == old(numerator_block_stack)@.drop_last()
                && self.key.block_wf(final(numerator_block_stack)@.last())
                && (final(numerator_block_stack)@.last().degree as nat) < self.key.size()
                && final(numerator_block_stack)@.last().value as nat == (t % pow2(pos_in_block as nat))
                * pow2((self.msg_bits() - pos_in_block) as nat),
    {
        proof {
            self.lemma_wf();
        }
        let ghost b = self.msg_bits();
        let ghost p = pos_in_block as nat;
        let ghost old_r = interesting_remainder1.blocks@;
        let ghost old_stack = numerator_block_stack@;
        let numerator_block = numerator_block_stack.pop().unwrap();
        proof {
            lemma_top_bit(t, p, b);
            assert(numerator_block == old_stack.last());
        }
        // Prepend the block and then shift.
        interesting_remainder1.blocks.insert(0, numerator_block);
        let ghost ext = interesting_remainder1.blocks@;
        proof {
            assert(ext =~= seq![numerator_block] + old_r);
            crate::radix::lemma_radix_prepend(numerator_block, old_r, self.msg());
            assert forall|i: int| 0 <= i < ext.len() implies self.key.block_wf(#[trigger] ext[i])
                && (ext[i].value as nat) < self.msg() && (ext[i].degree as nat) < self.key.size() by {
                if i > 0 {
                    assert(ext[i] == old_r[i - 1]);
                }
            }
            vstd::arithmetic::power2::lemma2_to64();
            assert(pow2(1) == 2);
        }
        self.unchecked_scalar_left_shift_assign_parallelized(interesting_remainder1, 1);
        let ghost out = interesting_remainder1.blocks@;
        // The block we prepended comes out first: move it to the end and take
        // it back.
        rotate_blocks_left(&mut interesting_remainder1.blocks);
        let numerator_block = interesting_remainder1.blocks.pop().unwrap();
        proof {
            let h = self.msg() / 2;
            vstd::arithmetic::power2::lemma_pow2_unfold(b);
            assert(h == pow2((b - 1) as nat));
            let top = old_stack.last().value as nat;
            let v = self.value(old_r);
            let bit = top / h;
            let m = self.modulus(old_r.len());
            let mm = self.modulus(ext.len());
            assert(mm == self.msg() * m);
            assert(interesting_remainder1.blocks@ =~= out.drop_first());
            assert(numerator_block == out[0]);
            assert(out[0].value == (top % h) * 2);
            vstd::arithmetic::div_mod::lemma_fundamental_div_mod(top as int, h as int);
            let mg = self.msg();
            let lo = top % h;
            let o0 = out[0].value as nat;
            assert(top == h * bit + lo);
            assert(o0 == lo * 2);
            assert(mg == 2 * h);
            assert(2 * top == o0 + mg * bit) by (nonlinear_arith)
                requires
                    top == h * bit + lo,
                    o0 == lo * 2,
                    mg == 2 * h,
            ;
            let ev = self.value(ext);
            assert(ev == top + self.msg() * v);
            assert(2 * ev == out[0].value + self.msg() * (bit + 2 * v)) by (nonlinear_arith)
                requires
                    ev == top + self.msg() * v,
                    2 * top == out[0].value + self.msg() * bit,
            ;
            assert(bit + 2 * v < m);
            assert(out[0].value < self.msg());
            assert(2 * ev < mm) by (nonlinear_arith)
                requires
                    2 * ev == out[0].value + self.msg() * (bit + 2 * v),
                    out[0].value < self.msg(),
                    bit + 2 * v + 1 <= m,
                    mm == self.msg() * m,
            ;
            vstd::arithmetic::div_mod::lemma_small_mod(2 * ev, mm);
            assert(crate::radix_ops::reduced_mul(ev, 2, mm) == 2 * ev);
            let rest = out.drop_first();
            assert(self.value(out) == out[0].value + self.msg() * self.value(rest));
            assert(self.msg() * self.value(rest) == self.msg() * (bit + 2 * v));
            assert(self.value(rest) == bit + 2 * v) by (nonlinear_arith)
                requires
                    self.msg() * self.value(rest) == self.msg() * (bit + 2 * v),
                    self.msg() > 0,
            ;
            assert forall|i: int| 0 <= i < rest.len() implies self.key.block_wf(#[trigger] rest[i])
                && rest[i].degree < rest[i].message_modulus.0 by {
                assert(rest[i] == out[i + 1]);
            }
            assert(bit == t / pow2(p));
            if all_zero(old_r) {
                assert(rest[0].value == crate::radix_ops::shifted_block(ext, 1, self.msg(), 2));
                assert(ext[1] == old_r[0]);
                assert(ext[0].value == top);
                assert(old_r[0].value == 0);
                assert((0nat % h) * 2 == 0);
                assert(rest[0].value == bit);
                assert forall|j: int| 1 <= j < rest.len() implies #[trigger] rest[j].value == 0 by {
                    assert(rest[j] == out[j + 1]);
                    assert(rest[j].value == crate::radix_ops::shifted_block(ext, j + 1, self.msg(), 2));
                    assert(ext[j + 1] == old_r[j]);
                    assert(ext[j] == old_r[j - 1]);
                }
            }
            assert(self.key.block_wf(numerator_block));
        }
        if pos_in_block != 0 {
            // Not all the bits of this numerator block have been read: it is
            // taken again at the next step.
            numerator_block_stack.push(numerator_block);
            proof {
                assert(numerator_block_stack@.drop_last() =~= old_stack.drop_last());
            }
        }
    }
}

/// One step of restoring division: with `prefix = qh * d + r`, shifting in a
/// bit and subtracting `d` when it fits keeps the same relation one bit lower.
pub proof fn lemma_remainder_step(prefix: nat, qh: nat, rv: nat, dv: nat, bitv: nat, k: nat)
    requires
        prefix == qh * dv + rv,
        dv > 0 ==> rv < dv,
        dv == 0 ==> rv == prefix && qh + 1 == pow2(k),
        bitv <= 1,
    ensures
        ({
            let x = 2 * rv + bitv;
            let fits = x >= dv;
            let nq = 2 * qh + (if fits { 1nat } else { 0nat });
            let nr = if fits { (x - dv) as nat } else { x };
            &&& 2 * prefix + bitv == nq * dv + nr
            &&& (dv > 0 ==> nr < dv)
            &&& (dv == 0 ==> nr == 2 * prefix + bitv && nq + 1 == pow2(k + 1))
        }),
{
    let x = 2 * rv + bitv;
    assert((2 * qh + 1) * dv == 2 * (qh * dv) + dv) by (nonlinear_arith);
    assert((2 * qh) * dv == 2 * (qh * dv)) by (nonlinear_arith);
    if dv == 0 {
        vstd::arithmetic::power2::lemma_pow2_unfold(k + 1);
        assert(qh * dv == 0) by (nonlinear_arith)
            requires
                dv == 0,
        ;
    }
}

/// Bits below `2^s`: the remainder overflows the divisor exactly when it is
/// below the divisor's low `s` bits or the divisor has a bit at `s` or above.
pub proof fn lemma_overflow_flag(x: nat, d: nat, s: nat)
    requires
        x < pow2(s),
    ensures
        ((x < d % pow2(s)) || d >= pow2(s)) == (x < d),
        d < pow2(s) ==> d % pow2(s) == d,
{
    vstd::arithmetic::power2::lemma_pow2_pos(s);
    if d < pow2(s) {
        vstd::arithmetic::div_mod::lemma_small_mod(d, pow2(s));
    }
}

/// Reading bit `i` changes the unread bits of its block only.
pub proof fn lemma_unread_bits_step(i: nat, j: nat, b: nat)
    requires
        b > 0,
    ensures
        j == i / b ==> unread_bits(i + 1, j, b) == i % b + 1 && unread_bits(i, j, b) == i % b,
        j != i / b ==> unread_bits(i + 1, j, b) == unread_bits(i, j, b),
{
    vstd::arithmetic::div_mod::lemma_fundamental_div_mod(i as int, b as int);
    let bb = i / b;
    let p = i % b;
    if j == bb {
        assert(j * b == b * bb) by (nonlinear_arith)
            requires
                j == bb,
        ;
    } else if j < bb {
        assert(j * b + b <= b * bb) by (nonlinear_arith)
            requires
                j < bb,
        ;
    } else {
        assert(j * b >= b * bb + b) by (nonlinear_arith)
            requires
                j > bb,
        ;
    }
}

} // verus!
