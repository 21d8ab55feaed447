//! Quotient and remainder of radix integers.
use crate::parallel::{join, par_map};
use crate::radix::{
    all_zero, carries_empty, concat_blocks, copy_block_range, copy_blocks, lemma_pow_nat_positive, lemma_radix_same_values,
    lemma_radix_split, lemma_radix_zero, pow_nat, reverse_blocks, BooleanBlock, IntegerRadixCiphertext,
    RadixCiphertext, SignedRadixCiphertext,
};
use crate::radix_arith::{abs_residue, signed_value, sub_mod};
use crate::radix_ops::bit;
use crate::server_key::{reduced, ServerKey};
use crate::shortint::{bivariate_lut_entry, lut_entry, packed_index, Ciphertext, LookupTable, DEGREE_BOUND};
use vstd::arithmetic::power2::pow2;
use vstd::prelude::*;

verus! {

/// Unsigned quotient of `n` by `d`; all bits set (`m - 1`) when `d` is 0.
pub open spec fn unsigned_quotient(n: nat, d: nat, m: nat) -> nat {
    if d == 0 {
        (m - 1) as nat
    } else {
        n / d
    }
}

/// Unsigned remainder of `n` by `d`; `n` itself when `d` is 0.
pub open spec fn unsigned_remainder(n: nat, d: nat) -> nat {
    if d == 0 {
        n
    } else {
        n % d
    }
}

/// The quotient of `a` by `b` rounded toward zero (`b != 0`).
pub open spec fn trunc_div(a: int, b: int) -> int {
    let q = abs(a) / abs(b);
    if (a < 0) != (b < 0) {
        -q
    } else {
        q
    }
}

/// The absolute value of `a`.
pub open spec fn abs(a: int) -> int {
    if a < 0 {
        -a
    } else {
        a
    }
}

/// Quotient of two's complement integers below `m`, as a value below `m`:
/// rounded toward zero, wrapping for the minimum divided by -1; when the
/// divisor is 0, -1 for a negative numerator and 1 otherwise.
pub open spec fn signed_quotient(n: nat, d: nat, m: nat) -> nat {
    let a = signed_value(n, m);
    let b = signed_value(d, m);
    if b == 0 {
        if a < 0 {
            (m - 1) as nat
        } else {
            1
        }
    } else {
        (trunc_div(a, b) % (m as int)) as nat
    }
}

/// Remainder of two's complement integers below `m`: it has the sign of the
/// numerator; the numerator itself when the divisor is 0.
pub open spec fn signed_remainder(n: nat, d: nat, m: nat) -> nat {
    let a = signed_value(n, m);
    let b = signed_value(d, m);
    if b == 0 {
        n
    } else {
        ((a - b * trunc_div(a, b)) % (m as int)) as nat
    }
}

/// The quotient digit in base 4 of `x` by `d`, when `x < 4 * d`; 3 when `d` is 0.
pub open spec fn radix4_digit(x: nat, d: nat) -> nat {
    if x >= 3 * d {
        3
    } else if x >= 2 * d {
        2
    } else if x >= d {
        1
    } else {
        0
    }
}

/// Quotient of the division rounded toward negative infinity, as a value
/// below `m`: the truncated quotient minus one when the remainder is not 0
/// and its sign differs from the divisor's.
pub open spec fn floor_quotient(n: nat, d: nat, m: nat) -> nat {
    let q = signed_quotient(n, d, m);
    let r = signed_remainder(n, d, m);
    if r != 0 && (r >= m / 2) != (d >= m / 2) {
        sub_mod(q as int, 1, m)
    } else {
        q
    }
}

/// Remainder that goes with `floor_quotient`: the truncated remainder plus
/// the divisor in the same case.
pub open spec fn floor_remainder(n: nat, d: nat, m: nat) -> nat {
    let r = signed_remainder(n, d, m);
    if r != 0 && (r >= m / 2) != (d >= m / 2) {
        (r + d) % m
    } else {
        r
    }
}

/// What signed division gives from the unsigned division of the absolute
/// values: the quotient is negated when exactly one of "the signs differ"
/// and "the divisor is 0" holds, the remainder when the numerator is negative.
pub proof fn lemma_signed_from_unsigned(n: nat, d: nat, m: nat)
    requires
        m >= 2,
        m % 2 == 0,
        n < m,
        d < m,
    ensures
        ({
            let pn = abs_residue(n, m);
            let pd = abs_residue(d, m);
            let qu = unsigned_quotient(pn, pd, m);
            let ru = unsigned_remainder(pn, pd);
            let negate_q = ((n >= m / 2) != (d >= m / 2)) != (d == 0);
            &&& pn < m
            &&& pd < m
            &&& qu < m
            &&& ru < m
            &&& (if negate_q { sub_mod(0, qu as int, m) } else { qu }) == signed_quotient(n, d, m)
            &&& (if n >= m / 2 { sub_mod(0, ru as int, m) } else { ru }) == signed_remainder(n, d, m)
        }),
{
    let a = signed_value(n, m);
    let b = signed_value(d, m);
    let pn = abs_residue(n, m);
    let pd = abs_residue(d, m);
    let mi = m as int;
    if n >= m / 2 {
        vstd::arithmetic::div_mod::lemma_small_mod((m - n) as nat, m);
        assert(pn == m - n);
    }
    if d >= m / 2 {
        vstd::arithmetic::div_mod::lemma_small_mod((m - d) as nat, m);
        assert(pd == m - d);
    }
    assert(pn as int == abs(a));
    assert(pd as int == abs(b));
    assert(pn <= m / 2);
    assert(pd <= m / 2);
    let qu = unsigned_quotient(pn, pd, m);
    let ru = unsigned_remainder(pn, pd);
    if d == 0 {
        assert(b == 0);
        vstd::arithmetic::div_mod::lemma_mod_add_multiples_vanish(1 - mi, mi);
        vstd::arithmetic::div_mod::lemma_small_mod(1, m);
        if n >= m / 2 {
            vstd::arithmetic::div_mod::lemma_mod_add_multiples_vanish(n - mi, mi);
            vstd::arithmetic::div_mod::lemma_small_mod(n, m);
        }
    } else {
        assert(b != 0);
        assert(pd > 0);
        let q = pn / pd;
        vstd::arithmetic::div_mod::lemma_fundamental_div_mod(pn as int, pd as int);
        vstd::arithmetic::div_mod::lemma_div_is_ordered_by_denominator(pn as int, 1, pd as int);
        assert(q <= pn);
        assert(ru < pd);
        vstd::arithmetic::div_mod::lemma_small_mod(q, m);
        vstd::arithmetic::div_mod::lemma_small_mod(ru, m);
        assert(trunc_div(a, b) == (if (a < 0) != (b < 0) { -(q as int) } else { q as int }));
        let t = trunc_div(a, b);
        let pdq = pd * q;
        assert(pn == pdq + ru) by (nonlinear_arith)
            requires
                pn == pd * (pn / pd) + pn % pd,
                q == pn / pd,
                ru == pn % pd,
                pdq == pd * q,
        ;
        if b > 0 {
            assert(b * t == (if a < 0 { -(pdq as int) } else { pdq as int })) by (nonlinear_arith)
                requires
                    b == pd,
                    pdq == pd * q,
                    t == (if a < 0 { -(q as int) } else { q as int }),
            ;
        } else {
            assert(b * t == (if a < 0 { -(pdq as int) } else { pdq as int })) by (nonlinear_arith)
                requires
                    b == -pd,
                    pdq == pd * q,
                    t == (if a < 0 { q as int } else { -(q as int) }),
            ;
        }
        assert(a - b * t == (if a < 0 { -(ru as int) } else { ru as int }));
    }
}

impl ServerKey {
    /// Parameters with two message bits and two carry bits.
    pub open spec fn is_2_2(&self) -> bool {
        self.key.message_modulus.0 == 4 && self.key.carry_modulus.0 == 4
    }

    /// Long division in base 4, one quotient block per step, for keys with
    /// two message bits and two carry bits.
    #[verifier::rlimit(100)]
    #[verifier::spinoff_prover]
    fn unsigned_div_rem_block_by_block_2_2(
        &self,
        numerator: &RadixCiphertext,
        divisor: &RadixCiphertext,
    ) -> (res: (RadixCiphertext, RadixCiphertext))
        requires
            self.wf(),
            self.is_2_2(),
            self.clean(numerator.blocks@),
            self.clean(divisor.blocks@),
            numerator.blocks@.len() == divisor.blocks@.len(),
            numerator.blocks@.len() < usize::MAX,
        ensures
            res.0.blocks@.len() == numerator.blocks@.len(),
            res.1.blocks@.len() == numerator.blocks@.len(),
            self.clean(res.0.blocks@),
            self.clean(res.1.blocks@),
            self.value(res.0.blocks@) == unsigned_quotient(
                self.value(numerator.blocks@),
                self.value(divisor.blocks@),
                self.modulus(numerator.blocks@.len()),
            ),
            self.value(res.1.blocks@) == unsigned_remainder(
                self.value(numerator.blocks@),
                self.value(divisor.blocks@),
            ),
    {
        proof {
            self.lemma_wf();
        }
        let num_blocks = numerator.blocks.len();
        let ghost n = num_blocks as nat;
        let ghost dv = self.value(divisor.blocks@);
        let ghost nv = self.value(numerator.blocks@);
        let mut remainder = RadixCiphertext { blocks: copy_blocks(numerator.blocks.as_slice()) };
        let mut quotient_blocks: Vec<Ciphertext> = Vec::with_capacity(num_blocks);
        let d1 = RadixCiphertext { blocks: copy_blocks(divisor.blocks.as_slice()) };
        proof {
            self.lemma_clean_value_small(divisor.blocks@);
        }
        let make_d2 = || -> (d2: RadixCiphertext)
                requires
                    self.wf(),
                    self.is_2_2(),
                    self.clean(divisor.blocks@),
                    divisor.blocks@.len() < usize::MAX,
                ensures
                    d2.blocks@.len() == divisor.blocks@.len() + 1,
                    self.clean(d2.blocks@),
                    self.value(d2.blocks@) == 2 * self.value(divisor.blocks@),
                {
                    let mut d2 = self.extend_radix_with_trivial_zero_blocks_msb(divisor, 1);
                    proof {
                        vstd::arithmetic::power2::lemma2_to64();
                        self.lemma_msg_bits_unique(2);
                    }
                    self.scalar_left_shift_assign_parallelized(&mut d2, 1);
                    proof {
                        self.lemma_double_fits(divisor.blocks@);
                    }
                    d2
                };
        let make_d3 = move || -> (r: (RadixCiphertext, RadixCiphertext))
                requires
                    self.wf(),
                    self.is_2_2(),
                    self.clean(d1.blocks@),
                    d1.blocks@.len() < usize::MAX,
                ensures
                    r.0.blocks@.len() == d1.blocks@.len() + 1,
                    self.clean(r.0.blocks@),
                    self.value(r.0.blocks@) == 3 * self.value(d1.blocks@),
                    (r.1).blocks@ == d1.blocks@,
                {
                    let mut d1 = d1;
                    let ghost d1_start = d1.blocks@;
                    self.extend_radix_with_trivial_zero_blocks_msb_assign(&mut d1, 1);
                    let mut d4 = self.blockshift(&d1, 1);
                    proof {
                        assert(d1.blocks@.subrange(0, d1.blocks@.len() - 1) == d1_start);
                    }
                    self.sub_assign_parallelized(&mut d4, &d1);
                    proof {
                        self.lemma_triple_fits(d1_start, d1.blocks@, d4.blocks@);
                    }
                    self.trim_radix_blocks_msb_assign(&mut d1, 1);
                    // 4 * d - d = 3 * d
                    (d4, d1)
                };
        let (d2, d3_d1) = join(make_d2, make_d3);
        let (d3, d1) = d3_d1;
        proof {
            assert(d1.blocks@ == divisor.blocks@);
        }
        // Blocks packed as `block * 2 + condition` with the condition in [0, 1]:
        // keeps the block when the condition is 1, gives 0 otherwise.
        let zero_out_if_not_1 = |x: u64| -> (r: u64)
            ensures
                r == (if x % 2 == 1 {
                    x / 2
                } else {
                    0
                }),
            {
                let block = x / 2;
                assert((x & 1) == x % 2) by (bit_vector);
                let condition = (x & 1) == 1;
                if condition {
                    block
                } else {
                    0
                }
            };
        let zero_out_if_not_1_lut = self.key.generate_lookup_table(zero_out_if_not_1);
        // Blocks packed as `block * 3 + condition` with the condition in [0, 1, 2]:
        // keeps the block when the condition is 2, gives 0 otherwise.
        let zero_out_if_not_2 = |x: u64| -> (r: u64)
            ensures
                r == (if x % 3 == 2 {
                    x / 3
                } else {
                    0
                }),
            {
                let block = x / 3;
                let condition = (x % 3) == 2;
                if condition {
                    block
                } else {
                    0
                }
            };
        let zero_out_if_not_2_lut = self.key.generate_lookup_table(zero_out_if_not_2);
        // Quotient blocks from the condition blocks: the divisor fits once
        // (condition 2), twice (condition 2) or three times (condition 1).
        let fits_once = |cond: u64| -> (r: u64)
            ensures
                r == bit(cond == 2),
            {
                if cond == 2 {
                    1
                } else {
                    0
                }
            };
        let fits_twice = |cond: u64| -> (r: u64)
            ensures
                r == bit(cond == 2) * 2,
            {
                if cond == 2 {
                    2
                } else {
                    0
                }
            };
        let fits_three_times = |cond: u64| -> (r: u64)
            requires
                cond < 16,
            ensures
                r == cond * 3,
            { cond * 3 };
        proof {
            let mm = self.key.message_modulus.0 as nat;
            let cm = self.key.carry_modulus.0 as nat;
            assert(mm * cm == 16) by (nonlinear_arith)
                requires
                    mm == 4,
                    cm == 4,
            ;
            assert(self.key.size() == 16);
        }
        let quotient_block_lut_1 = self.key.generate_lookup_table(fits_once);
        let quotient_block_lut_2 = self.key.generate_lookup_table(fits_twice);
        let quotient_block_lut_3 = self.key.generate_lookup_table(fits_three_times);
        proof {
            assert(self.key.size() == 16);
            assert forall|x: u64| x < 16 implies #[trigger] zero_out_if_not_1_lut.table@[x as int] == (if x % 2 == 1 { x / 2 } else { 0 }) by {
                assert(lut_entry(zero_out_if_not_1, x, zero_out_if_not_1_lut.table@[x as int], 16));
                let r = choose|r: u64| #[trigger] zero_out_if_not_1.ensures((x,), r) && zero_out_if_not_1_lut.table@[x as int] as nat == r as nat % 16;
                vstd::arithmetic::div_mod::lemma_small_mod(r as nat, 16);
            }
            assert forall|x: u64| x < 16 implies #[trigger] zero_out_if_not_2_lut.table@[x as int] == (if x % 3 == 2 { x / 3 } else { 0 }) by {
                assert(lut_entry(zero_out_if_not_2, x, zero_out_if_not_2_lut.table@[x as int], 16));
                let r = choose|r: u64| #[trigger] zero_out_if_not_2.ensures((x,), r) && zero_out_if_not_2_lut.table@[x as int] as nat == r as nat % 16;
                vstd::arithmetic::div_mod::lemma_small_mod(r as nat, 16);
            }
            assert forall|x: u64| x < 16 implies #[trigger] quotient_block_lut_1.table@[x as int] == bit(x == 2) by {
                assert(lut_entry(fits_once, x, quotient_block_lut_1.table@[x as int], 16));
                let r = choose|r: u64| #[trigger] fits_once.ensures((x,), r) && quotient_block_lut_1.table@[x as int] as nat == r as nat % 16;
                vstd::arithmetic::div_mod::lemma_small_mod(r as nat, 16);
            }
            assert forall|x: u64| x < 16 implies #[trigger] quotient_block_lut_2.table@[x as int] == bit(x == 2) * 2 by {
                assert(lut_entry(fits_twice, x, quotient_block_lut_2.table@[x as int], 16));
                let r = choose|r: u64| #[trigger] fits_twice.ensures((x,), r) && quotient_block_lut_2.table@[x as int] as nat == r as nat % 16;
                vstd::arithmetic::div_mod::lemma_small_mod(r as nat, 16);
            }
            assert forall|x: u64| x < 16 implies #[trigger] quotient_block_lut_3.table@[x as int] == (x * 3) % 16 by {
                assert(lut_entry(fits_three_times, x, quotient_block_lut_3.table@[x as int], 16));
                let r = choose|r: u64| #[trigger] fits_three_times.ensures((x,), r) && quotient_block_lut_3.table@[x as int] as nat == r as nat % 16;
            }
        }
        let ghost zl1 = zero_out_if_not_1_lut.table@;
        let ghost zl2 = zero_out_if_not_2_lut.table@;
        proof {
            assert(remainder.blocks@.subrange(num_blocks as int, num_blocks as int).len() == 0);
            assert(numerator.blocks@.subrange(num_blocks as int, num_blocks as int).len() == 0);
            assert(quotient_blocks@.reverse() =~= Seq::<Ciphertext>::empty());
            assert(remainder.blocks@.subrange(0, num_blocks as int) =~= numerator.blocks@);
            assert(numerator.blocks@.subrange(0, num_blocks as int) =~= numerator.blocks@);
            assert(pow_nat(4, 0) == 1);
            assert(0 * dv == 0) by (nonlinear_arith);
        }
        let mut block_index = num_blocks;
        while block_index > 0
            invariant
                self.wf(),
                self.is_2_2(),
                self.key.size() == 16,
                self.msg() == 4,
                num_blocks as nat == n,
                n == numerator.blocks@.len(),
                n == divisor.blocks@.len(),
                n < usize::MAX,
                block_index <= num_blocks,
                self.clean(numerator.blocks@),
                self.clean(divisor.blocks@),
                dv == self.value(divisor.blocks@),
                d1.blocks@ == divisor.blocks@,
                d2.blocks@.len() == n + 1,
                self.clean(d2.blocks@),
                self.value(d2.blocks@) == 2 * dv,
                d3.blocks@.len() == n + 1,
                self.clean(d3.blocks@),
                self.value(d3.blocks@) == 3 * dv,
                self.key.lut_wf(&zero_out_if_not_1_lut),
                self.key.lut_wf(&zero_out_if_not_2_lut),
                self.key.lut_wf(&quotient_block_lut_1),
                self.key.lut_wf(&quotient_block_lut_2),
                self.key.lut_wf(&quotient_block_lut_3),
                zl1 == zero_out_if_not_1_lut.table@,
                zl2 == zero_out_if_not_2_lut.table@,
                forall|x: u64| x < 16 ==> #[trigger] zl1[x as int] == (if x % 2 == 1 { x / 2 } else { 0 }),
                forall|x: u64| x < 16 ==> #[trigger] zl2[x as int] == (if x % 3 == 2 { x / 3 } else { 0 }),
                forall|x: u64| x < 16 ==> #[trigger] quotient_block_lut_1.table@[x as int] == bit(x == 2),
                forall|x: u64| x < 16 ==> #[trigger] quotient_block_lut_2.table@[x as int] == bit(x == 2) * 2,
                forall|x: u64| x < 16 ==> #[trigger] quotient_block_lut_3.table@[x as int] == (x * 3) % 16,
                remainder.blocks@.len() == n,
                self.clean(remainder.blocks@),
                remainder.blocks@.subrange(0, block_index as int) == numerator.blocks@.subrange(0, block_index as int),
                quotient_blocks@.len() == n - block_index,
                self.clean(quotient_blocks@),
                self.value(numerator.blocks@.subrange(block_index as int, n as int))
                    == self.value(quotient_blocks@.reverse()) * dv
                    + self.value(remainder.blocks@.subrange(block_index as int, n as int)),
                dv > 0 ==> self.value(remainder.blocks@.subrange(block_index as int, n as int)) < dv,
                dv == 0 ==> self.value(remainder.blocks@.subrange(block_index as int, n as int))
                    == self.value(numerator.blocks@.subrange(block_index as int, n as int))
                    && self.value(quotient_blocks@.reverse()) + 1 == pow_nat(4, (n - block_index) as nat),
            decreases block_index,
        {
            block_index = block_index - 1;
            let len = num_blocks - block_index;
            let low1 = RadixCiphertext::from(copy_block_range(d1.blocks.as_slice(), 0, len));
            let low2 = RadixCiphertext::from(copy_block_range(d2.blocks.as_slice(), 0, len));
            let low3 = RadixCiphertext::from(copy_block_range(d3.blocks.as_slice(), 0, len));
            let rem = RadixCiphertext::from(
                copy_block_range(remainder.blocks.as_slice(), block_index, num_blocks),
            );
            let ghost x = self.value(rem.blocks@);
            proof {
                self.lemma_clean_subrange(d1.blocks@, 0, len as int);
                self.lemma_clean_subrange(d2.blocks@, 0, len as int);
                self.lemma_clean_subrange(d3.blocks@, 0, len as int);
                self.lemma_clean_subrange(remainder.blocks@, block_index as int, n as int);
                self.lemma_clean_value_small(rem.blocks@);
                self.lemma_clean_value_small(low1.blocks@);
                self.lemma_clean_value_small(low2.blocks@);
                self.lemma_clean_value_small(low3.blocks@);
            }
            // The three subtractions and the tests of the divisors' high
            // blocks, in parallel.
            let subtract_candidates = || -> (r: (
                (RadixCiphertext, BooleanBlock),
                (RadixCiphertext, BooleanBlock),
                (RadixCiphertext, BooleanBlock),
            ))
                requires
                    self.wf(),
                    self.blocks_wf(rem.blocks@),
                    self.blocks_wf(low3.blocks@),
                    self.blocks_wf(low2.blocks@),
                    self.blocks_wf(low1.blocks@),
                    rem.blocks@.len() == low3.blocks@.len(),
                    rem.blocks@.len() == low2.blocks@.len(),
                    rem.blocks@.len() == low1.blocks@.len(),
                ensures
                    self.is_overflowing_sub(rem.blocks@, low3.blocks@, r.0),
                    self.is_overflowing_sub(rem.blocks@, low2.blocks@, r.1),
                    self.is_overflowing_sub(rem.blocks@, low1.blocks@, r.2),
                {
                    (
                        self.unsigned_overflowing_sub_parallelized(&rem, &low3),
                        self.unsigned_overflowing_sub_parallelized(&rem, &low2),
                        self.unsigned_overflowing_sub_parallelized(&rem, &low1),
                    )
                };
            let d3_ref = &d3;
            let d2_ref = &d2;
            let d1_ref = &d1;
            let test_high_blocks = move || -> (r: (BooleanBlock, BooleanBlock, BooleanBlock))
                requires
                    self.wf(),
                    len <= num_blocks,
                    d3_ref.blocks@.len() == num_blocks + 1,
                    d2_ref.blocks@.len() == num_blocks + 1,
                    d1_ref.blocks@.len() == num_blocks,
                    num_blocks < usize::MAX,
                ensures
                    self.boolean_wf(r.0.0),
                    r.0.0.value == bit(!all_zero(d3_ref.blocks@.subrange(len as int, num_blocks + 1))),
                    self.boolean_wf(r.1.0),
                    r.1.0.value == bit(!all_zero(d2_ref.blocks@.subrange(len as int, num_blocks + 1))),
                    self.boolean_wf(r.2.0),
                    r.2.0.value == bit(!all_zero(d1_ref.blocks@.subrange(len as int, num_blocks as int))),
                {
                    let high3 = copy_block_range(d3_ref.blocks.as_slice(), len, num_blocks + 1);
                    let high2 = copy_block_range(d2_ref.blocks.as_slice(), len, num_blocks + 1);
                    let high1 = copy_block_range(d1_ref.blocks.as_slice(), len, num_blocks);
                    let mut upper3 = BooleanBlock::new_unchecked(self.are_all_blocks_zero(high3.as_slice()));
                    self.boolean_bitnot_assign(&mut upper3);
                    let mut upper2 = BooleanBlock::new_unchecked(self.are_all_blocks_zero(high2.as_slice()));
                    self.boolean_bitnot_assign(&mut upper2);
                    let mut upper1 = BooleanBlock::new_unchecked(self.are_all_blocks_zero(high1.as_slice()));
                    self.boolean_bitnot_assign(&mut upper1);
                    (upper3, upper2, upper1)
                };
            let (sub_results, high_tests) = join(subtract_candidates, test_high_blocks);
            let ((r3, mut o3), (r2, mut o2), (r1, mut o1)) = sub_results;
            let (upper3, upper2, upper1) = high_tests;
            self.boolean_bitor_assign(&mut o3, &upper3);
            self.boolean_bitor_assign(&mut o2, &upper2);
            self.boolean_bitor_assign(&mut o1, &upper1);
            let ghost f3 = x < 3 * dv;
            let ghost f2 = x < 2 * dv;
            let ghost f1 = x < dv;
            proof {
                self.lemma_2_2_flag(d3.blocks@, len as int, x, 3 * dv);
                self.lemma_2_2_flag(d2.blocks@, len as int, x, 2 * dv);
                self.lemma_2_2_flag(d1.blocks@, len as int, x, dv);
                assert(num_blocks + 1 == (n + 1) as int);
                assert(o3.0.value == bit(f3));
                assert(o2.0.value == bit(f2));
                assert(o1.0.value == bit(f1));
            }
            // For c3 and c0 the blocks hold 0 or 1; for c2 and c1 they hold
            // 0, 1 or 2, and only 2 means true.
            let c3 = self.boolean_bitnot(&o3).0;
            let mut c2 = self.boolean_bitnot(&o2).0;
            self.key.unchecked_add_assign(&mut c2, &o3.0);
            let mut c1 = self.boolean_bitnot(&o1).0;
            self.key.unchecked_add_assign(&mut c1, &o2.0);
            let c0 = o1.0;
            proof {
                assert forall|i: int| 0 <= i < r3.blocks@.len() implies (#[trigger] r3.blocks@[i].value * 2 + c3.value) < self.key.size() && r3.blocks@[i].degree * 2 + c3.degree <= DEGREE_BOUND by {
                    assert(self.key.block_wf(r3.blocks@[i]) && r3.blocks@[i].degree < 4);
                }
                assert forall|i: int| 0 <= i < r2.blocks@.len() implies (#[trigger] r2.blocks@[i].value * 3 + c2.value) < self.key.size() && r2.blocks@[i].degree * 3 + c2.degree <= DEGREE_BOUND by {
                    assert(self.key.block_wf(r2.blocks@[i]) && r2.blocks@[i].degree < 4);
                }
                assert forall|i: int| 0 <= i < r1.blocks@.len() implies (#[trigger] r1.blocks@[i].value * 3 + c1.value) < self.key.size() && r1.blocks@[i].degree * 3 + c1.degree <= DEGREE_BOUND by {
                    assert(self.key.block_wf(r1.blocks@[i]) && r1.blocks@[i].degree < 4);
                }
                assert forall|i: int| 0 <= i < rem.blocks@.len() implies (#[trigger] rem.blocks@[i].value * 2 + c0.value) < self.key.size() && rem.blocks@[i].degree * 2 + c0.degree <= DEGREE_BOUND by {
                    assert(self.key.block_wf(rem.blocks@[i]) && rem.blocks@[i].degree < 4);
                }
            }
            let ghost r3_before = r3.blocks@;
            let ghost r2_before = r2.blocks@;
            let ghost r1_before = r1.blocks@;
            let ghost rem_before = rem.blocks@;
            // Zeroing by hand keeps the noise low; the quotient block
            // candidates are computed at the same time.
            let lut_1 = &zero_out_if_not_1_lut;
            let lut_2 = &zero_out_if_not_2_lut;
            let zero_out_candidates = move || -> (r: (RadixCiphertext, RadixCiphertext, RadixCiphertext, RadixCiphertext))
                requires
                    self.wf(),
                    self.zero_out_ready(r3.blocks@, c3, *lut_1, 2u8),
                    self.zero_out_ready(r2.blocks@, c2, *lut_2, 3u8),
                    self.zero_out_ready(r1.blocks@, c1, *lut_2, 3u8),
                    self.zero_out_ready(rem.blocks@, c0, *lut_1, 2u8),
                ensures
                    self.is_zeroed_out(r3_before, r.0.blocks@, c3, *lut_1, 2u8),
                    self.is_zeroed_out(r2_before, r.1.blocks@, c2, *lut_2, 3u8),
                    self.is_zeroed_out(r1_before, r.2.blocks@, c1, *lut_2, 3u8),
                    self.is_zeroed_out(rem_before, r.3.blocks@, c0, *lut_1, 2u8),
                {
                    let mut r3 = r3;
                    let mut r2 = r2;
                    let mut r1 = r1;
                    let mut rem = rem;
                    self.zero_out_if_not(&mut r3, &c3, lut_1, 2u8);
                    self.zero_out_if_not(&mut r2, &c2, lut_2, 3u8);
                    self.zero_out_if_not(&mut r1, &c1, lut_2, 3u8);
                    self.zero_out_if_not(&mut rem, &c0, lut_1, 2u8);
                    (r3, r2, r1, rem)
                };
            let quotient_lut_1 = &quotient_block_lut_1;
            let quotient_lut_2 = &quotient_block_lut_2;
            let quotient_lut_3 = &quotient_block_lut_3;
            let quotient_candidates = move || -> (r: (Ciphertext, Ciphertext, Ciphertext))
                requires
                    self.wf(),
                    self.key.block_wf(c1),
                    self.key.block_wf(c2),
                    self.key.block_wf(c3),
                    self.key.lut_wf(quotient_lut_1),
                    self.key.lut_wf(quotient_lut_2),
                    self.key.lut_wf(quotient_lut_3),
                ensures
                    self.key.block_wf(r.0),
                    r.0.value == quotient_lut_1.table@[c1.value as int],
                    r.0.degree == quotient_lut_1.degree,
                    self.key.block_wf(r.1),
                    r.1.value == quotient_lut_2.table@[c2.value as int],
                    r.1.degree == quotient_lut_2.degree,
                    self.key.block_wf(r.2),
                    r.2.value == quotient_lut_3.table@[c3.value as int],
                    r.2.degree == quotient_lut_3.degree,
                {
                    (
                        self.key.apply_lookup_table(&c1, quotient_lut_1),
                        self.key.apply_lookup_table(&c2, quotient_lut_2),
                        self.key.apply_lookup_table(&c3, quotient_lut_3),
                    )
                };
            let (zeroed, quotient_candidates_blocks) = join(zero_out_candidates, quotient_candidates);
            let (r3, r2, r1, mut rem) = zeroed;
            let (q1, q2, q3) = quotient_candidates_blocks;
            let ghost keep3 = !f3;
            let ghost keep2 = !f2 && f3;
            let ghost keep1 = !f1 && f2;
            let ghost keep0 = f1;
            proof {
                self.lemma_zeroed_by_factor_2(r3_before, r3.blocks@, c3.value, keep3, zl1);
                self.lemma_zeroed_by_factor_3(r2_before, r2.blocks@, c2.value, keep2, zl2);
                self.lemma_zeroed_by_factor_3(r1_before, r1.blocks@, c1.value, keep1, zl2);
                self.lemma_zeroed_by_factor_2(rem_before, rem.blocks@, c0.value, keep0, zl1);
                self.key.lemma_lut_degree_bound(&zero_out_if_not_1_lut);
                self.key.lemma_lut_degree_bound(&zero_out_if_not_2_lut);
                self.key.lemma_lut_degree_bound(&quotient_block_lut_1);
                self.key.lemma_lut_degree_bound(&quotient_block_lut_2);
                self.key.lemma_lut_degree_bound(&quotient_block_lut_3);
            }
            let ghost r3z = r3.blocks@;
            let ghost r2z = r2.blocks@;
            let ghost r1z = r1.blocks@;
            let ghost remz = rem.blocks@;
            // Only one of rem, r1, r2 and r3 is not zero.
            self.unchecked_add_assign(&mut rem, &r3);
            self.unchecked_add_assign(&mut rem, &r2);
            self.unchecked_add_assign(&mut rem, &r1);
            // Only one of q1, q2 and q3 is not zero.
            let mut q = q1;
            self.key.unchecked_add_assign(&mut q, &q2);
            self.key.unchecked_add_assign(&mut q, &q3);
            let ghost rem_sum = rem.blocks@;
            let ghost q_sum = q;
            let extract_remainder = move || -> (r: RadixCiphertext)
                requires
                    self.wf(),
                    self.blocks_wf(rem.blocks@),
                ensures
                    r.blocks@.len() == rem_sum.len(),
                    self.clean(r.blocks@),
                    forall|i: int|
                        0 <= i < r.blocks@.len() ==> #[trigger] r.blocks@[i].value == rem_sum[i].value
                            % self.key.message_modulus.0,
                {
                    let mut rem = rem;
                    self.message_extract_blocks(&mut rem);
                    rem
                };
            let extract_quotient = move || -> (r: Ciphertext)
                requires
                    self.wf(),
                    self.key.block_wf(q),
                ensures
                    self.key.block_wf(r),
                    r.value == q_sum.value % self.key.message_modulus.0,
                    r.degree < self.key.message_modulus.0,
                { self.key.message_extract(&q) };
            let (rem, q) = join(extract_remainder, extract_quotient);
            let ghost digit: nat = if keep3 { 3 } else if keep2 { 2 } else if keep1 { 1 } else { 0 };
            proof {
                assert(q.value == digit);
                let kept = if keep3 {
                    r3_before
                } else if keep2 {
                    r2_before
                } else if keep1 {
                    r1_before
                } else {
                    rem_before
                };
                assert forall|i: int| 0 <= i < rem.blocks@.len() implies #[trigger] rem.blocks@[i].value == kept[i].value by {
                    assert(rem_sum[i].value == remz[i].value + r3z[i].value + r2z[i].value + r1z[i].value);
                    assert(self.key.block_wf(kept[i]) && kept[i].degree < 4);
                }
                lemma_radix_same_values(rem.blocks@, kept, self.msg());
                self.lemma_kept_value(x, dv, digit, kept, low1.blocks@, low2.blocks@, low3.blocks@,
                    r1_before, r2_before, r3_before, rem_before, d1.blocks@, d2.blocks@, d3.blocks@, len as int);
            }
            let ghost old_quotient = quotient_blocks@;
            let ghost old_remainder = remainder.blocks@;
            let new_blocks = concat_blocks(
                copy_block_range(remainder.blocks.as_slice(), 0, block_index),
                rem.blocks.as_slice(),
            );
            remainder = RadixCiphertext { blocks: new_blocks };
            quotient_blocks.push(q);
            proof {
                self.lemma_2_2_invariant(
                    numerator.blocks@, old_remainder, remainder.blocks@, old_quotient,
                    quotient_blocks@, rem_before, rem.blocks@, q, block_index as int, dv, x, digit,
                );
            }
        }
        let quotient = reverse_blocks(quotient_blocks);
        proof {
            assert(numerator.blocks@.subrange(0, n as int) =~= numerator.blocks@);
            assert(remainder.blocks@.subrange(0, n as int) =~= remainder.blocks@);
            let qv = self.value(quotient@);
            let rv = self.value(remainder.blocks@);
            assert forall|i: int| 0 <= i < quotient@.len() implies self.key.block_wf(#[trigger] quotient@[i]) && quotient@[i].degree < quotient@[i].message_modulus.0 by {
                assert(quotient@[i] == quotient_blocks@[quotient_blocks@.len() - 1 - i]);
            }
            if dv > 0 {
                vstd::arithmetic::div_mod::lemma_fundamental_div_mod_converse(
                    nv as int,
                    dv as int,
                    qv as int,
                    rv as int,
                );
            }
        }
        (RadixCiphertext { blocks: quotient }, remainder)
    }

    /// Twice a value of `n` clean blocks fits in `n + 1` blocks.
    proof fn lemma_double_fits(&self, s: Seq<Ciphertext>)
        requires
            self.wf(),
            self.clean(s),
        ensures
            crate::radix_ops::reduced_mul(
                self.value(s),
                vstd::arithmetic::power2::pow2(1),
                self.modulus(s.len() + 1),
            ) == 2 * self.value(s),
    {
        self.lemma_clean_value_small(s);
        vstd::arithmetic::power2::lemma2_to64();
        let p = self.modulus(s.len());
        assert(self.modulus(s.len() + 1) == self.msg() * p);
        assert(2 * self.value(s) < self.msg() * p) by (nonlinear_arith)
            requires
                self.value(s) < p,
                self.msg() >= 2,
        ;
        vstd::arithmetic::div_mod::lemma_small_mod(2 * self.value(s), self.msg() * p);
    }

    /// Four times a value, minus that value, computed in `n + 1` blocks.
    proof fn lemma_triple_fits(&self, d: Seq<Ciphertext>, ext: Seq<Ciphertext>, d4: Seq<Ciphertext>)
        requires
            self.wf(),
            self.is_2_2(),
            self.clean(d),
            ext.len() == d.len() + 1,
            ext.subrange(0, ext.len() - 1) == d,
            self.value(ext) == self.value(d),
            self.value(d4) == sub_mod(
                reduced(self.modulus(1) * self.value(d), self.msg(), ext.len()) as int,
                reduced(self.value(ext), self.msg(), ext.len()) as int,
                self.modulus(ext.len()),
            ),
        ensures
            self.value(d4) == 3 * self.value(d),
    {
        self.lemma_clean_value_small(d);
        let v = self.value(d);
        let p = self.modulus(d.len());
        let m = self.modulus(ext.len());
        assert(m == 4 * p);
        assert(self.modulus(1) == 4 * pow_nat(4, 0));
        assert(self.modulus(1) == 4);
        assert(4 * v < m) by (nonlinear_arith)
            requires
                v < p,
                m == 4 * p,
        ;
        vstd::arithmetic::div_mod::lemma_small_mod(4 * v, m);
        vstd::arithmetic::div_mod::lemma_small_mod(v, m);
        vstd::arithmetic::div_mod::lemma_small_mod(3 * v, m);
        assert(reduced(self.modulus(1) * v, self.msg(), ext.len()) == 4 * v);
        assert(reduced(self.value(ext), self.msg(), ext.len()) == v);
        assert((4 * v) as int - v as int == (3 * v) as int) by (nonlinear_arith);
        assert((3 * v) as int % (m as int) == 3 * v);
    }

    /// The exponent of the message modulus is unique.
    pub proof fn lemma_msg_bits_unique(&self, b: nat)
        requires
            self.wf(),
            vstd::arithmetic::power2::pow2(b) == self.msg(),
        ensures
            self.msg_bits() == b,
    {
        self.lemma_wf();
        if b < self.msg_bits() {
            vstd::arithmetic::power2::lemma_pow2_strictly_increases(b, self.msg_bits());
        } else if b > self.msg_bits() {
            vstd::arithmetic::power2::lemma_pow2_strictly_increases(self.msg_bits(), b);
        }
    }

    /// Evaluates, block by block, a table on `block * factor + condition`:
    /// with the tables used here, the block is kept or replaced by 0
    /// depending on the condition.
    fn zero_out_if_not(&self, rx: &mut RadixCiphertext, cx: &Ciphertext, lut: &LookupTable, factor: u8)
        requires
            self.wf(),
            self.blocks_wf(old(rx).blocks@),
            self.key.block_wf(*cx),
            self.key.lut_wf(lut),
            forall|i: int|
                0 <= i < old(rx).blocks@.len() ==> (#[trigger] old(rx).blocks@[i].value * factor
                    + cx.value) < self.key.size() && old(rx).blocks@[i].degree * factor + cx.degree
                    <= DEGREE_BOUND,
        ensures
            final(rx).blocks@.len() == old(rx).blocks@.len(),
            self.blocks_wf(final(rx).blocks@),
            forall|i: int|
                0 <= i < final(rx).blocks@.len() ==> #[trigger] final(rx).blocks@[i].value
                    == lut.table@[old(rx).blocks@[i].value * factor + cx.value]
                    && final(rx).blocks@[i].degree == lut.degree,
    {
        let zero_out = |block: &Ciphertext| -> (r: Ciphertext)
            requires
                self.wf(),
                self.key.block_wf(*block),
                self.key.block_wf(*cx),
                self.key.lut_wf(lut),
                block.value * factor + cx.value < self.key.size(),
                block.degree * factor + cx.degree <= DEGREE_BOUND,
            ensures
                self.key.block_wf(r),
                r.value == lut.table@[block.value * factor + cx.value],
                r.degree == lut.degree,
            {
                let mut b = *block;
                self.key.unchecked_scalar_mul_assign(&mut b, factor);
                self.key.unchecked_add_assign(&mut b, cx);
                self.key.apply_lookup_table_assign(&mut b, lut);
                b
            };
        let ghost before = rx.blocks@;
        proof {
            assert forall|i: int| 0 <= i < before.len() implies zero_out.requires((&before[i],)) by {
                assert(self.key.block_wf(before[i]));
            }
        }
        let blocks = par_map(rx.blocks.as_slice(), zero_out);
        proof {
            assert forall|i: int| 0 <= i < blocks@.len() implies self.key.block_wf(#[trigger] blocks@[i])
                && blocks@[i].value == lut.table@[before[i].value * factor + cx.value]
                && blocks@[i].degree == lut.degree by {
                assert(zero_out.ensures((&before[i],), blocks@[i]));
            }
        }
        rx.blocks = blocks;
    }

    /// Keeps the message part of every block.
    fn message_extract_blocks(&self, ct: &mut RadixCiphertext)
        requires
            self.wf(),
            self.blocks_wf(old(ct).blocks@),
        ensures
            final(ct).blocks@.len() == old(ct).blocks@.len(),
            self.clean(final(ct).blocks@),
            forall|i: int|
                0 <= i < final(ct).blocks@.len() ==> #[trigger] final(ct).blocks@[i].value
                    == old(ct).blocks@[i].value % self.key.message_modulus.0,
    {
        let extract = |block: &Ciphertext| -> (r: Ciphertext)
            requires
                self.wf(),
                self.key.block_wf(*block),
            ensures
                self.key.block_wf(r),
                r.value == block.value % self.key.message_modulus.0,
                r.degree < self.key.message_modulus.0,
            { self.key.message_extract(block) };
        let ghost before = ct.blocks@;
        let blocks = par_map(ct.blocks.as_slice(), extract);
        proof {
            assert forall|i: int| 0 <= i < blocks@.len() implies self.key.block_wf(#[trigger] blocks@[i])
                && blocks@[i].degree < blocks@[i].message_modulus.0 && blocks@[i].value
                == before[i].value % self.key.message_modulus.0 by {
                assert(extract.ensures((&before[i],), blocks@[i]));
            }
        }
        ct.blocks = blocks;
    }

    /// Contiguous blocks of clean blocks are clean.
    pub proof fn lemma_clean_subrange(&self, s: Seq<Ciphertext>, a: int, b: int)
        requires
            self.clean(s),
            0 <= a <= b <= s.len(),
        ensures
            self.clean(s.subrange(a, b)),
    {
        let t = s.subrange(a, b);
        assert forall|i: int| 0 <= i < t.len() implies self.key.block_wf(#[trigger] t[i]) && t[i].degree < t[i].message_modulus.0 by {
            assert(t[i] == s[a + i]);
        }
    }

    /// How the outcome of subtracting the low blocks of `d`, together with
    /// a test of its high blocks, compares `x` with the whole of `d`.
    proof fn lemma_2_2_flag(&self, d: Seq<Ciphertext>, len: int, x: nat, v: nat)
        requires
            self.wf(),
            self.clean(d),
            self.value(d) == v,
            0 < len <= d.len(),
            x < self.modulus(len as nat),
        ensures
            (x < self.value(d.subrange(0, len)) || !all_zero(d.subrange(len, d.len() as int))) == (x < v),
            all_zero(d.subrange(len, d.len() as int)) ==> self.value(d.subrange(0, len)) == v,
    {
        self.lemma_wf();
        lemma_radix_split(d, self.msg(), len);
        let low = d.subrange(0, len);
        let high = d.subrange(len, d.len() as int);
        lemma_radix_zero(high, self.msg());
        self.lemma_clean_subrange(d, 0, len);
        self.lemma_clean_value_small(low);
        let p = self.modulus(len as nat);
        let hv = self.value(high);
        if hv > 0 {
            assert(p * hv >= p) by (nonlinear_arith)
                requires
                    hv >= 1,
                    p >= 0,
            ;
        } else {
            assert(p * hv == 0) by (nonlinear_arith)
                requires
                    hv == 0,
            ;
        }
    }

    /// The table that keeps `block` for condition 1 in `block * 2 + condition`.
    proof fn lemma_zeroed_by_factor_2(
        &self,
        before: Seq<Ciphertext>,
        after: Seq<Ciphertext>,
        c: u64,
        keep: bool,
        table: Seq<u64>,
    )
        requires
            self.wf(),
            self.is_2_2(),
            self.clean(before),
            c <= 1,
            keep == (c == 1),
            after.len() == before.len(),
            forall|x: u64| x < 16 ==> #[trigger] table[x as int] == (if x % 2 == 1 { x / 2 } else { 0 }),
            forall|i: int| 0 <= i < after.len() ==> #[trigger] after[i].value == table[before[i].value * 2 + c],
        ensures
            forall|i: int| 0 <= i < after.len() ==> #[trigger] after[i].value == (if keep { before[i].value } else { 0 }),
    {
        assert forall|i: int| 0 <= i < after.len() implies #[trigger] after[i].value == (if keep { before[i].value } else { 0 }) by {
            assert(self.key.block_wf(before[i]) && before[i].degree < 4);
            let b = before[i].value;
            let y = (b * 2 + c) as u64;
            assert(y < 16);
            assert(table[y as int] == (if y % 2 == 1 { y / 2 } else { 0 }));
            assert(y % 2 == c && y / 2 == b) by {
                vstd::arithmetic::div_mod::lemma_fundamental_div_mod_converse(y as int, 2, b as int, c as int);
            }
        }
    }

    /// The table that keeps `block` for condition 2 in `block * 3 + condition`.
    proof fn lemma_zeroed_by_factor_3(
        &self,
        before: Seq<Ciphertext>,
        after: Seq<Ciphertext>,
        c: u64,
        keep: bool,
        table: Seq<u64>,
    )
        requires
            self.wf(),
            self.is_2_2(),
            self.clean(before),
            c <= 2,
            keep == (c == 2),
            after.len() == before.len(),
            forall|x: u64| x < 16 ==> #[trigger] table[x as int] == (if x % 3 == 2 { x / 3 } else { 0 }),
            forall|i: int| 0 <= i < after.len() ==> #[trigger] after[i].value == table[before[i].value * 3 + c],
        ensures
            forall|i: int| 0 <= i < after.len() ==> #[trigger] after[i].value == (if keep { before[i].value } else { 0 }),
    {
        assert forall|i: int| 0 <= i < after.len() implies #[trigger] after[i].value == (if keep { before[i].value } else { 0 }) by {
            assert(self.key.block_wf(before[i]) && before[i].degree < 4);
            let b = before[i].value;
            let y = (b * 3 + c) as u64;
            assert(y < 16);
            assert(table[y as int] == (if y % 3 == 2 { y / 3 } else { 0 }));
            assert(y % 3 == c && y / 3 == b) by {
                vstd::arithmetic::div_mod::lemma_fundamental_div_mod_converse(y as int, 3, b as int, c as int);
            }
        }
    }

    /// The kept candidate holds `x - digit * d`.
    proof fn lemma_kept_value(
        &self,
        x: nat,
        dv: nat,
        digit: nat,
        kept: Seq<Ciphertext>,
        low1: Seq<Ciphertext>,
        low2: Seq<Ciphertext>,
        low3: Seq<Ciphertext>,
        r1: Seq<Ciphertext>,
        r2: Seq<Ciphertext>,
        r3: Seq<Ciphertext>,
        rem: Seq<Ciphertext>,
        d1: Seq<Ciphertext>,
        d2: Seq<Ciphertext>,
        d3: Seq<Ciphertext>,
        len: int,
    )
        requires
            self.wf(),
            x == self.value(rem),
            rem.len() == len,
            x < self.modulus(len as nat),
            digit == radix4_digit(x, dv),
            kept == (if digit == 3 { r3 } else if digit == 2 { r2 } else if digit == 1 { r1 } else { rem }),
            low1 == d1.subrange(0, len),
            low2 == d2.subrange(0, len),
            low3 == d3.subrange(0, len),
            all_zero(d1.subrange(len, d1.len() as int)) ==> self.value(low1) == dv,
            all_zero(d2.subrange(len, d2.len() as int)) ==> self.value(low2) == 2 * dv,
            all_zero(d3.subrange(len, d3.len() as int)) ==> self.value(low3) == 3 * dv,
            (x < self.value(low1) || !all_zero(d1.subrange(len, d1.len() as int))) == (x < dv),
            (x < self.value(low2) || !all_zero(d2.subrange(len, d2.len() as int))) == (x < 2 * dv),
            (x < self.value(low3) || !all_zero(d3.subrange(len, d3.len() as int))) == (x < 3 * dv),
            self.value(r1) == sub_mod(x as int, self.value(low1) as int, self.modulus(len as nat)),
            self.value(r2) == sub_mod(x as int, self.value(low2) as int, self.modulus(len as nat)),
            self.value(r3) == sub_mod(x as int, self.value(low3) as int, self.modulus(len as nat)),
        ensures
            self.value(kept) == x - digit * dv,
    {
        let m = self.modulus(len as nat) as int;
        if digit == 3 {
            vstd::arithmetic::div_mod::lemma_small_mod((x - 3 * dv) as nat, m as nat);
        } else if digit == 2 {
            vstd::arithmetic::div_mod::lemma_small_mod((x - 2 * dv) as nat, m as nat);
        } else if digit == 1 {
            vstd::arithmetic::div_mod::lemma_small_mod((x - dv) as nat, m as nat);
        }
    }

    /// One step of the base-4 long division keeps the loop's invariant.
    proof fn lemma_2_2_invariant(
        &self,
        num: Seq<Ciphertext>,
        old_rem: Seq<Ciphertext>,
        new_rem: Seq<Ciphertext>,
        old_q: Seq<Ciphertext>,
        new_q: Seq<Ciphertext>,
        rem_before: Seq<Ciphertext>,
        rem_final: Seq<Ciphertext>,
        q: Ciphertext,
        bi: int,
        dv: nat,
        x: nat,
        digit: nat,
    )
        requires
            self.wf(),
            self.msg() == 4,
            0 <= bi < num.len(),
            old_rem.len() == num.len(),
            self.clean(num),
            self.clean(old_rem),
            self.clean(rem_final),
            self.clean(old_q),
            self.key.block_wf(q),
            q.degree < 4,
            old_rem.subrange(0, bi + 1) == num.subrange(0, bi + 1),
            rem_before == old_rem.subrange(bi, num.len() as int),
            x == self.value(rem_before),
            rem_final.len() == num.len() - bi,
            new_rem == old_rem.subrange(0, bi) + rem_final,
            new_q == old_q.push(q),
            old_q.len() == num.len() - bi - 1,
            self.value(rem_final) == x - digit * dv,
            digit == radix4_digit(x, dv),
            q.value == digit,
            self.value(num.subrange(bi + 1, num.len() as int)) == self.value(old_q.reverse()) * dv
                + self.value(old_rem.subrange(bi + 1, num.len() as int)),
            dv > 0 ==> self.value(old_rem.subrange(bi + 1, num.len() as int)) < dv,
            dv == 0 ==> self.value(old_rem.subrange(bi + 1, num.len() as int)) == self.value(
                num.subrange(bi + 1, num.len() as int),
            ) && self.value(old_q.reverse()) + 1 == pow_nat(4, (num.len() - bi - 1) as nat),
        ensures
            new_rem.len() == num.len(),
            self.clean(new_rem),
            new_rem.subrange(0, bi) == num.subrange(0, bi),
            new_q.len() == num.len() - bi,
            self.clean(new_q),
            self.value(num.subrange(bi, num.len() as int)) == self.value(new_q.reverse()) * dv
                + self.value(new_rem.subrange(bi, num.len() as int)),
            dv > 0 ==> self.value(new_rem.subrange(bi, num.len() as int)) < dv,
            dv == 0 ==> self.value(new_rem.subrange(bi, num.len() as int)) == self.value(
                num.subrange(bi, num.len() as int),
            ) && self.value(new_q.reverse()) + 1 == pow_nat(4, (num.len() - bi) as nat),
    {
        let n = num.len() as int;
        // The new remainder keeps the untouched low blocks.
        assert(new_rem.subrange(0, bi) =~= old_rem.subrange(0, bi));
        assert(old_rem.subrange(0, bi) =~= old_rem.subrange(0, bi + 1).subrange(0, bi));
        assert(num.subrange(0, bi) =~= num.subrange(0, bi + 1).subrange(0, bi));
        assert(new_rem.subrange(bi, n) =~= rem_final);
        assert forall|i: int| 0 <= i < new_rem.len() implies self.key.block_wf(#[trigger] new_rem[i]) && new_rem[i].degree < new_rem[i].message_modulus.0 by {
            if i < bi {
                assert(new_rem[i] == old_rem[i]);
            } else {
                assert(new_rem[i] == rem_final[i - bi]);
            }
        }
        assert forall|i: int| 0 <= i < new_q.len() implies self.key.block_wf(#[trigger] new_q[i]) && new_q[i].degree < new_q[i].message_modulus.0 by {
            if i < old_q.len() {
                assert(new_q[i] == old_q[i]);
            }
        }
        // The block brought down from the numerator.
        let nd = num[bi];
        assert(old_rem[bi] == old_rem.subrange(0, bi + 1)[bi]);
        assert(num[bi] == num.subrange(0, bi + 1)[bi]);
        assert(rem_before[0] == nd);
        assert(rem_before.drop_first() =~= old_rem.subrange(bi + 1, n));
        let ns = num.subrange(bi, n);
        assert(ns[0] == nd);
        assert(ns.drop_first() =~= num.subrange(bi + 1, n));
        let r = self.value(old_rem.subrange(bi + 1, n));
        let p = self.value(num.subrange(bi + 1, n));
        let qv = self.value(old_q.reverse());
        assert(x == nd.value + 4 * r);
        assert(self.value(ns) == nd.value + 4 * p);
        assert(self.key.block_wf(nd) && nd.degree < 4);
        // The quotient gets the new digit as its least significant block.
        crate::radix::lemma_reverse_push(old_q, q);
        crate::radix::lemma_radix_prepend(q, old_q.reverse(), 4);
        assert(self.value(new_q.reverse()) == digit + 4 * qv);
        if dv > 0 {
            assert(x < 4 * dv);
            assert(4 * p == 4 * (qv * dv) + 4 * r) by (nonlinear_arith)
                requires
                    p == qv * dv + r,
            ;
            assert((digit + 4 * qv) * dv == 4 * (qv * dv) + digit * dv) by (nonlinear_arith);
        } else {
            assert(digit == 3);
            assert(digit * dv == 0) by (nonlinear_arith)
                requires
                    dv == 0,
            ;
            assert((digit + 4 * qv) * dv == 0) by (nonlinear_arith)
                requires
                    dv == 0,
            ;
            assert(qv * dv == 0) by (nonlinear_arith)
                requires
                    dv == 0,
            ;
            assert(pow_nat(4, (n - bi) as nat) == 4 * pow_nat(4, (n - bi - 1) as nat));
        }
    }

    /// The blocks can go through `zero_out_if_not` with this condition,
    /// table and packing factor.
    pub open spec fn zero_out_ready(&self, blocks: Seq<Ciphertext>, cx: Ciphertext, lut: LookupTable, factor: u8) -> bool {
        &&& self.blocks_wf(blocks)
        &&& self.key.block_wf(cx)
        &&& self.key.lut_wf(&lut)
        &&& forall|i: int|
            0 <= i < blocks.len() ==> (#[trigger] blocks[i].value * factor + cx.value) < self.key.size()
                && blocks[i].degree * factor + cx.degree <= DEGREE_BOUND
    }

    /// What `zero_out_if_not` gives from `before`.
    pub open spec fn is_zeroed_out(
        &self,
        before: Seq<Ciphertext>,
        after: Seq<Ciphertext>,
        cx: Ciphertext,
        lut: LookupTable,
        factor: u8,
    ) -> bool {
        &&& after.len() == before.len()
        &&& self.blocks_wf(after)
        &&& forall|i: int|
            0 <= i < after.len() ==> #[trigger] after[i].value == lut.table@[before[i].value * factor + cx.value]
                && after[i].degree == lut.degree
    }

    /// What `unsigned_overflowing_sub_parallelized` gives for `lhs - rhs`.
    pub open spec fn is_overflowing_sub(
        &self,
        lhs: Seq<Ciphertext>,
        rhs: Seq<Ciphertext>,
        res: (RadixCiphertext, BooleanBlock),
    ) -> bool {
        &&& res.0.blocks@.len() == lhs.len()
        &&& self.clean(res.0.blocks@)
        &&& self.value(res.0.blocks@) == sub_mod(
            reduced(self.value(lhs), self.msg(), lhs.len()) as int,
            reduced(self.value(rhs), self.msg(), rhs.len()) as int,
            self.modulus(lhs.len()),
        )
        &&& self.boolean_wf(res.1.0)
        &&& res.1.0.value == bit(
            reduced(self.value(lhs), self.msg(), lhs.len()) < reduced(self.value(rhs), self.msg(), rhs.len()),
        )
    }

    /// The quotient that division gives for `len` blocks, signed or not.
    pub open spec fn div_quotient(&self, signed: bool, n: nat, d: nat, len: nat) -> nat {
        if signed {
            signed_quotient(n, d, self.modulus(len))
        } else {
            unsigned_quotient(n, d, self.modulus(len))
        }
    }

    /// The remainder that division gives for `len` blocks, signed or not.
    pub open spec fn div_remainder(&self, signed: bool, n: nat, d: nat, len: nat) -> nat {
        if signed {
            signed_remainder(n, d, self.modulus(len))
        } else {
            unsigned_remainder(n, d)
        }
    }

    /// Quotient and remainder of unsigned integers with empty carries.
    fn unsigned_unchecked_div_rem_parallelized(
        &self,
        numerator: &RadixCiphertext,
        divisor: &RadixCiphertext,
    ) -> (res: (RadixCiphertext, RadixCiphertext))
        requires
            self.wf(),
            self.clean(numerator.blocks@),
            self.clean(divisor.blocks@),
            numerator.blocks@.len() == divisor.blocks@.len(),
            numerator.blocks@.len() * 8 <= usize::MAX,
        ensures
            res.0.blocks@.len() == numerator.blocks@.len(),
            res.1.blocks@.len() == numerator.blocks@.len(),
            self.clean(res.0.blocks@),
            self.clean(res.1.blocks@),
            self.value(res.0.blocks@) == unsigned_quotient(
                self.value(numerator.blocks@),
                self.value(divisor.blocks@),
                self.modulus(numerator.blocks@.len()),
            ),
            self.value(res.1.blocks@) == unsigned_remainder(
                self.value(numerator.blocks@),
                self.value(divisor.blocks@),
            ),
    {
        if self.message_modulus().0 == 4 && self.carry_modulus().0 == 4 {
            return self.unsigned_div_rem_block_by_block_2_2(numerator, divisor);
        }
        // School-book long division, one bit of the numerator at a time:
        //
        // Q := 0; R := 0
        // for i := n - 1 .. 0 do   -- n: number of bits of the numerator
        //   R := R << 1; R(0) := N(i)
        //   if R >= D then R := R - D; Q(i) := 1
        proof {
            self.lemma_wf();
        }
        let num_blocks = numerator.blocks.len();
        let num_bits_in_message = self.num_bits_in_message();
        proof {
            assert(num_bits_in_message * num_blocks <= 8 * num_blocks) by (nonlinear_arith)
                requires
                    num_bits_in_message <= 7,
            ;
        }
        let total_bits = num_bits_in_message as usize * num_blocks;
        let mut quotient: RadixCiphertext = self.create_trivial_zero_radix(num_blocks);
        let mut remainder1: RadixCiphertext = self.create_trivial_zero_radix(num_blocks);
        let mut remainder2: RadixCiphertext = self.create_trivial_zero_radix(num_blocks);
        let mut numerator_block_stack = copy_blocks(numerator.blocks.as_slice());
        // The overflow flag is made of two values; these tables merge them
        // into the quotient bit, already shifted to its position in its block.
        let merge_overflow_flags_luts = self.merge_overflow_flags_luts(num_bits_in_message);
        let ghost num = numerator.blocks@;
        let ghost mut qh: nat = 0;
        let ghost mut prefix: nat = 0;
        let ghost mut t: nat = if num.len() == 0 {
            0
        } else {
            num[num.len() - 1].value as nat
        };
        proof {
            self.lemma_initial_division_state(
                num,
                divisor.blocks@,
                quotient.blocks@,
                remainder1.blocks@,
                remainder2.blocks@,
            );
            assert(total_bits as nat == num.len() * self.msg_bits()) by (nonlinear_arith)
                requires
                    total_bits == num_bits_in_message * num_blocks,
                    num_bits_in_message as nat == self.msg_bits(),
                    num_blocks == num.len(),
            ;
        }
        let mut i = total_bits;
        while i > 0
            invariant
                self.wf(),
                num == numerator.blocks@,
                num_bits_in_message as nat == self.msg_bits(),
                total_bits as nat == num.len() * self.msg_bits(),
                i <= total_bits,
                merge_overflow_flags_luts@.len() == self.msg_bits(),
                forall|p: int|
                    0 <= p < merge_overflow_flags_luts@.len() ==> self.is_merge_flag_lut(
                        #[trigger] merge_overflow_flags_luts@[p],
                        p as nat,
                    ),
                self.long_division_state(
                    num,
                    divisor.blocks@,
                    quotient.blocks@,
                    remainder1.blocks@,
                    remainder2.blocks@,
                    numerator_block_stack@,
                    i as nat,
                    qh,
                    prefix,
                    t,
                ),
            decreases i,
        {
            i = i - 1;
            let Ghost(next) = self.long_division_step(
                divisor,
                &mut quotient,
                &mut remainder1,
                &mut remainder2,
                &mut numerator_block_stack,
                &merge_overflow_flags_luts,
                i,
                num_bits_in_message,
                total_bits,
                Ghost(num),
                Ghost(qh),
                Ghost(prefix),
                Ghost(t),
            );
            proof {
                qh = next.0;
                prefix = next.1;
                t = next.2;
            }
        }
        proof {
            self.lemma_final_division_state(
                num,
                divisor.blocks@,
                quotient.blocks@,
                remainder1.blocks@,
                remainder2.blocks@,
                numerator_block_stack@,
                qh,
                prefix,
                t,
            );
        }
        // The quotient and the remainder have no carries, but are not at
        // nominal noise level: clean them.
        let ghost q_before = quotient.blocks@;
        let finish_remainder = move || -> (r: RadixCiphertext)
            requires
                self.wf(),
                self.clean(remainder1.blocks@),
                self.clean(remainder2.blocks@),
                remainder1.blocks@.len() == remainder2.blocks@.len(),
                all_zero(remainder1.blocks@) || all_zero(remainder2.blocks@),
            ensures
                r.blocks@.len() == remainder2.blocks@.len(),
                self.clean(r.blocks@),
                self.value(r.blocks@) == self.value(remainder1.blocks@) + self.value(remainder2.blocks@),
            {
                let mut remainder1 = remainder1;
                self.add_remainders(&mut remainder1, &remainder2);
                remainder1
            };
        let finish_quotient = move || -> (r: RadixCiphertext)
            requires
                self.wf(),
                self.blocks_wf(quotient.blocks@),
            ensures
                r.blocks@.len() == quotient.blocks@.len(),
                self.clean(r.blocks@),
                forall|j: int|
                    0 <= j < quotient.blocks@.len() ==> #[trigger] r.blocks@[j].value
                        == quotient.blocks@[j].value % self.key.message_modulus.0,
            {
                let mut quotient = quotient;
                self.message_extract_blocks(&mut quotient);
                quotient
            };
        let (remainder1, quotient) = join(finish_remainder, finish_quotient);
        proof {
            assert forall|j: int| 0 <= j < quotient.blocks@.len() implies #[trigger] quotient.blocks@[j].value
                == q_before[j].value by {
                assert(self.key.block_wf(q_before[j]));
                vstd::arithmetic::div_mod::lemma_small_mod(q_before[j].value as nat, self.msg());
            }
            crate::radix::lemma_radix_same_values(quotient.blocks@, q_before, self.msg());
        }
        (quotient, remainder1)
    }

    /// Quotient and remainder of two's complement integers with empty carries.
    fn signed_unchecked_div_rem_parallelized(
        &self,
        numerator: &SignedRadixCiphertext,
        divisor: &SignedRadixCiphertext,
    ) -> (res: (SignedRadixCiphertext, SignedRadixCiphertext))
        requires
            self.wf(),
            self.clean(numerator.blocks@),
            self.clean(divisor.blocks@),
            numerator.blocks@.len() == divisor.blocks@.len(),
            numerator.blocks@.len() >= 1,
            numerator.blocks@.len() * 8 <= usize::MAX,
        ensures
            res.0.blocks@.len() == numerator.blocks@.len(),
            res.1.blocks@.len() == numerator.blocks@.len(),
            self.normalized(res.0.blocks@),
            self.normalized(res.1.blocks@),
            self.value(res.0.blocks@) == signed_quotient(
                self.value(numerator.blocks@),
                self.value(divisor.blocks@),
                self.modulus(numerator.blocks@.len()),
            ),
            self.value(res.1.blocks@) == signed_remainder(
                self.value(numerator.blocks@),
                self.value(divisor.blocks@),
                self.modulus(numerator.blocks@.len()),
            ),
    {
        proof {
            self.lemma_wf();
            self.lemma_clean_normalized(numerator.blocks@);
            self.lemma_clean_normalized(divisor.blocks@);
        }
        let ghost n = numerator.blocks@.len();
        let ghost m = self.modulus(n);
        let ghost nv = self.value(numerator.blocks@);
        let ghost dv = self.value(divisor.blocks@);
        let abs_numerator = || -> (p: RadixCiphertext)
            requires
                self.wf(),
                self.normalized(numerator.blocks@),
                numerator.blocks@.len() >= 1,
            ensures
                p.blocks@.len() == numerator.blocks@.len(),
                self.clean(p.blocks@),
                self.value(p.blocks@) == abs_residue(
                    self.value(numerator.blocks@),
                    self.modulus(numerator.blocks@.len()),
                ),
            {
                let positive_numerator = self.unchecked_abs_parallelized(numerator);
                RadixCiphertext::from_blocks(positive_numerator.into_blocks())
            };
        let abs_divisor = || -> (p: RadixCiphertext)
            requires
                self.wf(),
                self.normalized(divisor.blocks@),
                divisor.blocks@.len() >= 1,
            ensures
                p.blocks@.len() == divisor.blocks@.len(),
                self.clean(p.blocks@),
                self.value(p.blocks@) == abs_residue(
                    self.value(divisor.blocks@),
                    self.modulus(divisor.blocks@.len()),
                ),
            {
                let positive_divisor = self.unchecked_abs_parallelized(divisor);
                RadixCiphertext::from_blocks(positive_divisor.into_blocks())
            };
        let (positive_numerator, positive_divisor) = join(abs_numerator, abs_divisor);
        let divide = || -> (r: (RadixCiphertext, RadixCiphertext))
            requires
                self.wf(),
                self.clean(positive_numerator.blocks@),
                self.clean(positive_divisor.blocks@),
                positive_numerator.blocks@.len() == positive_divisor.blocks@.len(),
                positive_numerator.blocks@.len() * 8 <= usize::MAX,
            ensures
                r.0.blocks@.len() == positive_numerator.blocks@.len(),
                r.1.blocks@.len() == positive_numerator.blocks@.len(),
                self.clean(r.0.blocks@),
                self.clean(r.1.blocks@),
                self.value(r.0.blocks@) == unsigned_quotient(
                    self.value(positive_numerator.blocks@),
                    self.value(positive_divisor.blocks@),
                    self.modulus(positive_numerator.blocks@.len()),
                ),
                self.value(r.1.blocks@) == unsigned_remainder(
                    self.value(positive_numerator.blocks@),
                    self.value(positive_divisor.blocks@),
                ),
            { self.unsigned_unchecked_div_rem_parallelized(&positive_numerator, &positive_divisor) };
        let sign_bit_pos = self.num_bits_in_message() - 1;
        let compare_signs = || -> (b: Ciphertext)
            requires
                self.wf(),
                self.normalized(numerator.blocks@),
                self.normalized(divisor.blocks@),
                numerator.blocks@.len() >= 1,
                divisor.blocks@.len() >= 1,
            ensures
                self.key.block_wf(b),
                b.degree < 0x1_0000,
                b.value == bit(
                    (numerator.blocks@.last().value as nat >= self.msg() / 2) != (
                    divisor.blocks@.last().value as nat >= self.msg() / 2),
                ),
            {
                self.sign_bits_differ(
                    &numerator.blocks[numerator.blocks.len() - 1],
                    &divisor.blocks[divisor.blocks.len() - 1],
                )
            };
        proof {
            self.lemma_clean_value_small(numerator.blocks@);
            self.lemma_clean_value_small(divisor.blocks@);
        }
        let ((quotient, remainder), sign_bits_are_different) = join(divide, compare_signs);
        proof {
            self.lemma_sign_block(numerator.blocks@);
            self.lemma_sign_block(divisor.blocks@);
            crate::radix::lemma_pow_nat_positive(self.msg(), n);
            self.lemma_modulus_even(n);
            lemma_signed_from_unsigned(nv, dv, m);
            lemma_radix_zero(divisor.blocks@, self.msg());
            self.lemma_clean_normalized(quotient.blocks@);
            self.lemma_clean_normalized(remainder.blocks@);
        }
        // When the divisor is 0 the quotient is -1 for a negative numerator
        // and 1 otherwise: the negation is skipped or added accordingly.
        let divisor_is_zero = self.are_all_blocks_zero(divisor.blocks.as_slice());
        let mut quotient_condition = sign_bits_are_different;
        self.key.unchecked_add_assign(&mut quotient_condition, &divisor_is_zero);
        let ghost old_quotient = quotient;
        let ghost old_remainder = remainder;
        let sign_block = numerator.blocks[numerator.blocks.len() - 1];
        let ghost negate_quotient = quotient_condition.value == 1;
        let ghost negative_numerator = sign_block.value as nat >= self.msg() / 2;
        proof {
            assert(self.key.block_wf(sign_block));
            assert(sign_block == numerator.blocks@.last());
        }
        // The quotient is negative when exactly one of "the signs differ" and
        // "the divisor is 0" holds.
        let fix_quotient = move || -> (r: RadixCiphertext)
            requires
                self.wf(),
                self.clean(quotient.blocks@),
                self.key.block_wf(quotient_condition),
            ensures
                r.blocks@.len() == old_quotient.blocks@.len(),
                self.normalized(r.blocks@),
                self.value(r.blocks@) == (if negate_quotient {
                    sub_mod(0, self.value(old_quotient.blocks@) as int, self.modulus(old_quotient.blocks@.len()))
                } else {
                    self.value(old_quotient.blocks@)
                }),
            {
                let negated_quotient = self.neg_parallelized(&quotient);
                let quotient_is_negated = |x: u64| -> (r: bool)
                    ensures
                        r == (x == 1),
                    { x == 1 };
                proof {
                    self.lemma_wf();
                    self.lemma_clean_normalized(negated_quotient.blocks@);
                    self.lemma_clean_normalized(quotient.blocks@);
                    self.lemma_clean_value_small(quotient.blocks@);
                }
                let r = self.unchecked_programmable_if_then_else_parallelized(
                    &quotient_condition,
                    &negated_quotient,
                    &quotient,
                    quotient_is_negated,
                    true,
                );
                proof {
                    self.lemma_selected_value(&quotient_condition, &negated_quotient, &quotient, &r, quotient_is_negated);
                }
                r
            };
        // The remainder has the sign of the numerator.
        let fix_remainder = move || -> (r: RadixCiphertext)
            requires
                self.wf(),
                self.clean(remainder.blocks@),
                self.key.block_wf(sign_block),
                (sign_block.value as nat) < self.msg(),
                sign_bit_pos + 1 == self.msg_bits(),
            ensures
                r.blocks@.len() == old_remainder.blocks@.len(),
                self.normalized(r.blocks@),
                self.value(r.blocks@) == (if negative_numerator {
                    sub_mod(0, self.value(old_remainder.blocks@) as int, self.modulus(old_remainder.blocks@.len()))
                } else {
                    self.value(old_remainder.blocks@)
                }),
            {
                let negated_remainder = self.neg_parallelized(&remainder);
                let is_negative = move |sign_block: u64| -> (r: bool)
                    ensures
                        r == ((sign_block >> sign_bit_pos) == 1),
                    { (sign_block >> sign_bit_pos) == 1 };
                proof {
                    self.lemma_wf();
                    self.lemma_clean_normalized(negated_remainder.blocks@);
                    self.lemma_clean_normalized(remainder.blocks@);
                    self.lemma_clean_value_small(remainder.blocks@);
                    self.lemma_sign_bit(sign_block.value, sign_bit_pos);
                }
                let r = self.unchecked_programmable_if_then_else_parallelized(
                    &sign_block,
                    &negated_remainder,
                    &remainder,
                    is_negative,
                    true,
                );
                proof {
                    self.lemma_selected_value(&sign_block, &negated_remainder, &remainder, &r, is_negative);
                }
                r
            };
        let (quotient, remainder) = join(fix_quotient, fix_remainder);
        proof {
            self.lemma_clean_value_small(old_quotient.blocks@);
            self.lemma_clean_value_small(old_remainder.blocks@);
        }
        (
            SignedRadixCiphertext::from_blocks(quotient.into_blocks()),
            SignedRadixCiphertext::from_blocks(remainder.into_blocks()),
        )
    }

    /// The modulus of a positive number of blocks is even.
    pub proof fn lemma_modulus_even(&self, n: nat)
        requires
            self.wf(),
            n >= 1,
        ensures
            self.modulus(n) % 2 == 0,
            self.modulus(n) >= 2,
    {
        self.lemma_wf();
        vstd::arithmetic::power2::lemma_pow2_unfold(self.msg_bits());
        let p = pow_nat(self.msg(), (n - 1) as nat);
        crate::radix::lemma_pow_nat_positive(self.msg(), (n - 1) as nat);
        assert(self.modulus(n) == self.msg() * p);
        let h = self.msg() / 2;
        assert(self.msg() == 2 * h);
        assert(self.msg() * p == 2 * (h * p)) by (nonlinear_arith)
            requires
                self.msg() == 2 * h,
        ;
        assert(self.msg() * p >= 2) by (nonlinear_arith)
            requires
                self.msg() >= 2,
                p >= 1,
        ;
    }

    /// Masking the shifted block with 1 keeps its value when it is a single bit.
    pub proof fn lemma_sign_bit_and_one(&self, x: u64, sign_bit_pos: u64)
        requires
            self.wf(),
            sign_bit_pos + 1 == self.msg_bits(),
            (x as nat) < self.msg(),
        ensures
            (x >> sign_bit_pos) & 1 == (x >> sign_bit_pos),
            (x >> sign_bit_pos) <= 1,
    {
        self.lemma_wf();
        vstd::bits::lemma_u64_shr_is_div(x, sign_bit_pos);
        vstd::arithmetic::power2::lemma_pow2_unfold(self.msg_bits());
        let h = vstd::arithmetic::power2::pow2(sign_bit_pos as nat);
        vstd::arithmetic::power2::lemma_pow2_pos(sign_bit_pos as nat);
        assert((x as nat) / h < 2) by (nonlinear_arith)
            requires
                (x as nat) < 2 * h,
                h > 0,
        ;
        let s = x >> sign_bit_pos;
        assert(s <= 1);
        assert(s <= 1 ==> s & 1 == s) by (bit_vector);
    }

    /// The value picked by a selection on a condition block.
    pub proof fn lemma_selected_value<T: IntegerRadixCiphertext, F: Fn(u64) -> bool>(
        &self,
        condition_block: &Ciphertext,
        true_ct: &T,
        false_ct: &T,
        r: &T,
        f: F,
    )
        requires
            r.spec_blocks().len() == true_ct.spec_blocks().len(),
            true_ct.spec_blocks().len() == false_ct.spec_blocks().len(),
            exists|c: bool|
                #[trigger] f.ensures((condition_block.value,), c) && forall|i: int|
                    0 <= i < r.spec_blocks().len() ==> #[trigger] r.spec_blocks()[i].value == (if c {
                        true_ct.spec_blocks()[i].value
                    } else {
                        false_ct.spec_blocks()[i].value
                    }),
        ensures
            exists|c: bool|
                #[trigger] f.ensures((condition_block.value,), c) && self.value(r.spec_blocks()) == (if c {
                    self.value(true_ct.spec_blocks())
                } else {
                    self.value(false_ct.spec_blocks())
                }),
    {
        let c = choose|c: bool|
            #[trigger] f.ensures((condition_block.value,), c) && forall|i: int|
                0 <= i < r.spec_blocks().len() ==> #[trigger] r.spec_blocks()[i].value == (if c {
                    true_ct.spec_blocks()[i].value
                } else {
                    false_ct.spec_blocks()[i].value
                });
        if c {
            lemma_radix_same_values(r.spec_blocks(), true_ct.spec_blocks(), self.msg());
        } else {
            lemma_radix_same_values(r.spec_blocks(), false_ct.spec_blocks(), self.msg());
        }
        assert(f.ensures((condition_block.value,), c));
    }

    /// A block that is 1 exactly when the sign bits of the two blocks differ.
    fn sign_bits_differ(&self, lhs: &Ciphertext, rhs: &Ciphertext) -> (b: Ciphertext)
        requires
            self.wf(),
            self.key.block_wf(*lhs),
            self.key.block_wf(*rhs),
            (lhs.value as nat) < self.msg(),
            (rhs.value as nat) < self.msg(),
            (lhs.degree as nat) < self.key.size(),
            (rhs.degree as nat) < self.key.size(),
        ensures
            self.key.block_wf(b),
            b.degree < 0x1_0000,
            b.value == bit((lhs.value as nat >= self.msg() / 2) != (rhs.value as nat >= self.msg() / 2)),
    {
        proof {
            self.lemma_wf();
        }
        let sign_bit_pos = self.num_bits_in_message() - 1;
        let compare_sign_bits = move |x: u64, y: u64| -> (r: u64)
            ensures
                r == bit(((x >> sign_bit_pos) & 1) != ((y >> sign_bit_pos) & 1)),
            {
                let x_sign_bit = (x >> sign_bit_pos) & 1;
                let y_sign_bit = (y >> sign_bit_pos) & 1;
                if x_sign_bit != y_sign_bit {
                    1
                } else {
                    0
                }
            };
        let lut = self.key.generate_lookup_table_bivariate(compare_sign_bits);
        let x = *lhs;
        let y = *rhs;
        proof {
            assert(packed_index(x.value as nat, y.value as nat, self.msg()) < self.key.size()) by (nonlinear_arith)
                requires
                    x.value < self.msg(),
                    y.value < self.msg(),
                    self.msg() * self.msg() <= self.key.size(),
            ;
            assert(x.degree * self.key.message_modulus.0 + y.degree <= DEGREE_BOUND) by (nonlinear_arith)
                requires
                    x.degree < 0x1_0000,
                    y.degree < 0x1_0000,
                    self.key.message_modulus.0 <= 128,
            ;
        }
        let b = self.key.unchecked_apply_lookup_table_bivariate(&x, &y, &lut);
        proof {
            let idx = packed_index(x.value as nat, y.value as nat, self.msg());
            assert(bivariate_lut_entry(compare_sign_bits, x.value, y.value, lut.acc.table@[idx as int], self.key.size()));
            let o = choose|o: u64| #[trigger] compare_sign_bits.ensures((x.value, y.value), o) && lut.acc.table@[idx as int] as nat == o as nat % self.key.size();
            assert(o == bit(((x.value >> sign_bit_pos) & 1) != ((y.value >> sign_bit_pos) & 1)));
            vstd::arithmetic::div_mod::lemma_small_mod(o as nat, self.key.size());
            self.lemma_sign_bit(x.value, sign_bit_pos);
            self.lemma_sign_bit(y.value, sign_bit_pos);
            self.lemma_sign_bit_and_one(x.value, sign_bit_pos);
            self.lemma_sign_bit_and_one(y.value, sign_bit_pos);
            self.key.lemma_lut_degree_bound(&lut.acc);
        }
        b
    }

    /// Quotient and remainder, for integers whose blocks have empty carries.
    ///
    /// Unsigned: when the divisor is 0 the quotient has all bits set and the
    /// remainder is the numerator. Signed: the quotient is rounded toward 0
    /// and the remainder has the numerator's sign; when the divisor is 0 the
    /// remainder is the numerator and the quotient is -1 for a negative
    /// numerator and 1 otherwise.
    pub fn unchecked_div_rem_parallelized<T: IntegerRadixCiphertext>(
        &self,
        numerator: &T,
        divisor: &T,
    ) -> (res: (T, T))
        requires
            self.wf(),
            self.clean(numerator.spec_blocks()),
            self.clean(divisor.spec_blocks()),
            numerator.spec_blocks().len() == divisor.spec_blocks().len(),
            T::spec_is_signed() ==> numerator.spec_blocks().len() >= 1,
            numerator.spec_blocks().len() * 8 <= usize::MAX,
        ensures
            res.0.spec_blocks().len() == numerator.spec_blocks().len(),
            res.1.spec_blocks().len() == numerator.spec_blocks().len(),
            self.normalized(res.0.spec_blocks()),
            !T::spec_is_signed() ==> self.clean(res.0.spec_blocks()),
            self.normalized(res.1.spec_blocks()),
            !T::spec_is_signed() ==> self.clean(res.1.spec_blocks()),
            self.value(res.0.spec_blocks()) == self.div_quotient(
                T::spec_is_signed(),
                self.value(numerator.spec_blocks()),
                self.value(divisor.spec_blocks()),
                numerator.spec_blocks().len(),
            ),
            self.value(res.1.spec_blocks()) == self.div_remainder(
                T::spec_is_signed(),
                self.value(numerator.spec_blocks()),
                self.value(divisor.spec_blocks()),
                numerator.spec_blocks().len(),
            ),
    {
        if T::is_signed() {
            let n = SignedRadixCiphertext::from_blocks(copy_blocks(numerator.blocks()));
            let d = SignedRadixCiphertext::from_blocks(copy_blocks(divisor.blocks()));
            let (q, r) = self.signed_unchecked_div_rem_parallelized(&n, &d);
            let q = T::from_blocks(q.into_blocks());
            let r = T::from_blocks(r.into_blocks());
            (q, r)
        } else {
            let n = RadixCiphertext::from_blocks(copy_blocks(numerator.blocks()));
            let d = RadixCiphertext::from_blocks(copy_blocks(divisor.blocks()));
            let (q, r) = self.unsigned_unchecked_div_rem_parallelized(&n, &d);
            proof {
                self.lemma_wf();
                self.lemma_clean_normalized(q.blocks@);
                self.lemma_clean_normalized(r.blocks@);
            }
            let q = T::from_blocks(q.into_blocks());
            let r = T::from_blocks(r.into_blocks());
            (q, r)
        }
    }

    /// Quotient rounded toward negative infinity and the remainder that goes
    /// with it (the remainder has the divisor's sign), for two's complement
    /// integers whose blocks have empty carries.
    pub fn unchecked_div_rem_floor_parallelized(
        &self,
        numerator: &SignedRadixCiphertext,
        divisor: &SignedRadixCiphertext,
    ) -> (res: (SignedRadixCiphertext, SignedRadixCiphertext))
        requires
            self.wf(),
            self.clean(numerator.blocks@),
            self.clean(divisor.blocks@),
            numerator.blocks@.len() == divisor.blocks@.len(),
            numerator.blocks@.len() >= 1,
            numerator.blocks@.len() * 8 <= usize::MAX,
        ensures
            res.0.blocks@.len() == numerator.blocks@.len(),
            res.1.blocks@.len() == numerator.blocks@.len(),
            self.normalized(res.0.blocks@),
            self.normalized(res.1.blocks@),
            self.value(res.0.blocks@) == floor_quotient(
                self.value(numerator.blocks@),
                self.value(divisor.blocks@),
                self.modulus(numerator.blocks@.len()),
            ),
            self.value(res.1.blocks@) == floor_remainder(
                self.value(numerator.blocks@),
                self.value(divisor.blocks@),
                self.modulus(numerator.blocks@.len()),
            ),
    {
        proof {
            self.lemma_wf();
            self.lemma_clean_normalized(divisor.blocks@);
        }
        let ghost n = numerator.blocks@.len();
        let ghost m = self.modulus(n);
        let ghost dv = self.value(divisor.blocks@);
        let (quotient, remainder) = self.unchecked_div_rem_parallelized(numerator, divisor);
        let ghost qv = self.value(quotient.blocks@);
        let ghost rv = self.value(remainder.blocks@);
        let check_remainder = || -> (b: BooleanBlock)
            requires
                self.wf(),
                self.normalized(remainder.blocks@),
            ensures
                self.boolean_wf(b.0),
                b.0.value == bit(
                    self.value(remainder.blocks@) != reduced(0, self.msg(), remainder.blocks@.len()),
                ),
            { self.unchecked_scalar_ne_parallelized(&remainder, 0) };
        let compare_signs = || -> (b: Ciphertext)
            requires
                self.wf(),
                self.normalized(remainder.blocks@),
                self.normalized(divisor.blocks@),
                remainder.blocks@.len() >= 1,
                divisor.blocks@.len() >= 1,
            ensures
                self.key.block_wf(b),
                b.degree < 0x1_0000,
                b.value == bit(
                    (remainder.blocks@.last().value as nat >= self.msg() / 2) != (
                    divisor.blocks@.last().value as nat >= self.msg() / 2),
                ),
            {
                self.sign_bits_differ(
                    &remainder.blocks[remainder.blocks.len() - 1],
                    &divisor.blocks[divisor.blocks.len() - 1],
                )
            };
        let (remainder_is_not_zero, remainder_and_divisor_signs_disagrees) = join(
            check_remainder,
            compare_signs,
        );
        let condition = remainder_is_not_zero.0;
        let remainder_plus_divisor = SignedRadixCiphertext {
            blocks: copy_blocks(remainder.blocks.as_slice()),
        };
        let quotient_minus_one = SignedRadixCiphertext {
            blocks: copy_blocks(quotient.blocks.as_slice()),
        };
        let ghost c0 = condition;
        let ghost flag = remainder_and_divisor_signs_disagrees;
        let ghost rem_blocks = remainder.blocks@;
        let ghost quo_blocks = quotient.blocks@;
        // The condition block, the remainder plus the divisor and the quotient
        // minus one, the three in parallel.
        let merge_conditions = move || -> (c: Ciphertext)
            requires
                self.wf(),
                self.boolean_wf(condition),
                self.key.block_wf(remainder_and_divisor_signs_disagrees),
                remainder_and_divisor_signs_disagrees.value <= 1,
                remainder_and_divisor_signs_disagrees.degree < 0x1_0000,
            ensures
                self.key.block_wf(c),
                c.value == c0.value + flag.value,
            {
                proof {
                    self.lemma_wf();
                }
                let mut c = condition;
                self.key.add_assign(&mut c, &remainder_and_divisor_signs_disagrees);
                c
            };
        let add_divisor = move || -> (r: SignedRadixCiphertext)
            requires
                self.wf(),
                self.blocks_wf(remainder_plus_divisor.blocks@),
                self.blocks_wf(divisor.blocks@),
                remainder_plus_divisor.blocks@.len() == divisor.blocks@.len(),
            ensures
                r.blocks@.len() == rem_blocks.len(),
                self.clean(r.blocks@),
                self.value(r.blocks@) == (reduced(self.value(rem_blocks), self.msg(), divisor.blocks@.len())
                    + reduced(self.value(divisor.blocks@), self.msg(), divisor.blocks@.len())) % self.modulus(
                    divisor.blocks@.len(),
                ),
            {
                let mut r = remainder_plus_divisor;
                self.add_assign_parallelized(&mut r, divisor);
                r
            };
        let subtract_one = move || -> (r: SignedRadixCiphertext)
            requires
                self.wf(),
                self.blocks_wf(quotient_minus_one.blocks@),
            ensures
                r.blocks@.len() == quo_blocks.len(),
                self.clean(r.blocks@),
                self.value(r.blocks@) == sub_mod(
                    reduced(self.value(quo_blocks), self.msg(), quo_blocks.len()) as int,
                    reduced(1, self.msg(), quo_blocks.len()) as int,
                    self.modulus(quo_blocks.len()),
                ),
            {
                let mut r = quotient_minus_one;
                self.scalar_sub_assign_parallelized(&mut r, 1);
                r
            };
        let add_and_subtract = move || -> (r: (SignedRadixCiphertext, SignedRadixCiphertext))
            requires
                self.wf(),
                self.blocks_wf(remainder_plus_divisor.blocks@),
                self.blocks_wf(divisor.blocks@),
                remainder_plus_divisor.blocks@.len() == divisor.blocks@.len(),
                self.blocks_wf(quotient_minus_one.blocks@),
            ensures
                r.0.blocks@.len() == rem_blocks.len(),
                self.clean(r.0.blocks@),
                self.value(r.0.blocks@) == (reduced(self.value(rem_blocks), self.msg(), divisor.blocks@.len())
                    + reduced(self.value(divisor.blocks@), self.msg(), divisor.blocks@.len())) % self.modulus(
                    divisor.blocks@.len(),
                ),
                r.1.blocks@.len() == quo_blocks.len(),
                self.clean(r.1.blocks@),
                self.value(r.1.blocks@) == sub_mod(
                    reduced(self.value(quo_blocks), self.msg(), quo_blocks.len()) as int,
                    reduced(1, self.msg(), quo_blocks.len()) as int,
                    self.modulus(quo_blocks.len()),
                ),
            { join(add_divisor, subtract_one) };
        let (condition, sums) = join(merge_conditions, add_and_subtract);
        let (remainder_plus_divisor, quotient_minus_one) = sums;
        let ghost adjust = condition.value == 2;
        let ghost qm = self.value(quotient_minus_one.blocks@);
        let ghost rp = self.value(remainder_plus_divisor.blocks@);
        proof {
            self.lemma_clean_normalized(remainder_plus_divisor.blocks@);
            self.lemma_clean_normalized(quotient_minus_one.blocks@);
        }
        // Both are moved when the remainder is nonzero and its sign differs
        // from the divisor's (the condition block holds 2).
        let select_quotient = || -> (r: SignedRadixCiphertext)
            requires
                self.wf(),
                self.key.block_wf(condition),
                self.normalized(quotient_minus_one.blocks@),
                self.normalized(quotient.blocks@),
                quotient_minus_one.blocks@.len() == quotient.blocks@.len(),
            ensures
                r.blocks@.len() == quotient.blocks@.len(),
                self.normalized(r.blocks@),
                self.value(r.blocks@) == (if adjust { qm } else { qv }),
            {
                let is_two = |x: u64| -> (r: bool)
                    ensures
                        r == (x == 2),
                    { x == 2 };
                let r = self.unchecked_programmable_if_then_else_parallelized(
                    &condition,
                    &quotient_minus_one,
                    &quotient,
                    is_two,
                    true,
                );
                proof {
                    self.lemma_selected_value(&condition, &quotient_minus_one, &quotient, &r, is_two);
                }
                r
            };
        let select_remainder = || -> (r: SignedRadixCiphertext)
            requires
                self.wf(),
                self.key.block_wf(condition),
                self.normalized(remainder_plus_divisor.blocks@),
                self.normalized(remainder.blocks@),
                remainder_plus_divisor.blocks@.len() == remainder.blocks@.len(),
            ensures
                r.blocks@.len() == remainder.blocks@.len(),
                self.normalized(r.blocks@),
                self.value(r.blocks@) == (if adjust { rp } else { rv }),
            {
                let is_two = |x: u64| -> (r: bool)
                    ensures
                        r == (x == 2),
                    { x == 2 };
                let r = self.unchecked_programmable_if_then_else_parallelized(
                    &condition,
                    &remainder_plus_divisor,
                    &remainder,
                    is_two,
                    true,
                );
                proof {
                    self.lemma_selected_value(&condition, &remainder_plus_divisor, &remainder, &r, is_two);
                }
                r
            };
        let (new_quotient, new_remainder) = join(select_quotient, select_remainder);
        proof {
            self.lemma_sign_block(remainder.blocks@);
            self.lemma_sign_block(divisor.blocks@);
            self.lemma_normalized_value_small(remainder.blocks@);
            self.lemma_normalized_value_small(quotient.blocks@);
            self.lemma_clean_value_small(divisor.blocks@);
            self.lemma_modulus_even(n);
            vstd::arithmetic::div_mod::lemma_small_mod(0, m);
            vstd::arithmetic::div_mod::lemma_small_mod(1, m);
        }
        (new_quotient, new_remainder)
    }

    /// The operands accepted by the division entry points: well-formed
    /// blocks, equal lengths, at least one block for signed integers.
    pub open spec fn division_operands(&self, signed: bool, n: Seq<Ciphertext>, d: Seq<Ciphertext>) -> bool {
        &&& self.blocks_wf(n)
        &&& self.blocks_wf(d)
        &&& n.len() == d.len()
        &&& (signed ==> n.len() >= 1)
        &&& n.len() * 8 <= usize::MAX
    }

    /// The quotient of the integers the blocks hold once carries are propagated.
    pub open spec fn quotient_of(&self, signed: bool, n: Seq<Ciphertext>, d: Seq<Ciphertext>) -> nat {
        self.div_quotient(
            signed,
            reduced(self.value(n), self.msg(), n.len()),
            reduced(self.value(d), self.msg(), d.len()),
            n.len(),
        )
    }

    /// The remainder of the integers the blocks hold once carries are propagated.
    pub open spec fn remainder_of(&self, signed: bool, n: Seq<Ciphertext>, d: Seq<Ciphertext>) -> nat {
        self.div_remainder(
            signed,
            reduced(self.value(n), self.msg(), n.len()),
            reduced(self.value(d), self.msg(), d.len()),
            n.len(),
        )
    }

    /// A copy of the integer with its carries propagated.
    fn propagated_clone<T: IntegerRadixCiphertext>(&self, ct: &T) -> (r: T)
        requires
            self.wf(),
            self.blocks_wf(ct.spec_blocks()),
        ensures
            r.spec_blocks().len() == ct.spec_blocks().len(),
            self.clean(r.spec_blocks()),
            self.value(r.spec_blocks()) == reduced(self.value(ct.spec_blocks()), self.msg(), ct.spec_blocks().len()),
    {
        let mut tmp = T::from_blocks(copy_blocks(ct.blocks()));
        self.full_propagate_parallelized(&mut tmp);
        tmp
    }

    /// The integer with its carries propagated when it has any, and as it
    /// is otherwise.
    fn propagated_if_needed<T: IntegerRadixCiphertext>(&self, ct: T) -> (r: T)
        requires
            self.wf(),
            self.blocks_wf(ct.spec_blocks()),
        ensures
            r.spec_blocks().len() == ct.spec_blocks().len(),
            self.clean(r.spec_blocks()),
            self.value(r.spec_blocks()) == reduced(self.value(ct.spec_blocks()), self.msg(), ct.spec_blocks().len()),
            carries_empty(ct.spec_blocks()) ==> r == ct,
    {
        let mut ct = ct;
        if !ct.block_carries_are_empty() {
            self.full_propagate_parallelized(&mut ct);
        } else {
            proof {
                self.lemma_clean_value_small(ct.spec_blocks());
            }
        }
        ct
    }

    /// Quotient and remainder, after propagating the carries of the operands
    /// that have any.
    ///
    /// See `unchecked_div_rem_parallelized` for a divisor of 0.
    pub fn div_rem_parallelized<T: IntegerRadixCiphertext>(&self, numerator: &T, divisor: &T) -> (res: (T, T))
        requires
            self.wf(),
            self.division_operands(T::spec_is_signed(), numerator.spec_blocks(), divisor.spec_blocks()),
        ensures
            res.0.spec_blocks().len() == numerator.spec_blocks().len(),
            res.1.spec_blocks().len() == numerator.spec_blocks().len(),
            self.normalized(res.0.spec_blocks()),
            !T::spec_is_signed() ==> self.clean(res.0.spec_blocks()),
            self.normalized(res.1.spec_blocks()),
            !T::spec_is_signed() ==> self.clean(res.1.spec_blocks()),
            self.value(res.0.spec_blocks()) == self.quotient_of(T::spec_is_signed(), numerator.spec_blocks(), divisor.spec_blocks()),
            self.value(res.1.spec_blocks()) == self.remainder_of(T::spec_is_signed(), numerator.spec_blocks(), divisor.spec_blocks()),
    {
        match (numerator.block_carries_are_empty(), divisor.block_carries_are_empty()) {
            (true, true) => {
                proof {
                    self.lemma_clean_value_small(numerator.spec_blocks());
                    self.lemma_clean_value_small(divisor.spec_blocks());
                }
                self.unchecked_div_rem_parallelized(numerator, divisor)
            },
            (true, false) => {
                let tmp_divisor = self.propagated_clone(divisor);
                proof {
                    self.lemma_clean_value_small(numerator.spec_blocks());
                }
                self.unchecked_div_rem_parallelized(numerator, &tmp_divisor)
            },
            (false, true) => {
                let tmp_numerator = self.propagated_clone(numerator);
                proof {
                    self.lemma_clean_value_small(divisor.spec_blocks());
                }
                self.unchecked_div_rem_parallelized(&tmp_numerator, divisor)
            },
            (false, false) => {
                let propagate_numerator = || -> (r: T)
                    requires
                        self.wf(),
                        self.blocks_wf(numerator.spec_blocks()),
                    ensures
                        r.spec_blocks().len() == numerator.spec_blocks().len(),
                        self.clean(r.spec_blocks()),
                        self.value(r.spec_blocks()) == reduced(self.value(numerator.spec_blocks()), self.msg(), numerator.spec_blocks().len()),
                    { self.propagated_clone(numerator) };
                let propagate_divisor = || -> (r: T)
                    requires
                        self.wf(),
                        self.blocks_wf(divisor.spec_blocks()),
                    ensures
                        r.spec_blocks().len() == divisor.spec_blocks().len(),
                        self.clean(r.spec_blocks()),
                        self.value(r.spec_blocks()) == reduced(self.value(divisor.spec_blocks()), self.msg(), divisor.spec_blocks().len()),
                    { self.propagated_clone(divisor) };
                let (tmp_numerator, tmp_divisor) = join(propagate_numerator, propagate_divisor);
                self.unchecked_div_rem_parallelized(&tmp_numerator, &tmp_divisor)
            },
        }
    }

    /// Propagates the carries of the operands that have any, in place, then
    /// divides.
    pub fn smart_div_rem_parallelized<T: IntegerRadixCiphertext>(&self, numerator: &mut T, divisor: &mut T) -> (res: (T, T))
        requires
            self.wf(),
            self.division_operands(T::spec_is_signed(), old(numerator).spec_blocks(), old(divisor).spec_blocks()),
        ensures
            final(numerator).spec_blocks().len() == old(numerator).spec_blocks().len(),
            final(divisor).spec_blocks().len() == old(divisor).spec_blocks().len(),
            self.clean(final(numerator).spec_blocks()),
            self.clean(final(divisor).spec_blocks()),
            self.value(final(numerator).spec_blocks()) == reduced(self.value(old(numerator).spec_blocks()), self.msg(), old(numerator).spec_blocks().len()),
            self.value(final(divisor).spec_blocks()) == reduced(self.value(old(divisor).spec_blocks()), self.msg(), old(divisor).spec_blocks().len()),
            carries_empty(old(numerator).spec_blocks()) ==> *final(numerator) == *old(numerator),
            carries_empty(old(divisor).spec_blocks()) ==> *final(divisor) == *old(divisor),
            res.0.spec_blocks().len() == old(numerator).spec_blocks().len(),
            res.1.spec_blocks().len() == old(numerator).spec_blocks().len(),
            self.normalized(res.0.spec_blocks()),
            !T::spec_is_signed() ==> self.clean(res.0.spec_blocks()),
            self.normalized(res.1.spec_blocks()),
            !T::spec_is_signed() ==> self.clean(res.1.spec_blocks()),
            self.value(res.0.spec_blocks()) == self.quotient_of(T::spec_is_signed(), old(numerator).spec_blocks(), old(divisor).spec_blocks()),
            self.value(res.1.spec_blocks()) == self.remainder_of(T::spec_is_signed(), old(numerator).spec_blocks(), old(divisor).spec_blocks()),
    {
        // Each operand is propagated only when it has carries, both in
        // parallel: they are moved out, propagated and put back.
        let mut n = T::from_blocks(Vec::new());
        std::mem::swap(&mut n, numerator);
        let mut d = T::from_blocks(Vec::new());
        std::mem::swap(&mut d, divisor);
        let ghost n0 = n;
        let ghost d0 = d;
        let propagate_numerator = move || -> (r: T)
            requires
                self.wf(),
                self.blocks_wf(n.spec_blocks()),
            ensures
                r.spec_blocks().len() == n0.spec_blocks().len(),
                self.clean(r.spec_blocks()),
                self.value(r.spec_blocks()) == reduced(self.value(n0.spec_blocks()), self.msg(), n0.spec_blocks().len()),
                carries_empty(n0.spec_blocks()) ==> r == n0,
            { self.propagated_if_needed(n) };
        let propagate_divisor = move || -> (r: T)
            requires
                self.wf(),
                self.blocks_wf(d.spec_blocks()),
            ensures
                r.spec_blocks().len() == d0.spec_blocks().len(),
                self.clean(r.spec_blocks()),
                self.value(r.spec_blocks()) == reduced(self.value(d0.spec_blocks()), self.msg(), d0.spec_blocks().len()),
                carries_empty(d0.spec_blocks()) ==> r == d0,
            { self.propagated_if_needed(d) };
        let (n, d) = join(propagate_numerator, propagate_divisor);
        *numerator = n;
        *divisor = d;
        proof {
            self.lemma_clean_value_small(numerator.spec_blocks());
            self.lemma_clean_value_small(divisor.spec_blocks());
        }
        self.unchecked_div_rem_parallelized(numerator, divisor)
    }

    /// `numerator := numerator / divisor`, operands with empty carries.
    pub fn unchecked_div_assign_parallelized<T: IntegerRadixCiphertext>(&self, numerator: &mut T, divisor: &T)
        requires
            self.wf(),
            self.clean(old(numerator).spec_blocks()),
            self.clean(divisor.spec_blocks()),
            old(numerator).spec_blocks().len() == divisor.spec_blocks().len(),
            T::spec_is_signed() ==> old(numerator).spec_blocks().len() >= 1,
            old(numerator).spec_blocks().len() * 8 <= usize::MAX,
        ensures
            final(numerator).spec_blocks().len() == old(numerator).spec_blocks().len(),
            self.normalized(final(numerator).spec_blocks()),
            !T::spec_is_signed() ==> self.clean(final(numerator).spec_blocks()),
            self.value(final(numerator).spec_blocks()) == self.div_quotient(
                T::spec_is_signed(),
                self.value(old(numerator).spec_blocks()),
                self.value(divisor.spec_blocks()),
                old(numerator).spec_blocks().len(),
            ),
    {
        let (q, _r) = self.unchecked_div_rem_parallelized(numerator, divisor);
        *numerator = q;
    }

    /// `numerator / divisor`, operands with empty carries.
    pub fn unchecked_div_parallelized<T: IntegerRadixCiphertext>(&self, numerator: &T, divisor: &T) -> (q: T)
        requires
            self.wf(),
            self.clean(numerator.spec_blocks()),
            self.clean(divisor.spec_blocks()),
            numerator.spec_blocks().len() == divisor.spec_blocks().len(),
            T::spec_is_signed() ==> numerator.spec_blocks().len() >= 1,
            numerator.spec_blocks().len() * 8 <= usize::MAX,
        ensures
            q.spec_blocks().len() == numerator.spec_blocks().len(),
            self.normalized(q.spec_blocks()),
            !T::spec_is_signed() ==> self.clean(q.spec_blocks()),
            self.value(q.spec_blocks()) == self.div_quotient(
                T::spec_is_signed(),
                self.value(numerator.spec_blocks()),
                self.value(divisor.spec_blocks()),
                numerator.spec_blocks().len(),
            ),
    {
        let (q, _r) = self.unchecked_div_rem_parallelized(numerator, divisor);
        q
    }

    /// `numerator := numerator / divisor`; the carries of both operands are
    /// propagated in place first.
    pub fn smart_div_assign_parallelized<T: IntegerRadixCiphertext>(&self, numerator: &mut T, divisor: &mut T)
        requires
            self.wf(),
            self.division_operands(T::spec_is_signed(), old(numerator).spec_blocks(), old(divisor).spec_blocks()),
        ensures
            final(numerator).spec_blocks().len() == old(numerator).spec_blocks().len(),
            final(divisor).spec_blocks().len() == old(divisor).spec_blocks().len(),
            self.clean(final(divisor).spec_blocks()),
            self.value(final(divisor).spec_blocks()) == reduced(self.value(old(divisor).spec_blocks()), self.msg(), old(divisor).spec_blocks().len()),
            carries_empty(old(divisor).spec_blocks()) ==> *final(divisor) == *old(divisor),
            self.normalized(final(numerator).spec_blocks()),
            !T::spec_is_signed() ==> self.clean(final(numerator).spec_blocks()),
            self.value(final(numerator).spec_blocks()) == self.quotient_of(T::spec_is_signed(), old(numerator).spec_blocks(), old(divisor).spec_blocks()),
    {
        let (q, _r) = self.smart_div_rem_parallelized(numerator, divisor);
        *numerator = q;
    }

    /// `numerator / divisor`; the carries of both operands are propagated in
    /// place first.
    pub fn smart_div_parallelized<T: IntegerRadixCiphertext>(&self, numerator: &mut T, divisor: &mut T) -> (q: T)
        requires
            self.wf(),
            self.division_operands(T::spec_is_signed(), old(numerator).spec_blocks(), old(divisor).spec_blocks()),
        ensures
            final(numerator).spec_blocks().len() == old(numerator).spec_blocks().len(),
            final(divisor).spec_blocks().len() == old(divisor).spec_blocks().len(),
            self.clean(final(numerator).spec_blocks()),
            self.clean(final(divisor).spec_blocks()),
            self.value(final(numerator).spec_blocks()) == reduced(self.value(old(numerator).spec_blocks()), self.msg(), old(numerator).spec_blocks().len()),
            self.value(final(divisor).spec_blocks()) == reduced(self.value(old(divisor).spec_blocks()), self.msg(), old(divisor).spec_blocks().len()),
            carries_empty(old(numerator).spec_blocks()) ==> *final(numerator) == *old(numerator),
            carries_empty(old(divisor).spec_blocks()) ==> *final(divisor) == *old(divisor),
            q.spec_blocks().len() == old(numerator).spec_blocks().len(),
            self.normalized(q.spec_blocks()),
            !T::spec_is_signed() ==> self.clean(q.spec_blocks()),
            self.value(q.spec_blocks()) == self.quotient_of(T::spec_is_signed(), old(numerator).spec_blocks(), old(divisor).spec_blocks()),
    {
        let (q, _r) = self.smart_div_rem_parallelized(numerator, divisor);
        q
    }

    /// `numerator := numerator / divisor`, after propagating the carries of
    /// the operands that have any (those of `numerator` in place).
    pub fn div_assign_parallelized<T: IntegerRadixCiphertext>(&self, numerator: &mut T, divisor: &T)
        requires
            self.wf(),
            self.division_operands(T::spec_is_signed(), old(numerator).spec_blocks(), divisor.spec_blocks()),
        ensures
            final(numerator).spec_blocks().len() == old(numerator).spec_blocks().len(),
            self.normalized(final(numerator).spec_blocks()),
            !T::spec_is_signed() ==> self.clean(final(numerator).spec_blocks()),
            self.value(final(numerator).spec_blocks()) == self.quotient_of(T::spec_is_signed(), old(numerator).spec_blocks(), divisor.spec_blocks()),
    {
        let (q, _r) = self.propagate_and_div_rem(numerator, divisor);
        *numerator = q;
    }

    /// Propagates the carries of the numerator in place and those of a copy
    /// of the divisor, when they have any, then divides.
    fn propagate_and_div_rem<T: IntegerRadixCiphertext>(&self, numerator: &mut T, divisor: &T) -> (res: (T, T))
        requires
            self.wf(),
            self.division_operands(T::spec_is_signed(), old(numerator).spec_blocks(), divisor.spec_blocks()),
        ensures
            final(numerator).spec_blocks().len() == old(numerator).spec_blocks().len(),
            res.0.spec_blocks().len() == old(numerator).spec_blocks().len(),
            res.1.spec_blocks().len() == old(numerator).spec_blocks().len(),
            self.normalized(res.0.spec_blocks()),
            !T::spec_is_signed() ==> self.clean(res.0.spec_blocks()),
            self.normalized(res.1.spec_blocks()),
            !T::spec_is_signed() ==> self.clean(res.1.spec_blocks()),
            self.value(res.0.spec_blocks()) == self.quotient_of(T::spec_is_signed(), old(numerator).spec_blocks(), divisor.spec_blocks()),
            self.value(res.1.spec_blocks()) == self.remainder_of(T::spec_is_signed(), old(numerator).spec_blocks(), divisor.spec_blocks()),
    {
        match (numerator.block_carries_are_empty(), divisor.block_carries_are_empty()) {
            (true, true) => {
                proof {
                    self.lemma_clean_value_small(numerator.spec_blocks());
                    self.lemma_clean_value_small(divisor.spec_blocks());
                }
                self.unchecked_div_rem_parallelized(numerator, divisor)
            },
            (true, false) => {
                let tmp_divisor = self.propagated_clone(divisor);
                proof {
                    self.lemma_clean_value_small(numerator.spec_blocks());
                }
                self.unchecked_div_rem_parallelized(numerator, &tmp_divisor)
            },
            (false, true) => {
                self.full_propagate_parallelized(numerator);
                proof {
                    self.lemma_clean_value_small(divisor.spec_blocks());
                }
                self.unchecked_div_rem_parallelized(numerator, divisor)
            },
            (false, false) => {
                // The numerator is moved out, propagated in parallel with a
                // copy of the divisor, and put back.
                let mut n = T::from_blocks(Vec::new());
                std::mem::swap(&mut n, numerator);
                let ghost n0 = n;
                let propagate_numerator = move || -> (r: T)
                    requires
                        self.wf(),
                        self.blocks_wf(n.spec_blocks()),
                    ensures
                        r.spec_blocks().len() == n0.spec_blocks().len(),
                        self.clean(r.spec_blocks()),
                        self.value(r.spec_blocks()) == reduced(self.value(n0.spec_blocks()), self.msg(), n0.spec_blocks().len()),
                    {
                        let mut n = n;
                        self.full_propagate_parallelized(&mut n);
                        n
                    };
                let propagate_divisor = || -> (r: T)
                    requires
                        self.wf(),
                        self.blocks_wf(divisor.spec_blocks()),
                    ensures
                        r.spec_blocks().len() == divisor.spec_blocks().len(),
                        self.clean(r.spec_blocks()),
                        self.value(r.spec_blocks()) == reduced(self.value(divisor.spec_blocks()), self.msg(), divisor.spec_blocks().len()),
                    { self.propagated_clone(divisor) };
                let (n, tmp_divisor) = join(propagate_numerator, propagate_divisor);
                *numerator = n;
                self.unchecked_div_rem_parallelized(numerator, &tmp_divisor)
            },
        }
    }

    /// `numerator / divisor`, after propagating the carries of the operands
    /// that have any.
    pub fn div_parallelized<T: IntegerRadixCiphertext>(&self, numerator: &T, divisor: &T) -> (q: T)
        requires
            self.wf(),
            self.division_operands(T::spec_is_signed(), numerator.spec_blocks(), divisor.spec_blocks()),
        ensures
            q.spec_blocks().len() == numerator.spec_blocks().len(),
            self.normalized(q.spec_blocks()),
            !T::spec_is_signed() ==> self.clean(q.spec_blocks()),
            self.value(q.spec_blocks()) == self.quotient_of(T::spec_is_signed(), numerator.spec_blocks(), divisor.spec_blocks()),
    {
        let (q, _r) = self.div_rem_parallelized(numerator, divisor);
        q
    }

    /// `numerator := numerator % divisor`, operands with empty carries.
    pub fn unchecked_rem_assign_parallelized<T: IntegerRadixCiphertext>(&self, numerator: &mut T, divisor: &T)
        requires
            self.wf(),
            self.clean(old(numerator).spec_blocks()),
            self.clean(divisor.spec_blocks()),
            old(numerator).spec_blocks().len() == divisor.spec_blocks().len(),
            T::spec_is_signed() ==> old(numerator).spec_blocks().len() >= 1,
            old(numerator).spec_blocks().len() * 8 <= usize::MAX,
        ensures
            final(numerator).spec_blocks().len() == old(numerator).spec_blocks().len(),
            self.normalized(final(numerator).spec_blocks()),
            !T::spec_is_signed() ==> self.clean(final(numerator).spec_blocks()),
            self.value(final(numerator).spec_blocks()) == self.div_remainder(
                T::spec_is_signed(),
                self.value(old(numerator).spec_blocks()),
                self.value(divisor.spec_blocks()),
                old(numerator).spec_blocks().len(),
            ),
    {
        let (_q, r) = self.unchecked_div_rem_parallelized(numerator, divisor);
        *numerator = r;
    }

    /// `numerator % divisor`, operands with empty carries.
    pub fn unchecked_rem_parallelized<T: IntegerRadixCiphertext>(&self, numerator: &T, divisor: &T) -> (r: T)
        requires
            self.wf(),
            self.clean(numerator.spec_blocks()),
            self.clean(divisor.spec_blocks()),
            numerator.spec_blocks().len() == divisor.spec_blocks().len(),
            T::spec_is_signed() ==> numerator.spec_blocks().len() >= 1,
            numerator.spec_blocks().len() * 8 <= usize::MAX,
        ensures
            r.spec_blocks().len() == numerator.spec_blocks().len(),
            self.normalized(r.spec_blocks()),
            !T::spec_is_signed() ==> self.clean(r.spec_blocks()),
            self.value(r.spec_blocks()) == self.div_remainder(
                T::spec_is_signed(),
                self.value(numerator.spec_blocks()),
                self.value(divisor.spec_blocks()),
                numerator.spec_blocks().len(),
            ),
    {
        let (_q, r) = self.unchecked_div_rem_parallelized(numerator, divisor);
        r
    }

    /// `numerator := numerator % divisor`; the carries of both operands are
    /// propagated in place first.
    pub fn smart_rem_assign_parallelized<T: IntegerRadixCiphertext>(&self, numerator: &mut T, divisor: &mut T)
        requires
            self.wf(),
            self.division_operands(T::spec_is_signed(), old(numerator).spec_blocks(), old(divisor).spec_blocks()),
        ensures
            final(numerator).spec_blocks().len() == old(numerator).spec_blocks().len(),
            final(divisor).spec_blocks().len() == old(divisor).spec_blocks().len(),
            self.clean(final(divisor).spec_blocks()),
            self.value(final(divisor).spec_blocks()) == reduced(self.value(old(divisor).spec_blocks()), self.msg(), old(divisor).spec_blocks().len()),
            carries_empty(old(divisor).spec_blocks()) ==> *final(divisor) == *old(divisor),
            self.normalized(final(numerator).spec_blocks()),
            !T::spec_is_signed() ==> self.clean(final(numerator).spec_blocks()),
            self.value(final(numerator).spec_blocks()) == self.remainder_of(T::spec_is_signed(), old(numerator).spec_blocks(), old(divisor).spec_blocks()),
    {
        let (_q, r) = self.smart_div_rem_parallelized(numerator, divisor);
        *numerator = r;
    }

    /// `numerator % divisor`; the carries of both operands are propagated in
    /// place first.
    pub fn smart_rem_parallelized<T: IntegerRadixCiphertext>(&self, numerator: &mut T, divisor: &mut T) -> (r: T)
        requires
            self.wf(),
            self.division_operands(T::spec_is_signed(), old(numerator).spec_blocks(), old(divisor).spec_blocks()),
        ensures
            final(numerator).spec_blocks().len() == old(numerator).spec_blocks().len(),
            final(divisor).spec_blocks().len() == old(divisor).spec_blocks().len(),
            self.clean(final(numerator).spec_blocks()),
            self.clean(final(divisor).spec_blocks()),
            self.value(final(numerator).spec_blocks()) == reduced(self.value(old(numerator).spec_blocks()), self.msg(), old(numerator).spec_blocks().len()),
            self.value(final(divisor).spec_blocks()) == reduced(self.value(old(divisor).spec_blocks()), self.msg(), old(divisor).spec_blocks().len()),
            carries_empty(old(numerator).spec_blocks()) ==> *final(numerator) == *old(numerator),
            carries_empty(old(divisor).spec_blocks()) ==> *final(divisor) == *old(divisor),
            r.spec_blocks().len() == old(numerator).spec_blocks().len(),
            self.normalized(r.spec_blocks()),
            !T::spec_is_signed() ==> self.clean(r.spec_blocks()),
            self.value(r.spec_blocks()) == self.remainder_of(T::spec_is_signed(), old(numerator).spec_blocks(), old(divisor).spec_blocks()),
    {
        let (_q, r) = self.smart_div_rem_parallelized(numerator, divisor);
        r
    }

    /// `numerator := numerator % divisor`, after propagating the carries of
    /// the operands that have any (those of `numerator` in place).
    pub fn rem_assign_parallelized<T: IntegerRadixCiphertext>(&self, numerator: &mut T, divisor: &T)
        requires
            self.wf(),
            self.division_operands(T::spec_is_signed(), old(numerator).spec_blocks(), divisor.spec_blocks()),
        ensures
            final(numerator).spec_blocks().len() == old(numerator).spec_blocks().len(),
            self.normalized(final(numerator).spec_blocks()),
            !T::spec_is_signed() ==> self.clean(final(numerator).spec_blocks()),
            self.value(final(numerator).spec_blocks()) == self.remainder_of(T::spec_is_signed(), old(numerator).spec_blocks(), divisor.spec_blocks()),
    {
        let (_q, r) = self.propagate_and_div_rem(numerator, divisor);
        *numerator = r;
    }

    /// `numerator % divisor`, after propagating the carries of the operands
    /// that have any.
    pub fn rem_parallelized<T: IntegerRadixCiphertext>(&self, numerator: &T, divisor: &T) -> (r: T)
        requires
            self.wf(),
            self.division_operands(T::spec_is_signed(), numerator.spec_blocks(), divisor.spec_blocks()),
        ensures
            r.spec_blocks().len() == numerator.spec_blocks().len(),
            self.normalized(r.spec_blocks()),
            !T::spec_is_signed() ==> self.clean(r.spec_blocks()),
            self.value(r.spec_blocks()) == self.remainder_of(T::spec_is_signed(), numerator.spec_blocks(), divisor.spec_blocks()),
    {
        let (_q, r) = self.div_rem_parallelized(numerator, divisor);
        r
    }

    /// Quotient, remainder, and a boolean block that is 1 exactly when every
    /// block of the divisor holds 0.
    pub fn checked_div_rem_parallelized<T: IntegerRadixCiphertext>(&self, numerator: &T, divisor: &T) -> (res: (T, T, BooleanBlock))
        requires
            self.wf(),
            self.division_operands(T::spec_is_signed(), numerator.spec_blocks(), divisor.spec_blocks()),
        ensures
            res.0.spec_blocks().len() == numerator.spec_blocks().len(),
            res.1.spec_blocks().len() == numerator.spec_blocks().len(),
            self.normalized(res.0.spec_blocks()),
            !T::spec_is_signed() ==> self.clean(res.0.spec_blocks()),
            self.normalized(res.1.spec_blocks()),
            !T::spec_is_signed() ==> self.clean(res.1.spec_blocks()),
            self.value(res.0.spec_blocks()) == self.quotient_of(T::spec_is_signed(), numerator.spec_blocks(), divisor.spec_blocks()),
            self.value(res.1.spec_blocks()) == self.remainder_of(T::spec_is_signed(), numerator.spec_blocks(), divisor.spec_blocks()),
            self.boolean_wf(res.2.0),
            res.2.0.value == bit(all_zero(divisor.spec_blocks())),
    {
        let divide = || -> (r: (T, T))
            requires
                self.wf(),
                self.division_operands(T::spec_is_signed(), numerator.spec_blocks(), divisor.spec_blocks()),
            ensures
                r.0.spec_blocks().len() == numerator.spec_blocks().len(),
                r.1.spec_blocks().len() == numerator.spec_blocks().len(),
                self.normalized(r.0.spec_blocks()),
                !T::spec_is_signed() ==> self.clean(r.0.spec_blocks()),
                self.normalized(r.1.spec_blocks()),
                !T::spec_is_signed() ==> self.clean(r.1.spec_blocks()),
                self.value(r.0.spec_blocks()) == self.quotient_of(T::spec_is_signed(), numerator.spec_blocks(), divisor.spec_blocks()),
                self.value(r.1.spec_blocks()) == self.remainder_of(T::spec_is_signed(), numerator.spec_blocks(), divisor.spec_blocks()),
            { self.div_rem_parallelized(numerator, divisor) };
        let divisor_is_zero = || -> (b: Ciphertext)
            requires
                self.wf(),
            ensures
                self.boolean_wf(b),
                b.value == bit(all_zero(divisor.spec_blocks())),
            { self.are_all_blocks_zero(divisor.blocks()) };
        let ((q, r), div_by_0) = join(divide, divisor_is_zero);
        (q, r, BooleanBlock::new_unchecked(div_by_0))
    }

    /// Quotient and a boolean block that is 1 exactly when every block of
    /// the divisor holds 0.
    pub fn checked_div_parallelized<T: IntegerRadixCiphertext>(&self, numerator: &T, divisor: &T) -> (res: (T, BooleanBlock))
        requires
            self.wf(),
            self.division_operands(T::spec_is_signed(), numerator.spec_blocks(), divisor.spec_blocks()),
        ensures
            res.0.spec_blocks().len() == numerator.spec_blocks().len(),
            self.normalized(res.0.spec_blocks()),
            !T::spec_is_signed() ==> self.clean(res.0.spec_blocks()),
            self.value(res.0.spec_blocks()) == self.quotient_of(T::spec_is_signed(), numerator.spec_blocks(), divisor.spec_blocks()),
            self.boolean_wf(res.1.0),
            res.1.0.value == bit(all_zero(divisor.spec_blocks())),
    {
        let divide = || -> (q: T)
            requires
                self.wf(),
                self.division_operands(T::spec_is_signed(), numerator.spec_blocks(), divisor.spec_blocks()),
            ensures
                q.spec_blocks().len() == numerator.spec_blocks().len(),
                self.normalized(q.spec_blocks()),
                !T::spec_is_signed() ==> self.clean(q.spec_blocks()),
                self.value(q.spec_blocks()) == self.quotient_of(T::spec_is_signed(), numerator.spec_blocks(), divisor.spec_blocks()),
            { self.div_parallelized(numerator, divisor) };
        let divisor_is_zero = || -> (b: Ciphertext)
            requires
                self.wf(),
            ensures
                self.boolean_wf(b),
                b.value == bit(all_zero(divisor.spec_blocks())),
            { self.are_all_blocks_zero(divisor.blocks()) };
        let (q, div_by_0) = join(divide, divisor_is_zero);
        (q, BooleanBlock::new_unchecked(div_by_0))
    }

    /// Remainder and a boolean block that is 1 exactly when every block of
    /// the divisor holds 0.
    pub fn checked_rem_parallelized<T: IntegerRadixCiphertext>(&self, numerator: &T, divisor: &T) -> (res: (T, BooleanBlock))
        requires
            self.wf(),
            self.division_operands(T::spec_is_signed(), numerator.spec_blocks(), divisor.spec_blocks()),
        ensures
            res.0.spec_blocks().len() == numerator.spec_blocks().len(),
            self.normalized(res.0.spec_blocks()),
            !T::spec_is_signed() ==> self.clean(res.0.spec_blocks()),
            self.value(res.0.spec_blocks()) == self.remainder_of(T::spec_is_signed(), numerator.spec_blocks(), divisor.spec_blocks()),
            self.boolean_wf(res.1.0),
            res.1.0.value == bit(all_zero(divisor.spec_blocks())),
    {
        let remainder = || -> (r: T)
            requires
                self.wf(),
                self.division_operands(T::spec_is_signed(), numerator.spec_blocks(), divisor.spec_blocks()),
            ensures
                r.spec_blocks().len() == numerator.spec_blocks().len(),
                self.normalized(r.spec_blocks()),
                !T::spec_is_signed() ==> self.clean(r.spec_blocks()),
                self.value(r.spec_blocks()) == self.remainder_of(T::spec_is_signed(), numerator.spec_blocks(), divisor.spec_blocks()),
            { self.rem_parallelized(numerator, divisor) };
        let divisor_is_zero = || -> (b: Ciphertext)
            requires
                self.wf(),
            ensures
                self.boolean_wf(b),
                b.value == bit(all_zero(divisor.spec_blocks())),
            { self.are_all_blocks_zero(divisor.blocks()) };
        let (r, rem_by_0) = join(remainder, divisor_is_zero);
        (r, BooleanBlock::new_unchecked(rem_by_0))
    }

}

} // verus!
