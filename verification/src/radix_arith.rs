//! Carry-propagating radix arithmetic, selection and absolute value.
use crate::radix::{
    copy_blocks, lemma_radix_injective, lemma_radix_same_values,
    lemma_radix_split, lemma_pow_nat_positive, lemma_radix_bound, pow_nat, radix_value,
    BooleanBlock, IntegerRadixCiphertext, RadixCiphertext, SignedRadixCiphertext,
};
use crate::radix_ops::bit;
use crate::server_key::{reduced, ServerKey};
use crate::shortint::{bivariate_lut_entry, lut_entry, packed_index, Ciphertext};
use vstd::arithmetic::power2::pow2;
use vstd::prelude::*;

verus! {

/// The two's complement reading of `v`, an integer below `m`.
pub open spec fn signed_value(v: nat, m: nat) -> int {
    if v >= m / 2 {
        v as int - m as int
    } else {
        v as int
    }
}

/// `|signed_value(v, m)|` as an unsigned value below `m` (the minimum stays put).
pub open spec fn abs_residue(v: nat, m: nat) -> nat {
    if v >= m / 2 {
        ((m as int - v as int) % (m as int)) as nat
    } else {
        v
    }
}

/// `(a - b)` reduced into `[0, m)`.
pub open spec fn sub_mod(a: int, b: int, m: nat) -> nat {
    ((a - b) % (m as int)) as nat
}

impl ServerKey {
    /// A copy of the blocks with carries propagated when there are any.
    pub fn cleaned_blocks(&self, blocks: &[Ciphertext]) -> (r: Vec<Ciphertext>)
        requires
            self.wf(),
            self.blocks_wf(blocks@),
        ensures
            r@.len() == blocks@.len(),
            self.clean(r@),
            self.value(r@) == reduced(self.value(blocks@), self.msg(), blocks@.len()),
            self.clean(blocks@) ==> r@ == blocks@,
    {
        if crate::radix::blocks_carries_are_empty(blocks) {
            proof {
                self.lemma_clean_value_small(blocks@);
            }
            copy_blocks(blocks)
        } else {
            self.full_propagate_blocks(blocks)
        }
    }

    /// `lhs - rhs` modulo `msg ^ len` and whether it wrapped, after
    /// propagating the carries of both operands.
    pub fn unsigned_overflowing_sub_parallelized(
        &self,
        lhs: &RadixCiphertext,
        rhs: &RadixCiphertext,
    ) -> (res: (RadixCiphertext, BooleanBlock))
        requires
            self.wf(),
            self.blocks_wf(lhs.blocks@),
            self.blocks_wf(rhs.blocks@),
            lhs.blocks@.len() == rhs.blocks@.len(),
        ensures
            res.0.blocks@.len() == lhs.blocks@.len(),
            self.clean(res.0.blocks@),
            self.value(res.0.blocks@) == sub_mod(
                reduced(self.value(lhs.blocks@), self.msg(), lhs.blocks@.len()) as int,
                reduced(self.value(rhs.blocks@), self.msg(), rhs.blocks@.len()) as int,
                self.modulus(lhs.blocks@.len()),
            ),
            self.boolean_wf(res.1.0),
            res.1.0.value == bit(
                reduced(self.value(lhs.blocks@), self.msg(), lhs.blocks@.len()) < reduced(
                    self.value(rhs.blocks@),
                    self.msg(),
                    rhs.blocks@.len(),
                ),
            ),
    {
        let l = RadixCiphertext { blocks: self.cleaned_blocks(lhs.blocks.as_slice()) };
        let r = RadixCiphertext { blocks: self.cleaned_blocks(rhs.blocks.as_slice()) };
        proof {
            self.lemma_clean_normalized(l.blocks@);
            self.lemma_clean_normalized(r.blocks@);
            lemma_pow_nat_positive(self.msg(), lhs.blocks@.len());
        }
        self.unchecked_unsigned_overflowing_sub_parallelized(&l, &r)
    }

    /// `lhs := lhs - rhs` modulo `msg ^ len`.
    pub fn sub_assign_parallelized(&self, lhs: &mut RadixCiphertext, rhs: &RadixCiphertext)
        requires
            self.wf(),
            self.blocks_wf(old(lhs).blocks@),
            self.blocks_wf(rhs.blocks@),
            old(lhs).blocks@.len() == rhs.blocks@.len(),
        ensures
            final(lhs).blocks@.len() == old(lhs).blocks@.len(),
            self.clean(final(lhs).blocks@),
            self.value(final(lhs).blocks@) == sub_mod(
                reduced(self.value(old(lhs).blocks@), self.msg(), rhs.blocks@.len()) as int,
                reduced(self.value(rhs.blocks@), self.msg(), rhs.blocks@.len()) as int,
                self.modulus(rhs.blocks@.len()),
            ),
    {
        let (d, _overflowed) = self.unsigned_overflowing_sub_parallelized(lhs, rhs);
        *lhs = d;
    }

    /// `-ct` modulo `msg ^ len`.
    pub fn neg_parallelized(&self, ct: &RadixCiphertext) -> (r: RadixCiphertext)
        requires
            self.wf(),
            self.blocks_wf(ct.blocks@),
        ensures
            r.blocks@.len() == ct.blocks@.len(),
            self.clean(r.blocks@),
            self.value(r.blocks@) == sub_mod(
                0,
                reduced(self.value(ct.blocks@), self.msg(), ct.blocks@.len()) as int,
                self.modulus(ct.blocks@.len()),
            ),
    {
        let zero = self.create_trivial_zero_radix(ct.blocks.len());
        proof {
            self.lemma_clean_value_small(zero.blocks@);
        }
        let (r, _overflowed) = self.unsigned_overflowing_sub_parallelized(&zero, ct);
        r
    }

    /// `lhs := lhs + rhs` modulo `msg ^ len`, carries propagated.
    pub fn add_assign_parallelized<T: IntegerRadixCiphertext>(&self, lhs: &mut T, rhs: &T)
        requires
            self.wf(),
            self.blocks_wf(old(lhs).spec_blocks()),
            self.blocks_wf(rhs.spec_blocks()),
            old(lhs).spec_blocks().len() == rhs.spec_blocks().len(),
        ensures
            final(lhs).spec_blocks().len() == old(lhs).spec_blocks().len(),
            self.clean(final(lhs).spec_blocks()),
            self.value(final(lhs).spec_blocks()) == (reduced(
                self.value(old(lhs).spec_blocks()),
                self.msg(),
                rhs.spec_blocks().len(),
            ) + reduced(self.value(rhs.spec_blocks()), self.msg(), rhs.spec_blocks().len())) % self.modulus(
                rhs.spec_blocks().len(),
            ),
    {
        proof {
            self.lemma_wf();
        }
        let mut l = RadixCiphertext { blocks: self.cleaned_blocks(lhs.blocks()) };
        let r = RadixCiphertext { blocks: self.cleaned_blocks(rhs.blocks()) };
        proof {
            assert(self.msg() * self.msg() <= self.key.size());
            assert(2 * self.msg() <= self.key.size()) by (nonlinear_arith)
                requires
                    self.msg() * self.msg() <= self.key.size(),
                    self.msg() >= 2,
            ;
            assert forall|i: int| 0 <= i < r.blocks@.len() implies (#[trigger] l.blocks@[i].value
                + r.blocks@[i].value) < self.key.size() && l.blocks@[i].degree
                + r.blocks@[i].degree <= crate::shortint::DEGREE_BOUND by {
                assert(self.key.block_wf(l.blocks@[i]));
                assert(self.key.block_wf(r.blocks@[i]));
                assert(l.blocks@[i].degree < l.blocks@[i].message_modulus.0);
                assert(r.blocks@[i].degree < r.blocks@[i].message_modulus.0);
            }
        }
        self.unchecked_add_assign(&mut l, &r);
        let blocks = self.full_propagate_blocks(l.blocks.as_slice());
        lhs.set_blocks(blocks);
    }

    /// `ct := ct - scalar` modulo `msg ^ len`.
    pub fn scalar_sub_assign_parallelized<T: IntegerRadixCiphertext>(&self, ct: &mut T, scalar: u64)
        requires
            self.wf(),
            self.blocks_wf(old(ct).spec_blocks()),
        ensures
            final(ct).spec_blocks().len() == old(ct).spec_blocks().len(),
            self.clean(final(ct).spec_blocks()),
            self.value(final(ct).spec_blocks()) == sub_mod(
                reduced(self.value(old(ct).spec_blocks()), self.msg(), old(ct).spec_blocks().len())
                    as int,
                reduced(scalar as nat, self.msg(), old(ct).spec_blocks().len()) as int,
                self.modulus(old(ct).spec_blocks().len()),
            ),
    {
        let l = RadixCiphertext { blocks: copy_blocks(ct.blocks()) };
        let s = self.create_trivial_radix(scalar, l.blocks.len());
        proof {
            self.lemma_clean_value_small(s.blocks@);
        }
        let (d, _overflowed) = self.unsigned_overflowing_sub_parallelized(&l, &s);
        ct.set_blocks(d.blocks);
    }

    /// A boolean block that is 1 exactly when the integer differs from
    /// `scalar` (reduced modulo `msg ^ len`).
    pub fn unchecked_scalar_ne_parallelized<T: IntegerRadixCiphertext>(
        &self,
        ct: &T,
        scalar: u64,
    ) -> (r: BooleanBlock)
        requires
            self.wf(),
            self.normalized(ct.spec_blocks()),
        ensures
            self.boolean_wf(r.0),
            r.0.value == bit(
                self.value(ct.spec_blocks()) != reduced(
                    scalar as nat,
                    self.msg(),
                    ct.spec_blocks().len(),
                ),
            ),
    {
        let blocks = ct.blocks();
        let s = self.create_trivial_radix(scalar, blocks.len());
        let mut i: usize = 0;
        let mut differ: bool = false;
        while i < blocks.len()
            invariant
                blocks@ == ct.spec_blocks(),
                s.blocks@.len() == blocks@.len(),
                i <= blocks@.len(),
                differ == exists|j: int| 0 <= j < i && #[trigger] blocks@[j].value != s.blocks@[j].value,
            decreases blocks@.len() - i,
        {
            if blocks[i].value != s.blocks[i].value {
                differ = true;
            }
            i = i + 1;
        }
        proof {
            self.lemma_wf();
            self.lemma_clean_normalized(s.blocks@);
            if differ {
                let j = choose|j: int| 0 <= j < blocks@.len() && #[trigger] blocks@[j].value != s.blocks@[j].value;
                if self.value(blocks@) == self.value(s.blocks@) {
                    lemma_radix_injective(blocks@, s.blocks@, self.msg());
                }
            } else {
                lemma_radix_same_values(blocks@, s.blocks@, self.msg());
            }
        }
        BooleanBlock(self.boolean_block(differ))
    }

    /// Block by block, takes `true_ct` where `conditional_fn` holds on the
    /// condition block and `false_ct` elsewhere.
    pub fn unchecked_programmable_if_then_else_parallelized<T: IntegerRadixCiphertext, F: Fn(
        u64,
    ) -> bool>(
        &self,
        condition_block: &Ciphertext,
        true_ct: &T,
        false_ct: &T,
        conditional_fn: F,
        dont_clean_output: bool,
    ) -> (r: T)
        requires
            self.wf(),
            self.key.block_wf(*condition_block),
            self.normalized(true_ct.spec_blocks()),
            self.normalized(false_ct.spec_blocks()),
            true_ct.spec_blocks().len() == false_ct.spec_blocks().len(),
            forall|x: u64| (x as nat) < self.key.size() ==> #[trigger] conditional_fn.requires((x,)),
        ensures
            r.spec_blocks().len() == true_ct.spec_blocks().len(),
            self.normalized(r.spec_blocks()),
            !dont_clean_output ==> self.clean(r.spec_blocks()),
            exists|c: bool|
                #[trigger] conditional_fn.ensures((condition_block.value,), c) && forall|i: int|
                    0 <= i < r.spec_blocks().len() ==> #[trigger] r.spec_blocks()[i].value == (if c {
                        true_ct.spec_blocks()[i].value
                    } else {
                        false_ct.spec_blocks()[i].value
                    }),
    {
        proof {
            self.lemma_wf();
        }
        let msg = self.key.message_modulus.0;
        let cf = &conditional_fn;
        let to_block = move |x: u64| -> (r: u64)
            requires
                cf.requires((x,)),
            ensures
                exists|c: bool| #[trigger] cf.ensures((x,), c) && r == bit(c),
            {
                if cf(x) {
                    1
                } else {
                    0
                }
            };
        let cond_lut = self.key.generate_lookup_table(to_block);
        let cond = self.key.apply_lookup_table(condition_block, &cond_lut);
        let ghost c: bool;
        proof {
            assert(lut_entry(to_block, condition_block.value, cond_lut.table@[condition_block.value as int], self.key.size()));
            let r = choose|r: u64| #[trigger] to_block.ensures((condition_block.value,), r) && cond_lut.table@[condition_block.value as int] as nat == r as nat % self.key.size();
            c = choose|c: bool| #[trigger] conditional_fn.ensures((condition_block.value,), c) && r == bit(c);
            vstd::arithmetic::div_mod::lemma_small_mod(r as nat, self.key.size());
            assert(cond.value == bit(c));
            let w = choose|i: int| 0 <= i < cond_lut.table@.len() && #[trigger] cond_lut.table@[i] == cond_lut.degree;
            assert(cond_lut.table@[w] < self.key.size());
        }
        let keep_if_true = |block: u64, condition: u64| -> (r: u64)
            ensures
                r == (if condition == 1 {
                    block
                } else {
                    0
                }),
            {
                if condition == 1 {
                    block
                } else {
                    0
                }
            };
        let keep_if_false = |block: u64, condition: u64| -> (r: u64)
            ensures
                r == (if condition == 0 {
                    block
                } else {
                    0
                }),
            {
                if condition == 0 {
                    block
                } else {
                    0
                }
            };
        let true_lut = self.key.generate_lookup_table_bivariate(keep_if_true);
        let false_lut = self.key.generate_lookup_table_bivariate(keep_if_false);
        proof {
            let i = choose|i: int| 0 <= i < true_lut.acc.table@.len() && #[trigger] true_lut.acc.table@[i] == true_lut.acc.degree;
            let y = i as u64;
            assert(bivariate_lut_entry(keep_if_true, (y / msg) % msg, (y % msg) % msg, true_lut.acc.table@[i], self.key.size()));
            let o = choose|o: u64| #[trigger] keep_if_true.ensures(((y / msg) % msg, (y % msg) % msg), o) && true_lut.acc.table@[i] as nat == o as nat % self.key.size();
            vstd::arithmetic::div_mod::lemma_small_mod(o as nat, self.key.size());
            assert(true_lut.acc.degree < msg);
            let i2 = choose|i: int| 0 <= i < false_lut.acc.table@.len() && #[trigger] false_lut.acc.table@[i] == false_lut.acc.degree;
            let y2 = i2 as u64;
            assert(bivariate_lut_entry(keep_if_false, (y2 / msg) % msg, (y2 % msg) % msg, false_lut.acc.table@[i2], self.key.size()));
            let o2 = choose|o: u64| #[trigger] keep_if_false.ensures(((y2 / msg) % msg, (y2 % msg) % msg), o) && false_lut.acc.table@[i2] as nat == o as nat % self.key.size();
            vstd::arithmetic::div_mod::lemma_small_mod(o2 as nat, self.key.size());
            assert(false_lut.acc.degree < msg);
        }
        let tb = true_ct.blocks();
        let fb = false_ct.blocks();
        proof {
            assert(2 * self.msg() <= self.key.size()) by (nonlinear_arith)
                requires
                    self.msg() * self.msg() <= self.key.size(),
                    self.msg() >= 2,
            ;
        }
        let mut out: Vec<Ciphertext> = Vec::new();
        let mut i: usize = 0;
        while i < tb.len()
            invariant
                self.wf(),
                msg as nat == self.msg(),
                2 <= msg <= 128,
                self.msg() * self.msg() <= self.key.size(),
                self.msg() <= self.key.size(),
                2 * self.msg() <= self.key.size(),
                self.key.size() < 0x1_0000,
                tb@ == true_ct.spec_blocks(),
                fb@ == false_ct.spec_blocks(),
                tb@.len() == fb@.len(),
                self.normalized(tb@),
                self.normalized(fb@),
                self.key.block_wf(cond),
                cond.value == bit(c),
                cond.degree < 0x1_0000,
                forall|b: u64, x: u64, o: u64|
                    #[trigger] keep_if_true.ensures((b, x), o) ==> o == (if x == 1 {
                        b
                    } else {
                        0
                    }),
                forall|b: u64, x: u64, o: u64|
                    #[trigger] keep_if_false.ensures((b, x), o) ==> o == (if x == 0 {
                        b
                    } else {
                        0
                    }),
                self.key.bivariate_lut_wf(&true_lut),
                self.key.bivariate_lut_wf(&false_lut),
                true_lut.ct_right_modulus.0 == msg,
                false_lut.ct_right_modulus.0 == msg,
                true_lut.acc.degree < msg,
                false_lut.acc.degree < msg,
                forall|l: u64, r: u64|
                    l < msg && r < msg && packed_index(l as nat, r as nat, msg as nat)
                        < self.key.size() ==> bivariate_lut_entry(
                        keep_if_true,
                        l,
                        r,
                        #[trigger] true_lut.acc.table@[packed_index(l as nat, r as nat, msg as nat) as int],
                        self.key.size(),
                    ),
                forall|l: u64, r: u64|
                    l < msg && r < msg && packed_index(l as nat, r as nat, msg as nat)
                        < self.key.size() ==> bivariate_lut_entry(
                        keep_if_false,
                        l,
                        r,
                        #[trigger] false_lut.acc.table@[packed_index(l as nat, r as nat, msg as nat) as int],
                        self.key.size(),
                    ),
                i <= tb@.len(),
                out@.len() == i,
                self.normalized(out@),
                !dont_clean_output ==> self.clean(out@),
                forall|j: int|
                    0 <= j < i ==> #[trigger] out@[j].value == (if c {
                        tb@[j].value
                    } else {
                        fb@[j].value
                    }),
            decreases tb@.len() - i,
        {
            let tv = tb[i];
            let fv = fb[i];
            proof {
                assert(self.key.block_wf(tv) && (tv.value as nat) < self.msg() && (tv.degree as nat) < self.key.size());
                assert(self.key.block_wf(fv) && (fv.value as nat) < self.msg() && (fv.degree as nat) < self.key.size());
                assert(packed_index(tv.value as nat, cond.value as nat, msg as nat) < self.key.size()) by (nonlinear_arith)
                    requires
                        tv.value < msg,
                        cond.value <= 1,
                        msg * msg <= self.key.size(),
                        msg >= 2,
                ;
                assert(packed_index(fv.value as nat, cond.value as nat, msg as nat) < self.key.size()) by (nonlinear_arith)
                    requires
                        fv.value < msg,
                        cond.value <= 1,
                        msg * msg <= self.key.size(),
                        msg >= 2,
                ;
                assert(tv.degree * msg + cond.degree <= crate::shortint::DEGREE_BOUND) by (nonlinear_arith)
                    requires
                        tv.degree < 0x1_0000,
                        msg <= 128,
                        cond.degree < 0x1_0000,
                ;
                assert(fv.degree * msg + cond.degree <= crate::shortint::DEGREE_BOUND) by (nonlinear_arith)
                    requires
                        fv.degree < 0x1_0000,
                        msg <= 128,
                        cond.degree < 0x1_0000,
                ;
            }
            let t = self.key.unchecked_apply_lookup_table_bivariate(&tv, &cond, &true_lut);
            let f = self.key.unchecked_apply_lookup_table_bivariate(&fv, &cond, &false_lut);
            proof {
                let ti = packed_index(tv.value as nat, cond.value as nat, msg as nat);
                assert(bivariate_lut_entry(keep_if_true, tv.value, cond.value, true_lut.acc.table@[ti as int], self.key.size()));
                let o = choose|o: u64| #[trigger] keep_if_true.ensures((tv.value, cond.value), o) && true_lut.acc.table@[ti as int] as nat == o as nat % self.key.size();
                assert(keep_if_true.ensures((tv.value, cond.value), o));
                assert(o == (if cond.value == 1 { tv.value } else { 0 }));
                assert(o <= tv.value);
                assert(tv.value < msg);
                vstd::arithmetic::div_mod::lemma_small_mod(o as nat, self.key.size());
                let fi = packed_index(fv.value as nat, cond.value as nat, msg as nat);
                assert(bivariate_lut_entry(keep_if_false, fv.value, cond.value, false_lut.acc.table@[fi as int], self.key.size()));
                let o2 = choose|o: u64| #[trigger] keep_if_false.ensures((fv.value, cond.value), o) && false_lut.acc.table@[fi as int] as nat == o as nat % self.key.size();
                vstd::arithmetic::div_mod::lemma_small_mod(o2 as nat, self.key.size());
            }
            let mut sum = self.key.unchecked_add(&t, &f);
            assert(sum.value == (if c { tv.value } else { fv.value }));
            assert((sum.degree as nat) < self.key.size());
            if !dont_clean_output {
                sum = self.key.message_extract(&sum);
                proof {
                    vstd::arithmetic::div_mod::lemma_small_mod(
                        (if c { tv.value } else { fv.value }) as nat,
                        msg as nat,
                    );
                }
            }
            out.push(sum);
            i = i + 1;
        }
        T::from_blocks(out)
    }

    /// The absolute value of a two's complement integer (the minimum maps to
    /// itself).
    pub fn unchecked_abs_parallelized(&self, ct: &SignedRadixCiphertext) -> (r:
        SignedRadixCiphertext)
        requires
            self.wf(),
            self.normalized(ct.blocks@),
            ct.blocks@.len() >= 1,
        ensures
            r.blocks@.len() == ct.blocks@.len(),
            self.clean(r.blocks@),
            self.value(r.blocks@) == abs_residue(
                self.value(ct.blocks@),
                self.modulus(ct.blocks@.len()),
            ),
    {
        proof {
            self.lemma_wf();
        }
        let as_unsigned = RadixCiphertext { blocks: copy_blocks(ct.blocks.as_slice()) };
        let negated = self.neg_parallelized(&as_unsigned);
        let sign_bit_pos = self.num_bits_in_message() - 1;
        let n = ct.blocks.len();
        let sign_block = ct.blocks[n - 1];
        let is_negative = move |x: u64| -> (r: bool)
            ensures
                r == ((x >> sign_bit_pos) == 1),
            { (x >> sign_bit_pos) == 1 };
        let unsigned_plain = RadixCiphertext { blocks: copy_blocks(ct.blocks.as_slice()) };
        proof {
            self.lemma_clean_normalized(negated.blocks@);
            assert(self.key.block_wf(ct.blocks@[n - 1]));
        }
        let r = self.unchecked_programmable_if_then_else_parallelized(
            &sign_block,
            &negated,
            &unsigned_plain,
            is_negative,
            false,
        );
        proof {
            let v = self.value(ct.blocks@);
            let m = self.modulus(n as nat);
            self.lemma_normalized_value_small(ct.blocks@);
            self.lemma_sign_block(ct.blocks@);
            self.lemma_sign_bit(sign_block.value, sign_bit_pos);
            let neg = (sign_block.value >> sign_bit_pos) == 1;
            let c = choose|c: bool| #[trigger] is_negative.ensures((sign_block.value,), c) && forall|i: int|
                0 <= i < r.spec_blocks().len() ==> #[trigger] r.spec_blocks()[i].value == (if c {
                    negated.blocks@[i].value
                } else {
                    unsigned_plain.blocks@[i].value
                });
            assert(c == neg);
            lemma_pow_nat_positive(self.msg(), n as nat);
            if neg {
                lemma_radix_same_values(r.spec_blocks(), negated.blocks@, self.msg());
                vstd::arithmetic::div_mod::lemma_mod_add_multiples_vanish(-(v as int), m as int);
                assert(self.value(r.spec_blocks()) == abs_residue(v, m));
            } else {
                lemma_radix_same_values(r.spec_blocks(), ct.blocks@, self.msg());
            }
        }
        SignedRadixCiphertext { blocks: r.into_blocks() }
    }

    /// For a block below the message modulus, the bit at the sign position
    /// is set exactly when the block is at least half the message modulus.
    pub proof fn lemma_sign_bit(&self, x: u64, sign_bit_pos: u64)
        requires
            self.wf(),
            sign_bit_pos + 1 == self.msg_bits(),
            (x as nat) < self.msg(),
        ensures
            ((x >> sign_bit_pos) == 1) == (x as nat >= self.msg() / 2),
    {
        self.lemma_wf();
        vstd::bits::lemma_u64_shr_is_div(x, sign_bit_pos);
        vstd::arithmetic::power2::lemma_pow2_unfold(self.msg_bits());
        let h = pow2(sign_bit_pos as nat);
        assert(self.msg() == 2 * h);
        vstd::arithmetic::power2::lemma_pow2_pos(sign_bit_pos as nat);
        if x as nat >= h {
            vstd::arithmetic::div_mod::lemma_div_is_ordered(h as int, x as int, h as int);
            vstd::arithmetic::div_mod::lemma_div_by_self(h as int);
            assert((x as nat) / h < 2) by (nonlinear_arith)
                requires
                    (x as nat) < 2 * h,
                    h > 0,
            ;
        } else {
            vstd::arithmetic::div_mod::lemma_basic_div(x as int, h as int);
        }
    }

    /// A two's complement integer is negative exactly when its top block is
    /// at least half the message modulus.
    pub proof fn lemma_sign_block(&self, s: Seq<Ciphertext>)
        requires
            self.wf(),
            self.normalized(s),
            s.len() >= 1,
        ensures
            (self.value(s) >= self.modulus(s.len()) / 2) == (s[s.len() - 1].value as nat
                >= self.msg() / 2),
    {
        self.lemma_wf();
        let n = s.len();
        lemma_radix_split(s, self.msg(), n - 1);
        let low = s.subrange(0, n - 1);
        let top = s.subrange(n - 1, n as int);
        assert(crate::radix::values_below(low, self.msg()));
        lemma_radix_bound(low, self.msg());
        assert(top.drop_first().len() == 0);
        assert(top[0] == s[n - 1]);
        assert(radix_value(top.drop_first(), self.msg()) == 0);
        assert(self.msg() * 0 == 0) by (nonlinear_arith);
        assert(radix_value(top, self.msg()) == s[n - 1].value);
        let p = pow_nat(self.msg(), (n - 1) as nat);
        let lv = radix_value(low, self.msg());
        let t = s[n - 1].value as nat;
        let m = self.msg();
        assert(pow_nat(m, n) == m * p);
        vstd::arithmetic::power2::lemma_pow2_unfold(self.msg_bits());
        let h = m / 2;
        assert(m == 2 * h);
        assert(m * p / 2 == h * p) by (nonlinear_arith)
            requires
                m == 2 * h,
        ;
        assert(self.value(s) == lv + p * t);
        if t >= h {
            assert(lv + p * t >= h * p) by (nonlinear_arith)
                requires
                    t >= h,
            ;
        } else {
            assert(lv + p * t < h * p) by (nonlinear_arith)
                requires
                    t < h,
                    lv < p,
            ;
        }
    }
}

} // verus!
