//! The integer server key and the radix operations that division builds on.
use crate::radix::{RadixCiphertext, BooleanBlock, IntegerRadixCiphertext, lemma_radix_add, lemma_radix_bound, radix_value, pow_nat, carries_empty, values_below, all_zero, lemma_radix_zero, lemma_radix_push, lemma_radix_mod};
use crate::shortint::{Ciphertext, DEGREE_BOUND, ShortintServerKey, MessageModulus, CarryModulus};
use vstd::arithmetic::power2::pow2;
use vstd::prelude::*;

verus! {

/// The integer server key: a shortint key applied block by block.
pub struct ServerKey {
    pub key: ShortintServerKey,
}

/// How a block is compared with zero.
#[derive(Clone, Copy)]
pub enum ZeroComparisonType {
    /// 1 where the block is zero.
    Equality,
    /// 1 where the block is not zero.
    Difference,
}

/// The radix value of the blocks, reduced modulo `base^len`.
pub open spec fn reduced(v: nat, base: nat, len: nat) -> nat {
    v % pow_nat(base, len)
}

impl ServerKey {
    pub open spec fn msg(&self) -> nat {
        self.key.message_modulus.0 as nat
    }

    /// Parameters under which the integer operations work: the message
    /// modulus is a power of two and the carry space can hold a full
    /// message, so that two blocks' messages pack into one block.
    pub open spec fn wf(&self) -> bool {
        &&& self.key.wf()
        &&& exists|b: nat| pow2(b) == self.msg()
        &&& self.key.carry_modulus.0 >= self.key.message_modulus.0
    }

    /// Number of bits of a block's message.
    pub open spec fn msg_bits(&self) -> nat {
        choose|b: nat| pow2(b) == self.msg()
    }

    /// Every block was made under this key and fits its plaintext space.
    pub open spec fn blocks_wf(&self, s: Seq<Ciphertext>) -> bool {
        forall|i: int| 0 <= i < s.len() ==> self.key.block_wf(#[trigger] s[i])
    }

    /// Well-formed blocks with empty carries.
    pub open spec fn clean(&self, s: Seq<Ciphertext>) -> bool {
        self.blocks_wf(s) && carries_empty(s)
    }

    /// Well-formed blocks whose values hold no carry and whose degrees stay
    /// inside the plaintext space.
    pub open spec fn normalized(&self, s: Seq<Ciphertext>) -> bool {
        &&& self.blocks_wf(s)
        &&& values_below(s, self.msg())
        &&& forall|i: int| 0 <= i < s.len() ==> (#[trigger] s[i].degree as nat) < self.key.size()
    }

    /// The unsigned value of the blocks (carries included).
    pub open spec fn value(&self, s: Seq<Ciphertext>) -> nat {
        radix_value(s, self.msg())
    }

    /// `message_modulus ^ n`: the number of values that `n` blocks hold.
    pub open spec fn modulus(&self, n: nat) -> nat {
        pow_nat(self.msg(), n)
    }

    /// A boolean block: made under this key, holding 0 or 1, of degree at most 1.
    pub open spec fn boolean_wf(&self, b: Ciphertext) -> bool {
        self.key.block_wf(b) && b.degree <= 1
    }

    pub proof fn lemma_wf(&self)
        requires
            self.wf(),
        ensures
            pow2(self.msg_bits()) == self.msg(),
            self.msg_bits() >= 1,
            self.msg() >= 2,
            self.msg() as nat <= self.key.size(),
            self.key.size() < 0x1_0000,
            self.msg() * self.msg() <= self.key.size(),
            4 <= self.key.size(),
            self.key.message_modulus.0 <= 128,
            self.msg_bits() <= 7,
    {
        let b = self.msg_bits();
        assert(pow2(b) == self.msg());
        self.key.lemma_size_bounds();
        if b < 1 {
            vstd::arithmetic::power2::lemma2_to64();
            assert(pow2(0) == 1);
        }
        vstd::arithmetic::mul::lemma_mul_inequality(
            self.key.message_modulus.0 as int,
            self.key.carry_modulus.0 as int,
            self.key.message_modulus.0 as int,
        );
        vstd::arithmetic::mul::lemma_mul_is_commutative(
            self.key.carry_modulus.0 as int,
            self.key.message_modulus.0 as int,
        );
        let m = self.msg();
        assert(m * m >= 4) by (nonlinear_arith)
            requires
                m >= 2,
        ;
        if m >= 256 {
            assert(m * m >= 256 * 256) by (nonlinear_arith)
                requires
                    m >= 256,
            ;
        }
        vstd::arithmetic::power2::lemma2_to64();
        if b > 8 {
            vstd::arithmetic::power2::lemma_pow2_strictly_increases(8, b);
        } else if b < 7 {
            vstd::arithmetic::power2::lemma_pow2_strictly_increases(b, 7);
        }
    }

    pub proof fn lemma_clean_normalized(&self, s: Seq<Ciphertext>)
        requires
            self.key.wf(),
            self.clean(s),
        ensures
            self.normalized(s),
    {
        self.key.lemma_size_bounds();
        assert forall|i: int| 0 <= i < s.len() implies (#[trigger] s[i].value as nat) < self.msg() && (s[i].degree as nat) < self.key.size() by {
            assert(self.key.block_wf(s[i]));
            assert(s[i].degree < s[i].message_modulus.0);
        }
    }

    pub fn message_modulus(&self) -> (m: MessageModulus)
        ensures
            m.0 == self.key.message_modulus.0,
    {
        self.key.message_modulus
    }

    pub fn carry_modulus(&self) -> (c: CarryModulus)
        ensures
            c.0 == self.key.carry_modulus.0,
    {
        self.key.carry_modulus
    }

    /// Number of bits of a block's message: the base-2 logarithm of the
    /// message modulus.
    pub fn num_bits_in_message(&self) -> (b: u64)
        requires
            self.wf(),
        ensures
            b as nat == self.msg_bits(),
            1 <= b < 17,
    {
        proof {
            self.lemma_wf();
        }
        let msg = self.key.message_modulus.0;
        let mut b: u64 = 0;
        let mut p: u64 = 1;
        proof {
            vstd::arithmetic::power2::lemma2_to64();
        }
        while p < msg
            invariant
                msg as nat == self.msg(),
                msg <= 128,
                p as nat == pow2(b as nat),
                pow2(self.msg_bits()) == msg,
                self.msg_bits() <= 7,
                b <= self.msg_bits(),
                p <= msg,
                p >= 1,
            decreases msg - p,
        {
            proof {
                if b == self.msg_bits() {
                    assert(false);
                }
                vstd::arithmetic::power2::lemma_pow2_unfold((b + 1) as nat);
                if b + 1 < self.msg_bits() {
                    vstd::arithmetic::power2::lemma_pow2_strictly_increases((b + 1) as nat, self.msg_bits());
                }
            }
            p = p * 2;
            b = b + 1;
        }
        proof {
            if b < self.msg_bits() {
                vstd::arithmetic::power2::lemma_pow2_strictly_increases(b as nat, self.msg_bits());
            }
            if b < 2 {
                vstd::arithmetic::power2::lemma2_to64();
            }
        }
        b
    }

    /// `n` blocks that hold 0.
    pub fn create_trivial_zero_radix(&self, num_blocks: usize) -> (r: RadixCiphertext)
        requires
            self.wf(),
        ensures
            r.blocks@.len() == num_blocks,
            self.clean(r.blocks@),
            all_zero(r.blocks@),
            self.value(r.blocks@) == 0,
            forall|j: int| 0 <= j < num_blocks ==> (#[trigger] r.blocks@[j]).degree == 0,
    {
        proof {
            self.lemma_wf();
        }
        let mut blocks: Vec<Ciphertext> = Vec::new();
        let mut i: usize = 0;
        while i < num_blocks
            invariant
                self.wf(),
                i <= num_blocks,
                blocks@.len() == i,
                self.key.size() >= 2,
                self.clean(blocks@),
                all_zero(blocks@),
                forall|j: int| 0 <= j < i ==> #[trigger] blocks@[j].degree == 0,
            decreases num_blocks - i,
        {
            let z = self.key.create_trivial(0);
            blocks.push(z);
            i = i + 1;
        }
        proof {
            lemma_radix_zero(blocks@, self.msg());
        }
        RadixCiphertext { blocks }
    }

    /// The digits of `scalar` in `num_blocks` blocks (`scalar` reduced modulo
    /// `message_modulus ^ num_blocks`).
    pub fn create_trivial_radix(&self, scalar: u64, num_blocks: usize) -> (r: RadixCiphertext)
        requires
            self.wf(),
        ensures
            r.blocks@.len() == num_blocks,
            self.clean(r.blocks@),
            self.value(r.blocks@) == reduced(scalar as nat, self.msg(), num_blocks as nat),
    {
        proof {
            self.lemma_wf();
        }
        let msg = self.key.message_modulus.0;
        let mut blocks: Vec<Ciphertext> = Vec::new();
        let mut rest: u64 = scalar;
        let mut i: usize = 0;
        proof {
            assert(radix_value(blocks@, self.msg()) == 0);
            assert(pow_nat(self.msg(), 0) == 1);
        }
        while i < num_blocks
            invariant
                self.wf(),
                msg as nat == self.msg(),
                msg >= 2,
                (msg as nat) <= self.key.size(),
                i <= num_blocks,
                blocks@.len() == i,
                self.clean(blocks@),
                scalar as nat == self.value(blocks@) + pow_nat(self.msg(), i as nat) * rest,
            decreases num_blocks - i,
        {
            let digit = rest % msg;
            let d = Ciphertext {
                value: digit,
                degree: msg - 1,
                message_modulus: self.key.message_modulus,
                carry_modulus: self.key.carry_modulus,
            };
            proof {
                lemma_radix_push(blocks@, d, self.msg());
                let p = pow_nat(self.msg(), i as nat);
                assert(pow_nat(self.msg(), (i + 1) as nat) == self.msg() * p);
                assert(rest == msg * (rest / msg) + digit) by {
                    vstd::arithmetic::div_mod::lemma_fundamental_div_mod(rest as int, msg as int);
                }
                assert(p * rest == p * digit + (msg * p) * (rest / msg)) by (nonlinear_arith)
                    requires
                        rest == msg * (rest / msg) + digit,
                ;
            }
            blocks.push(d);
            rest = rest / msg;
            i = i + 1;
        }
        proof {
            self.lemma_clean_normalized(blocks@);
            lemma_radix_mod(blocks@, self.msg(), scalar as int, rest as int);
        }
        RadixCiphertext { blocks }
    }

    /// Moves every block's carries into the next block; the carries of the
    /// last block are dropped, so the value is kept modulo `msg ^ len`.
    pub fn full_propagate_blocks(&self, blocks: &[Ciphertext]) -> (out: Vec<Ciphertext>)
        requires
            self.wf(),
            self.blocks_wf(blocks@),
        ensures
            out@.len() == blocks@.len(),
            self.clean(out@),
            self.value(out@) == reduced(self.value(blocks@), self.msg(), blocks@.len()),
    {
        proof {
            self.lemma_wf();
        }
        let msg = self.key.message_modulus.0;
        let ghost size = self.key.size();
        let mut out: Vec<Ciphertext> = Vec::new();
        let mut carry: u64 = 0;
        let mut i: usize = 0;
        proof {
            assert(blocks@.subrange(0, 0) =~= Seq::<Ciphertext>::empty());
            assert(pow_nat(self.msg(), 0) == 1);
        }
        while i < blocks.len()
            invariant
                self.wf(),
                msg as nat == self.msg(),
                2 <= msg <= 128,
                size == self.key.size(),
                msg <= size < 0x1_0000,
                self.blocks_wf(blocks@),
                i <= blocks@.len(),
                out@.len() == i,
                self.clean(out@),
                (carry as nat) < size,
                self.value(blocks@.subrange(0, i as int)) == self.value(out@) + pow_nat(
                    self.msg(),
                    i as nat,
                ) * carry,
            decreases blocks@.len() - i,
        {
            let x = blocks[i].value;
            assert(self.key.block_wf(blocks@[i as int]));
            let v = x + carry;
            let d = v % msg;
            let next = v / msg;
            let c = Ciphertext {
                value: d,
                degree: msg - 1,
                message_modulus: self.key.message_modulus,
                carry_modulus: self.key.carry_modulus,
            };
            proof {
                let p = pow_nat(self.msg(), i as nat);
                assert(blocks@.subrange(0, i + 1) =~= blocks@.subrange(0, i as int).push(blocks@[i as int]));
                lemma_radix_push(blocks@.subrange(0, i as int), blocks@[i as int], self.msg());
                lemma_radix_push(out@, c, self.msg());
                assert(pow_nat(self.msg(), (i + 1) as nat) == self.msg() * p);
                vstd::arithmetic::div_mod::lemma_fundamental_div_mod(v as int, msg as int);
                assert(p * carry + p * x == p * d + (msg * p) * next) by (nonlinear_arith)
                    requires
                        v == x + carry,
                        v == msg * next + d,
                ;
                assert(next < size) by (nonlinear_arith)
                    requires
                        next == v / msg,
                        v < 2 * size,
                        msg >= 2,
                ;
            }
            out.push(c);
            carry = next;
            i = i + 1;
        }
        proof {
            assert(blocks@.subrange(0, blocks@.len() as int) =~= blocks@);
            self.lemma_clean_normalized(out@);
            lemma_radix_mod(out@, self.msg(), self.value(blocks@) as int, carry as int);
        }
        out
    }

    /// Propagates the carries of every block of the integer.
    pub fn full_propagate_parallelized<T: IntegerRadixCiphertext>(&self, ctxt: &mut T)
        requires
            self.wf(),
            self.blocks_wf(old(ctxt).spec_blocks()),
        ensures
            final(ctxt).spec_blocks().len() == old(ctxt).spec_blocks().len(),
            self.clean(final(ctxt).spec_blocks()),
            self.value(final(ctxt).spec_blocks()) == reduced(
                self.value(old(ctxt).spec_blocks()),
                self.msg(),
                old(ctxt).spec_blocks().len(),
            ),
    {
        let blocks = self.full_propagate_blocks(ctxt.blocks());
        ctxt.set_blocks(blocks);
    }

    /// Adds the integers block by block, without carry propagation.
    pub fn unchecked_add_assign(&self, lhs: &mut RadixCiphertext, rhs: &RadixCiphertext)
        requires
            self.wf(),
            self.blocks_wf(old(lhs).blocks@),
            self.blocks_wf(rhs.blocks@),
            old(lhs).blocks@.len() == rhs.blocks@.len(),
            forall|i: int|
                0 <= i < rhs.blocks@.len() ==> (#[trigger] old(lhs).blocks@[i].value
                    + rhs.blocks@[i].value) < self.key.size() && old(lhs).blocks@[i].degree
                    + rhs.blocks@[i].degree <= DEGREE_BOUND,
        ensures
            final(lhs).blocks@.len() == rhs.blocks@.len(),
            self.blocks_wf(final(lhs).blocks@),
            forall|i: int|
                0 <= i < rhs.blocks@.len() ==> #[trigger] final(lhs).blocks@[i].value == old(
                    lhs,
                ).blocks@[i].value + rhs.blocks@[i].value && final(lhs).blocks@[i].degree == old(
                    lhs,
                ).blocks@[i].degree + rhs.blocks@[i].degree,
            self.value(final(lhs).blocks@) == self.value(old(lhs).blocks@) + self.value(
                rhs.blocks@,
            ),
    {
        let mut out: Vec<Ciphertext> = Vec::new();
        let mut i: usize = 0;
        while i < rhs.blocks.len()
            invariant
                self.wf(),
                self.blocks_wf(lhs.blocks@),
                self.blocks_wf(rhs.blocks@),
                lhs.blocks@.len() == rhs.blocks@.len(),
                forall|i: int|
                    0 <= i < rhs.blocks@.len() ==> (#[trigger] lhs.blocks@[i].value
                        + rhs.blocks@[i].value) < self.key.size() && lhs.blocks@[i].degree
                        + rhs.blocks@[i].degree <= DEGREE_BOUND,
                i <= rhs.blocks@.len(),
                out@.len() == i,
                self.blocks_wf(out@),
                forall|j: int|
                    0 <= j < i ==> #[trigger] out@[j].value == lhs.blocks@[j].value
                        + rhs.blocks@[j].value && out@[j].degree == lhs.blocks@[j].degree
                        + rhs.blocks@[j].degree,
            decreases rhs.blocks@.len() - i,
        {
            assert(self.key.block_wf(lhs.blocks@[i as int]));
            assert(self.key.block_wf(rhs.blocks@[i as int]));
            let c = self.key.unchecked_add(&lhs.blocks[i], &rhs.blocks[i]);
            out.push(c);
            i = i + 1;
        }
        proof {
            lemma_radix_add(lhs.blocks@, rhs.blocks@, out@, self.msg());
        }
        lhs.blocks = out;
    }

    /// `lhs - rhs` modulo `msg ^ len`, with a block that is 1 exactly when
    /// the subtraction wrapped (`lhs < rhs`).
    pub fn unchecked_unsigned_overflowing_sub_parallelized(
        &self,
        lhs: &RadixCiphertext,
        rhs: &RadixCiphertext,
    ) -> (res: (RadixCiphertext, BooleanBlock))
        requires
            self.wf(),
            self.normalized(lhs.blocks@),
            self.normalized(rhs.blocks@),
            lhs.blocks@.len() == rhs.blocks@.len(),
        ensures
            res.0.blocks@.len() == lhs.blocks@.len(),
            self.clean(res.0.blocks@),
            self.value(res.0.blocks@) as int == (self.value(lhs.blocks@) as int - self.value(
                rhs.blocks@,
            ) as int) % (self.modulus(lhs.blocks@.len()) as int),
            self.boolean_wf(res.1.0),
            res.1.0.value == (if self.value(lhs.blocks@) < self.value(rhs.blocks@) {
                1u64
            } else {
                0u64
            }),
    {
        proof {
            self.lemma_wf();
        }
        let msg = self.key.message_modulus.0;
        let mut out: Vec<Ciphertext> = Vec::new();
        let mut borrow: u64 = 0;
        let mut i: usize = 0;
        proof {
            assert(lhs.blocks@.subrange(0, 0) =~= Seq::<Ciphertext>::empty());
            assert(rhs.blocks@.subrange(0, 0) =~= Seq::<Ciphertext>::empty());
            assert(pow_nat(self.msg(), 0) == 1);
        }
        while i < lhs.blocks.len()
            invariant
                self.wf(),
                msg as nat == self.msg(),
                2 <= msg <= 128,
                msg <= self.key.size(),
                self.normalized(lhs.blocks@),
                self.normalized(rhs.blocks@),
                lhs.blocks@.len() == rhs.blocks@.len(),
                i <= lhs.blocks@.len(),
                out@.len() == i,
                self.clean(out@),
                borrow <= 1,
                self.value(lhs.blocks@.subrange(0, i as int)) as int - self.value(
                    rhs.blocks@.subrange(0, i as int),
                ) as int == self.value(out@) as int - pow_nat(self.msg(), i as nat) * borrow,
            decreases lhs.blocks@.len() - i,
        {
            let x = lhs.blocks[i].value;
            let y = rhs.blocks[i].value;
            assert((x as nat) < self.msg() && (y as nat) < self.msg());
            let d: u64;
            let next: u64;
            if x >= y + borrow {
                d = x - y - borrow;
                next = 0;
            } else {
                d = x + msg - y - borrow;
                next = 1;
            }
            let c = Ciphertext {
                value: d,
                degree: msg - 1,
                message_modulus: self.key.message_modulus,
                carry_modulus: self.key.carry_modulus,
            };
            proof {
                let p = pow_nat(self.msg(), i as nat);
                assert(lhs.blocks@.subrange(0, i + 1) =~= lhs.blocks@.subrange(0, i as int).push(
                    lhs.blocks@[i as int],
                ));
                assert(rhs.blocks@.subrange(0, i + 1) =~= rhs.blocks@.subrange(0, i as int).push(
                    rhs.blocks@[i as int],
                ));
                lemma_radix_push(lhs.blocks@.subrange(0, i as int), lhs.blocks@[i as int], self.msg());
                lemma_radix_push(rhs.blocks@.subrange(0, i as int), rhs.blocks@[i as int], self.msg());
                lemma_radix_push(out@, c, self.msg());
                assert(pow_nat(self.msg(), (i + 1) as nat) == self.msg() * p);
                assert(p * x - p * y - p * borrow == p * d - (msg * p) * next) by (nonlinear_arith)
                    requires
                        x - y - borrow == d - msg * next,
                ;
            }
            out.push(c);
            borrow = next;
            i = i + 1;
        }
        let ghost lv = self.value(lhs.blocks@);
        let ghost rv = self.value(rhs.blocks@);
        proof {
            assert(lhs.blocks@.subrange(0, lhs.blocks@.len() as int) =~= lhs.blocks@);
            assert(rhs.blocks@.subrange(0, rhs.blocks@.len() as int) =~= rhs.blocks@);
            self.lemma_clean_normalized(out@);
            lemma_radix_bound(out@, self.msg());
            let pw = pow_nat(self.msg(), out@.len());
            if borrow == 0 {
                assert(pw * borrow == 0) by (nonlinear_arith)
                    requires
                        borrow == 0,
                ;
            } else {
                assert(pw * borrow == pw) by (nonlinear_arith)
                    requires
                        borrow == 1,
                ;
            }
            assert(pw * (-(borrow as int)) == -(pw * borrow)) by (nonlinear_arith);
            lemma_radix_mod(out@, self.msg(), lv - rv, -(borrow as int));
        }
        let flag = Ciphertext {
            value: borrow,
            degree: 1,
            message_modulus: self.key.message_modulus,
            carry_modulus: self.key.carry_modulus,
        };
        (RadixCiphertext { blocks: out }, BooleanBlock(flag))
    }
}

} // verus!
