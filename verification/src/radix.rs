//! Radix integers made of shortint blocks, least significant block first,
//! and the arithmetic facts about their value.
use crate::shortint::Ciphertext;
use vstd::prelude::*;

verus! {

/// An unsigned integer split in blocks, least significant first.
pub struct RadixCiphertext {
    pub blocks: Vec<Ciphertext>,
}

/// A two's complement integer split in blocks, least significant first.
pub struct SignedRadixCiphertext {
    pub blocks: Vec<Ciphertext>,
}

/// A block that holds 0 or 1.
pub struct BooleanBlock(pub Ciphertext);

/// `base` to the power `e`.
pub open spec fn pow_nat(base: nat, e: nat) -> nat
    decreases e,
{
    if e == 0 {
        1
    } else {
        base * pow_nat(base, (e - 1) as nat)
    }
}

/// The integer that the blocks hold: `sum blocks[i].value * base^i`.
pub open spec fn radix_value(s: Seq<Ciphertext>, base: nat) -> nat
    decreases s.len(),
{
    if s.len() == 0 {
        0
    } else {
        s[0].value as nat + base * radix_value(s.drop_first(), base)
    }
}

/// Every block's degree is below its message modulus: no carries can be set.
pub open spec fn carries_empty(s: Seq<Ciphertext>) -> bool {
    forall|i: int| 0 <= i < s.len() ==> #[trigger] s[i].degree < s[i].message_modulus.0
}

/// Every block holds a value below `base`.
pub open spec fn values_below(s: Seq<Ciphertext>, base: nat) -> bool {
    forall|i: int| 0 <= i < s.len() ==> (#[trigger] s[i].value as nat) < base
}

/// Every block holds 0.
pub open spec fn all_zero(s: Seq<Ciphertext>) -> bool {
    forall|i: int| 0 <= i < s.len() ==> #[trigger] s[i].value == 0
}

/// The common interface of unsigned and signed radix integers.
pub trait IntegerRadixCiphertext: Sized + Send + Sync {
    spec fn spec_blocks(&self) -> Seq<Ciphertext>;

    /// Whether the blocks are read as a two's complement integer.
    spec fn spec_is_signed() -> bool;

    fn is_signed() -> (b: bool)
        ensures
            b == Self::spec_is_signed(),
    ;

    fn blocks(&self) -> (r: &[Ciphertext])
        ensures
            r@ == self.spec_blocks(),
    ;

    fn from_blocks(blocks: Vec<Ciphertext>) -> (r: Self)
        ensures
            r.spec_blocks() == blocks@,
    ;

    fn into_blocks(self) -> (r: Vec<Ciphertext>)
        ensures
            r@ == self.spec_blocks(),
    ;

    /// Replaces all blocks.
    fn set_blocks(&mut self, blocks: Vec<Ciphertext>)
        ensures
            final(self).spec_blocks() == blocks@,
    ;

    fn block_carries_are_empty(&self) -> (r: bool)
        ensures
            r == carries_empty(self.spec_blocks()),
    ;
}

/// Whether the degrees of the blocks are all below their message modulus.
pub fn blocks_carries_are_empty(blocks: &[Ciphertext]) -> (r: bool)
    ensures
        r == carries_empty(blocks@),
{
    let mut i: usize = 0;
    while i < blocks.len()
        invariant
            i <= blocks.len(),
            forall|j: int| 0 <= j < i ==> #[trigger] blocks@[j].degree < blocks@[j].message_modulus.0,
        decreases blocks.len() - i,
    {
        if blocks[i].degree >= blocks[i].message_modulus.0 {
            return false;
        }
        i = i + 1;
    }
    true
}

/// A copy of the blocks.
pub fn copy_blocks(blocks: &[Ciphertext]) -> (r: Vec<Ciphertext>)
    ensures
        r@ == blocks@,
{
    let mut r: Vec<Ciphertext> = Vec::new();
    let mut i: usize = 0;
    while i < blocks.len()
        invariant
            i <= blocks.len(),
            r@ == blocks@.subrange(0, i as int),
        decreases blocks.len() - i,
    {
        r.push(blocks[i]);
        i = i + 1;
        assert(r@ =~= blocks@.subrange(0, i as int));
    }
    assert(r@ =~= blocks@);
    r
}

/// A copy of `blocks[start..end]`.
pub fn copy_block_range(blocks: &[Ciphertext], start: usize, end: usize) -> (r: Vec<Ciphertext>)
    requires
        start <= end <= blocks@.len(),
    ensures
        r@ == blocks@.subrange(start as int, end as int),
{
    let mut r: Vec<Ciphertext> = Vec::new();
    let mut i: usize = start;
    while i < end
        invariant
            start <= i <= end <= blocks@.len(),
            r@ == blocks@.subrange(start as int, i as int),
        decreases end - i,
    {
        r.push(blocks[i]);
        i = i + 1;
        assert(r@ =~= blocks@.subrange(start as int, i as int));
    }
    r
}

/// `a` followed by `b`.
pub fn concat_blocks(a: Vec<Ciphertext>, b: &[Ciphertext]) -> (r: Vec<Ciphertext>)
    ensures
        r@ == a@ + b@,
{
    let mut r = a;
    let ghost a0 = r@;
    let mut i: usize = 0;
    while i < b.len()
        invariant
            i <= b@.len(),
            r@ == a0 + b@.subrange(0, i as int),
        decreases b@.len() - i,
    {
        r.push(b[i]);
        i = i + 1;
        assert(r@ =~= a0 + b@.subrange(0, i as int));
    }
    assert(b@.subrange(0, b@.len() as int) =~= b@);
    r
}

/// The blocks with the first one moved to the end.
pub fn rotate_blocks_left(blocks: &mut Vec<Ciphertext>)
    requires
        old(blocks)@.len() > 0,
    ensures
        final(blocks)@ == old(blocks)@.drop_first().push(old(blocks)@[0]),
{
    let first = blocks.remove(0);
    blocks.push(first);
    assert(blocks@ =~= old(blocks)@.drop_first().push(old(blocks)@[0]));
}

/// The blocks in reverse order.
pub fn reverse_blocks(blocks: Vec<Ciphertext>) -> (r: Vec<Ciphertext>)
    ensures
        r@ == blocks@.reverse(),
{
    let mut r: Vec<Ciphertext> = Vec::new();
    let mut i: usize = blocks.len();
    while i > 0
        invariant
            i <= blocks@.len(),
            r@.len() == blocks@.len() - i,
            forall|j: int| 0 <= j < r@.len() ==> #[trigger] r@[j] == blocks@[blocks@.len() - 1 - j],
        decreases i,
    {
        i = i - 1;
        r.push(blocks[i]);
    }
    assert(r@ =~= blocks@.reverse());
    r
}

/// Reversing after a push puts the new block first.
pub proof fn lemma_reverse_push(s: Seq<Ciphertext>, x: Ciphertext)
    ensures
        s.push(x).reverse() == seq![x] + s.reverse(),
{
    assert(s.push(x).reverse() =~= seq![x] + s.reverse());
}

/// A block put in front has weight 1; the rest is shifted by one position.
pub proof fn lemma_radix_prepend(x: Ciphertext, t: Seq<Ciphertext>, base: nat)
    ensures
        radix_value(seq![x] + t, base) == x.value + base * radix_value(t, base),
{
    let s = seq![x] + t;
    assert(s.drop_first() =~= t);
    assert(s[0] == x);
}

impl IntegerRadixCiphertext for RadixCiphertext {
    open spec fn spec_blocks(&self) -> Seq<Ciphertext> {
        self.blocks@
    }

    open spec fn spec_is_signed() -> bool {
        false
    }

    fn is_signed() -> (b: bool) {
        false
    }

    fn blocks(&self) -> (r: &[Ciphertext]) {
        self.blocks.as_slice()
    }

    fn from_blocks(blocks: Vec<Ciphertext>) -> (r: Self) {
        RadixCiphertext { blocks }
    }

    fn into_blocks(self) -> (r: Vec<Ciphertext>) {
        self.blocks
    }

    fn set_blocks(&mut self, blocks: Vec<Ciphertext>) {
        self.blocks = blocks;
    }

    fn block_carries_are_empty(&self) -> (r: bool) {
        blocks_carries_are_empty(self.blocks.as_slice())
    }
}

impl IntegerRadixCiphertext for SignedRadixCiphertext {
    open spec fn spec_blocks(&self) -> Seq<Ciphertext> {
        self.blocks@
    }

    open spec fn spec_is_signed() -> bool {
        true
    }

    fn is_signed() -> (b: bool) {
        true
    }

    fn blocks(&self) -> (r: &[Ciphertext]) {
        self.blocks.as_slice()
    }

    fn from_blocks(blocks: Vec<Ciphertext>) -> (r: Self) {
        SignedRadixCiphertext { blocks }
    }

    fn into_blocks(self) -> (r: Vec<Ciphertext>) {
        self.blocks
    }

    fn set_blocks(&mut self, blocks: Vec<Ciphertext>) {
        self.blocks = blocks;
    }

    fn block_carries_are_empty(&self) -> (r: bool) {
        blocks_carries_are_empty(self.blocks.as_slice())
    }
}

impl RadixCiphertext {
    pub fn from(blocks: Vec<Ciphertext>) -> (r: Self)
        ensures
            r.blocks@ == blocks@,
    {
        RadixCiphertext { blocks }
    }
}

impl BooleanBlock {
    /// Wraps a block known to hold 0 or 1.
    pub fn new_unchecked(block: Ciphertext) -> (r: Self)
        ensures
            r.0 == block,
    {
        BooleanBlock(block)
    }

    pub fn as_ref(&self) -> (r: &Ciphertext)
        ensures
            *r == self.0,
    {
        &self.0
    }
}

pub proof fn lemma_pow_nat_positive(base: nat, e: nat)
    requires
        base >= 1,
    ensures
        pow_nat(base, e) >= 1,
    decreases e,
{
    if e > 0 {
        lemma_pow_nat_positive(base, (e - 1) as nat);
        vstd::arithmetic::mul::lemma_mul_inequality(1, base as int, pow_nat(base, (e - 1) as nat) as int);
    }
}

pub proof fn lemma_pow_nat_adds(base: nat, e1: nat, e2: nat)
    ensures
        pow_nat(base, e1 + e2) == pow_nat(base, e1) * pow_nat(base, e2),
    decreases e1,
{
    if e1 > 0 {
        lemma_pow_nat_adds(base, (e1 - 1) as nat, e2);
        assert((e1 + e2 - 1) as nat == (e1 - 1) as nat + e2);
        assert(pow_nat(base, e1 + e2) == base * pow_nat(base, (e1 + e2 - 1) as nat));
        assert(pow_nat(base, e1) == base * pow_nat(base, (e1 - 1) as nat));
        vstd::arithmetic::mul::lemma_mul_is_associative(
            base as int,
            pow_nat(base, (e1 - 1) as nat) as int,
            pow_nat(base, e2) as int,
        );
    } else {
        assert(pow_nat(base, 0) == 1);
        assert(e1 + e2 == e2);
    }
}

pub proof fn lemma_pow_nat_increases(base: nat, e1: nat, e2: nat)
    requires
        base >= 1,
        e1 <= e2,
    ensures
        pow_nat(base, e1) <= pow_nat(base, e2),
{
    lemma_pow_nat_adds(base, e1, (e2 - e1) as nat);
    lemma_pow_nat_positive(base, (e2 - e1) as nat);
    lemma_pow_nat_positive(base, e1);
    vstd::arithmetic::mul::lemma_mul_inequality(
        1,
        pow_nat(base, (e2 - e1) as nat) as int,
        pow_nat(base, e1) as int,
    );
    vstd::arithmetic::mul::lemma_mul_is_commutative(
        pow_nat(base, (e2 - e1) as nat) as int,
        pow_nat(base, e1) as int,
    );
}

/// The value splits at any block position into a low part and a high part.
pub proof fn lemma_radix_split(s: Seq<Ciphertext>, base: nat, m: int)
    requires
        0 <= m <= s.len(),
    ensures
        radix_value(s, base) == radix_value(s.subrange(0, m), base) + pow_nat(base, m as nat)
            * radix_value(s.subrange(m, s.len() as int), base),
    decreases m,
{
    if m == 0 {
        assert(s.subrange(0, 0) =~= Seq::<Ciphertext>::empty());
        assert(s.subrange(0, s.len() as int) =~= s);
        assert(pow_nat(base, 0) == 1);
        assert(radix_value(s.subrange(0, 0), base) == 0);
        let v = radix_value(s, base);
        assert(1 * v == v) by (nonlinear_arith);
    } else {
        let t = s.drop_first();
        lemma_radix_split(t, base, m - 1);
        assert(s.subrange(0, m).drop_first() =~= t.subrange(0, m - 1));
        assert(s.subrange(m, s.len() as int) =~= t.subrange(m - 1, t.len() as int));
        let lo = radix_value(t.subrange(0, m - 1), base);
        let hi = radix_value(t.subrange(m - 1, t.len() as int), base);
        let p = pow_nat(base, (m - 1) as nat);
        assert(base * (lo + p * hi) == base * lo + (base * p) * hi) by (nonlinear_arith);
        assert(s.subrange(0, m)[0] == s[0]);
        assert(radix_value(s.subrange(0, m), base) == s[0].value + base * lo);
        assert(pow_nat(base, m as nat) == base * p);
        assert(radix_value(s, base) == s[0].value + base * radix_value(t, base));
    }
}

/// Blocks that are all below `base` hold a value below `base^len`.
pub proof fn lemma_radix_bound(s: Seq<Ciphertext>, base: nat)
    requires
        values_below(s, base),
    ensures
        radix_value(s, base) < pow_nat(base, s.len()),
    decreases s.len(),
{
    if s.len() > 0 {
        let t = s.drop_first();
        assert(values_below(t, base)) by {
            assert forall|i: int| 0 <= i < t.len() implies (#[trigger] t[i].value as nat) < base by {
                assert(t[i] == s[i + 1]);
            }
        }
        lemma_radix_bound(t, base);
        let v = s[0].value as nat;
        let r = radix_value(t, base);
        let p = pow_nat(base, t.len());
        assert(v < base);
        assert(r + 1 <= p);
        assert(v + base * r < base * p) by (nonlinear_arith)
            requires
                v < base,
                r + 1 <= p,
        ;
        assert(pow_nat(base, s.len()) == base * p);
    }
}

/// The value only depends on the blocks' values.
pub proof fn lemma_radix_same_values(s: Seq<Ciphertext>, t: Seq<Ciphertext>, base: nat)
    requires
        s.len() == t.len(),
        forall|i: int| 0 <= i < s.len() ==> #[trigger] s[i].value == t[i].value,
    ensures
        radix_value(s, base) == radix_value(t, base),
    decreases s.len(),
{
    if s.len() > 0 {
        lemma_radix_same_values(s.drop_first(), t.drop_first(), base);
    }
}

/// The value is 0 exactly when every block holds 0.
pub proof fn lemma_radix_zero(s: Seq<Ciphertext>, base: nat)
    requires
        base >= 1,
    ensures
        radix_value(s, base) == 0 <==> all_zero(s),
    decreases s.len(),
{
    if s.len() > 0 {
        let t = s.drop_first();
        lemma_radix_zero(t, base);
        let rt = radix_value(t, base);
        assert(radix_value(s, base) == s[0].value + base * rt);
        if radix_value(s, base) == 0 {
            assert(base * rt == 0);
            if rt > 0 {
                assert(base * rt >= 1) by (nonlinear_arith)
                    requires
                        base >= 1,
                        rt >= 1,
                ;
            }
            assert forall|i: int| 0 <= i < s.len() implies #[trigger] s[i].value == 0 by {
                if i > 0 {
                    assert(s[i] == t[i - 1]);
                }
            }
        }
        if all_zero(s) {
            assert forall|i: int| 0 <= i < t.len() implies #[trigger] t[i].value == 0 by {
                assert(t[i] == s[i + 1]);
            }
            assert(rt == 0);
            assert(base * rt == 0) by (nonlinear_arith)
                requires
                    rt == 0,
            ;
            assert(s[0].value == 0);
        }
    }
}

/// Appending a block adds it at weight `base^len`.
pub proof fn lemma_radix_push(s: Seq<Ciphertext>, x: Ciphertext, base: nat)
    ensures
        radix_value(s.push(x), base) == radix_value(s, base) + pow_nat(base, s.len())
            * x.value,
{
    let t = s.push(x);
    lemma_radix_split(t, base, s.len() as int);
    assert(t.subrange(0, s.len() as int) =~= s);
    let last = t.subrange(s.len() as int, t.len() as int);
    assert(last.drop_first() =~= Seq::<Ciphertext>::empty());
    assert(last[0] == x);
    assert(radix_value(last.drop_first(), base) == 0);
    assert(base * 0 == 0) by (nonlinear_arith);
    assert(radix_value(last, base) == x.value);
}

/// Adding two radix integers block by block adds their values.
pub proof fn lemma_radix_add(a: Seq<Ciphertext>, b: Seq<Ciphertext>, c: Seq<Ciphertext>, base: nat)
    requires
        a.len() == b.len(),
        b.len() == c.len(),
        forall|i: int| 0 <= i < a.len() ==> #[trigger] c[i].value == a[i].value + b[i].value,
    ensures
        radix_value(c, base) == radix_value(a, base) + radix_value(b, base),
    decreases a.len(),
{
    if a.len() > 0 {
        lemma_radix_add(a.drop_first(), b.drop_first(), c.drop_first(), base);
        let x = radix_value(a.drop_first(), base);
        let y = radix_value(b.drop_first(), base);
        assert(base * (x + y) == base * x + base * y) by (nonlinear_arith);
    }
}

/// Clean blocks are the base-`base` digits of their value: a value `v` with
/// `v == radix_value(s) + base^len * k` has `radix_value(s) == v % base^len`.
pub proof fn lemma_radix_mod(s: Seq<Ciphertext>, base: nat, v: int, k: int)
    requires
        values_below(s, base),
        v == radix_value(s, base) + pow_nat(base, s.len()) * k,
    ensures
        radix_value(s, base) == v % (pow_nat(base, s.len()) as int),
        k == v / (pow_nat(base, s.len()) as int),
{
    lemma_radix_bound(s, base);
    vstd::arithmetic::mul::lemma_mul_is_commutative(pow_nat(base, s.len()) as int, k);
    vstd::arithmetic::div_mod::lemma_fundamental_div_mod_converse(
        v,
        pow_nat(base, s.len()) as int,
        k,
        radix_value(s, base) as int,
    );
}

/// Changing one block changes the value by the difference at that block's weight.
pub proof fn lemma_radix_update(s: Seq<Ciphertext>, j: int, x: Ciphertext, base: nat)
    requires
        0 <= j < s.len(),
    ensures
        radix_value(s.update(j, x), base) + pow_nat(base, j as nat) * s[j].value == radix_value(s, base)
            + pow_nat(base, j as nat) * x.value,
{
    let t = s.update(j, x);
    lemma_radix_split(s, base, j);
    lemma_radix_split(t, base, j);
    assert(t.subrange(0, j) =~= s.subrange(0, j));
    let hs = s.subrange(j, s.len() as int);
    let ht = t.subrange(j, t.len() as int);
    assert(hs.drop_first() =~= ht.drop_first());
    assert(hs[0] == s[j]);
    assert(ht[0] == x);
    let p = pow_nat(base, j as nat);
    let r = radix_value(hs.drop_first(), base);
    assert(p * (s[j].value + base * r) + p * x.value == p * (x.value + base * r) + p * s[j].value)
        by (nonlinear_arith);
}

/// Blocks below `base` are determined by their value.
pub proof fn lemma_radix_injective(s: Seq<Ciphertext>, t: Seq<Ciphertext>, base: nat)
    requires
        base > 0,
        s.len() == t.len(),
        values_below(s, base),
        values_below(t, base),
        radix_value(s, base) == radix_value(t, base),
    ensures
        forall|i: int| 0 <= i < s.len() ==> #[trigger] s[i].value == t[i].value,
    decreases s.len(),
{
    if s.len() > 0 {
        let s1 = s.drop_first();
        let t1 = t.drop_first();
        assert(values_below(s1, base)) by {
            assert forall|i: int| 0 <= i < s1.len() implies (#[trigger] s1[i].value as nat) < base by {
                assert(s1[i] == s[i + 1]);
            }
        }
        assert(values_below(t1, base)) by {
            assert forall|i: int| 0 <= i < t1.len() implies (#[trigger] t1[i].value as nat) < base by {
                assert(t1[i] == t[i + 1]);
            }
        }
        let v = radix_value(s, base) as int;
        vstd::arithmetic::mul::lemma_mul_is_commutative(base as int, radix_value(s1, base) as int);
        vstd::arithmetic::mul::lemma_mul_is_commutative(base as int, radix_value(t1, base) as int);
        vstd::arithmetic::div_mod::lemma_fundamental_div_mod_converse(
            v,
            base as int,
            radix_value(s1, base) as int,
            s[0].value as int,
        );
        vstd::arithmetic::div_mod::lemma_fundamental_div_mod_converse(
            v,
            base as int,
            radix_value(t1, base) as int,
            t[0].value as int,
        );
        lemma_radix_injective(s1, t1, base);
        assert forall|i: int| 0 <= i < s.len() implies #[trigger] s[i].value == t[i].value by {
            if i > 0 {
                assert(s[i] == s1[i - 1]);
                assert(t[i] == t1[i - 1]);
            }
        }
    }
}

} // verus!
