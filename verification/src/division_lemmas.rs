//! Arithmetic facts behind the bit-by-bit long division.
use crate::radix::pow_nat;
use vstd::arithmetic::power2::{lemma_pow2_adds, lemma_pow2_pos, pow2};
use vstd::prelude::*;

verus! {

/// The weight of block `j` is `2^(b * j)` when blocks hold `b` bits.
pub proof fn lemma_pow_nat_pow2(b: nat, j: nat)
    ensures
        pow_nat(pow2(b), j) == pow2(b * j),
    decreases j,
{
    if j == 0 {
        assert(b * 0 == 0) by (nonlinear_arith);
        vstd::arithmetic::power2::lemma2_to64();
    } else {
        lemma_pow_nat_pow2(b, (j - 1) as nat);
        assert(b * j == b + b * ((j - 1) as nat)) by (nonlinear_arith)
            requires
                j >= 1,
        ;
        lemma_pow2_adds(b, b * ((j - 1) as nat));
    }
}

/// `1 << n` is `2^n` for small `n`.
pub proof fn lemma_shl_one(n: u64)
    requires
        n < 63,
    ensures
        (1u64 << n) as nat == pow2(n as nat),
{
    vstd::bits::lemma_u64_pow2_no_overflow(n as nat);
    vstd::bits::lemma_u64_shl_is_mul(1, n);
}

/// Masking with the low `p + 1` bits of a `b`-bit message keeps `x mod 2^(p+1)`.
pub proof fn lemma_low_mask(x: u64, full: u64, b: u64, p: u64)
    requires
        1 <= b <= 7,
        p < b,
        full == ((1u64 << b) - 1) as u64,
        x < (1u64 << b),
    ensures
        x & (full >> ((b - (p + 1)) as u64)) == x % (1u64 << ((p + 1) as u64)),
{
    assert(x & (full >> ((b - (p + 1)) as u64)) == x % (1u64 << ((p + 1) as u64))) by (bit_vector)
        requires
            1 <= b <= 7,
            p < b,
            full == ((1u64 << b) - 1) as u64,
            x < (1u64 << b),
    ;
}

/// Masking with the bits of a `b`-bit message above the low `p + 1` clears
/// those low bits.
pub proof fn lemma_high_mask(x: u64, full: u64, b: u64, p: u64)
    requires
        1 <= b <= 7,
        p < b,
        full == ((1u64 << b) - 1) as u64,
        x < (1u64 << b),
    ensures
        x & ((full << ((p + 1) as u64)) & full) == x - x % (1u64 << ((p + 1) as u64)),
{
    assert(x & ((full << ((p + 1) as u64)) & full) == x - x % (1u64 << ((p + 1) as u64))) by (bit_vector)
        requires
            1 <= b <= 7,
            p < b,
            full == ((1u64 << b) - 1) as u64,
            x < (1u64 << b),
    ;
}

/// A block holding `t * 2^(b - 1 - p)`, with `t < 2^(p + 1)`, has `t`'s bit
/// `p` as its top bit; shifting it left by one leaves `t mod 2^p` in the same
/// position one step further.
pub proof fn lemma_top_bit(t: nat, p: nat, b: nat)
    requires
        p < b,
        t < pow2(p + 1),
    ensures
        t * pow2((b - 1 - p) as nat) < pow2(b),
        (t * pow2((b - 1 - p) as nat)) / pow2((b - 1) as nat) == t / pow2(p),
        ((t * pow2((b - 1 - p) as nat)) % pow2((b - 1) as nat)) * 2 == (t % pow2(p)) * pow2(
            (b - p) as nat,
        ),
        t / pow2(p) <= 1,
        t == pow2(p) * (t / pow2(p)) + t % pow2(p),
        t % pow2(p) < pow2(p),
{
    let a = (b - 1 - p) as nat;
    let pa = pow2(a);
    let pp = pow2(p);
    lemma_pow2_pos(a);
    lemma_pow2_pos(p);
    lemma_pow2_adds(a, p);
    assert(a + p == (b - 1) as nat);
    lemma_pow2_adds(p + 1, a);
    assert(p + 1 + a == b);
    assert(t * pa < pow2(p + 1) * pa) by (nonlinear_arith)
        requires
            t < pow2(p + 1),
            pa > 0,
    ;
    vstd::arithmetic::div_mod::lemma_div_denominator((t * pa) as int, pa as int, pp as int);
    vstd::arithmetic::div_mod::lemma_div_multiples_vanish(t as int, pa as int);
    vstd::arithmetic::mul::lemma_mul_is_commutative(t as int, pa as int);
    vstd::arithmetic::div_mod::lemma_mod_breakdown((t * pa) as int, pa as int, pp as int);
    vstd::arithmetic::div_mod::lemma_mod_multiples_basic(t as int, pa as int);
    lemma_pow2_adds(1, p);
    vstd::arithmetic::power2::lemma_pow2_unfold(p + 1);
    assert(t / pp < 2) by (nonlinear_arith)
        requires
            t < 2 * pp,
            pp > 0,
    ;
    vstd::arithmetic::div_mod::lemma_fundamental_div_mod(t as int, pp as int);
    lemma_pow2_adds(a, 1);
    assert(a + 1 == (b - p) as nat);
    vstd::arithmetic::power2::lemma_pow2_unfold(a + 1);
    let tm = t % pp;
    assert((pa * tm) * 2 == tm * (2 * pa)) by (nonlinear_arith);
    assert(pow2(a + 1) == 2 * pa);
    assert((t * pa) % (pa * pp) == pa * tm);
}

/// Cutting a `b`-bit block at bit `r`: with `D = low + w * (x + B * h)`,
/// `low < w` and `w * 2^r == 2^(k+1)`, the part below `2^(k+1)` is
/// `low + w * (x mod 2^r)` and what is left above is
/// `(x - x mod 2^r) + B * h`, which is 0 exactly when `D < 2^(k+1)`.
pub proof fn lemma_divisor_cut(
    d: nat,
    low: nat,
    w: nat,
    x: nat,
    h: nat,
    base: nat,
    r: nat,
    b: nat,
    k: nat,
)
    requires
        1 <= r <= b,
        base == pow2(b),
        x < base,
        low < w,
        w > 0,
        w * pow2(r) == pow2(k + 1),
        d == low + w * (x + base * h),
    ensures
        low + w * (x % pow2(r)) == d % pow2(k + 1),
        ((x - x % pow2(r)) + base * h == 0) == (d < pow2(k + 1)),
{
    let pr = pow2(r);
    lemma_pow2_pos(r);
    lemma_pow2_adds(r, (b - r) as nat);
    assert(r + (b - r) as nat == b);
    let q = pow2((b - r) as nat);
    lemma_pow2_pos((b - r) as nat);
    vstd::arithmetic::div_mod::lemma_fundamental_div_mod(x as int, pr as int);
    let xl = x % pr;
    let xh = x / pr;
    assert(x == pr * xh + xl);
    let above = xh + q * h;
    assert(x + base * h == xl + pr * above) by (nonlinear_arith)
        requires
            x == pr * xh + xl,
            base == pr * q,
            above == xh + q * h,
    ;
    assert(d == (low + w * xl) + (w * pr) * above) by (nonlinear_arith)
        requires
            d == low + w * (x + base * h),
            x + base * h == xl + pr * above,
    ;
    assert(low + w * xl < w * pr) by (nonlinear_arith)
        requires
            low < w,
            xl < pr,
            xl >= 0,
    ;
    vstd::arithmetic::mul::lemma_mul_is_commutative((w * pr) as int, above as int);
    vstd::arithmetic::div_mod::lemma_fundamental_div_mod_converse(
        d as int,
        (w * pr) as int,
        above as int,
        (low + w * xl) as int,
    );
    assert((x - xl) + base * h == pr * above) by (nonlinear_arith)
        requires
            x == pr * xh + xl,
            base == pr * q,
            above == xh + q * h,
    ;
    if above > 0 {
        assert(pr * above > 0) by (nonlinear_arith)
            requires
                pr > 0,
                above > 0,
        ;
        assert((w * pr) * above >= w * pr) by (nonlinear_arith)
            requires
                above >= 1,
        ;
    } else {
        assert(pr * above == 0) by (nonlinear_arith)
            requires
                above == 0,
        ;
        assert((w * pr) * above == 0) by (nonlinear_arith)
            requires
                above == 0,
        ;
    }
}

} // verus!
