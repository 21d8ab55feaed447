//! What the results of the divisions satisfy, over the values the blocks hold.
use crate::div_mod::{abs, floor_quotient, floor_remainder, trunc_div};
use crate::radix::{all_zero, lemma_pow_nat_positive, pow_nat};
use crate::shortint::Ciphertext;
use crate::radix_arith::signed_value;
use crate::server_key::{reduced, ServerKey};
use vstd::prelude::*;

verus! {

/// A two's complement value in range reads back as itself once reduced.
pub proof fn lemma_signed_roundtrip(x: int, m: nat)
    requires
        m >= 2,
        m % 2 == 0,
        -((m / 2) as int) <= x < (m / 2) as int,
    ensures
        0 <= x % (m as int) < m,
        signed_value((x % (m as int)) as nat, m) == x,
{
    let mi = m as int;
    if x >= 0 {
        vstd::arithmetic::div_mod::lemma_small_mod(x as nat, m);
    } else {
        vstd::arithmetic::div_mod::lemma_mod_add_multiples_vanish(x, mi);
        vstd::arithmetic::div_mod::lemma_small_mod((x + mi) as nat, m);
    }
}

/// Truncated division of two's complement values: the remainder is
/// `sign(a) * (|a| mod |b|)` and the quotient `±(|a| / |b|)`.
pub proof fn lemma_trunc_div_parts(a: int, b: int)
    requires
        b != 0,
    ensures
        abs(trunc_div(a, b)) == abs(a) / abs(b),
        abs(trunc_div(a, b)) <= abs(a),
        a - b * trunc_div(a, b) == (if a < 0 { -(abs(a) % abs(b)) } else { abs(a) % abs(b) }),
        abs(a) % abs(b) < abs(b),
        (trunc_div(a, b) > 0) ==> ((a < 0) == (b < 0)),
{
    let pa = abs(a);
    let pb = abs(b);
    let q = pa / pb;
    let r = pa % pb;
    vstd::arithmetic::div_mod::lemma_fundamental_div_mod(pa, pb);
    vstd::arithmetic::div_mod::lemma_div_is_ordered_by_denominator(pa, 1, pb);
    vstd::arithmetic::div_mod::lemma_div_basics(pa);
    let t = trunc_div(a, b);
    assert(pa == pb * q + r);
    if b > 0 {
        assert(b * t == (if a < 0 { -(pb * q) } else { pb * q })) by (nonlinear_arith)
            requires
                b == pb,
                t == (if a < 0 { -q } else { q }),
        ;
    } else {
        assert(b * t == (if a < 0 { -(pb * q) } else { pb * q })) by (nonlinear_arith)
            requires
                b == -pb,
                t == (if a < 0 { q } else { -q }),
        ;
    }
}

/// Residues multiply and add: `x * y + z` and `xs * ys + zs` agree modulo `m`
/// when `x, y, z` agree with `xs, ys, zs`.
pub proof fn lemma_residue_mul_add(x: int, y: int, z: int, xs: int, ys: int, zs: int, m: int)
    requires
        m > 0,
        (x - xs) % m == 0,
        (y - ys) % m == 0,
        (z - zs) % m == 0,
    ensures
        ((x * y + z) - (xs * ys + zs)) % m == 0,
{
    vstd::arithmetic::div_mod::lemma_fundamental_div_mod(x - xs, m);
    vstd::arithmetic::div_mod::lemma_fundamental_div_mod(y - ys, m);
    vstd::arithmetic::div_mod::lemma_fundamental_div_mod(z - zs, m);
    let kx = (x - xs) / m;
    let ky = (y - ys) / m;
    let kz = (z - zs) / m;
    let k = kx * y + xs * ky + kz;
    assert(x * y == xs * y + (kx * y) * m) by (nonlinear_arith)
        requires
            x == xs + m * kx,
    ;
    assert(xs * y == xs * ys + (xs * ky) * m) by (nonlinear_arith)
        requires
            y == ys + m * ky,
    ;
    assert(k * m == (kx * y) * m + (xs * ky) * m + kz * m) by (nonlinear_arith)
        requires
            k == kx * y + xs * ky + kz,
    ;
    assert(z == zs + kz * m) by (nonlinear_arith)
        requires
            z == zs + m * kz,
    ;
    assert((x * y + z) - (xs * ys + zs) == k * m);
    vstd::arithmetic::div_mod::lemma_mod_multiples_basic(k, m);
}

/// A value below `m` and its two's complement reading agree modulo `m`.
pub proof fn lemma_signed_residue(v: nat, m: nat)
    requires
        m >= 2,
        v < m,
    ensures
        (v as int - signed_value(v, m)) % (m as int) == 0,
        signed_value(v, m) == 0 <==> v == 0,
        (signed_value(v, m) < 0) == (v >= m / 2),
{
    if v >= m / 2 {
        vstd::arithmetic::div_mod::lemma_mod_self_0(m as int);
    } else {
        vstd::arithmetic::div_mod::lemma_small_mod(0, m);
    }
}

/// Multiples of `m` stay multiples of `m` under `x + y - z`.
pub proof fn lemma_multiples_combine(x: int, y: int, z: int, m: int)
    requires
        m > 0,
        x % m == 0,
        y % m == 0,
        z % m == 0,
    ensures
        (x + y - z) % m == 0,
        (x + y) % m == 0,
{
    vstd::arithmetic::div_mod::lemma_fundamental_div_mod(x, m);
    vstd::arithmetic::div_mod::lemma_fundamental_div_mod(y, m);
    vstd::arithmetic::div_mod::lemma_fundamental_div_mod(z, m);
    let k = x / m + y / m - z / m;
    assert(x + y - z == k * m) by (nonlinear_arith)
        requires
            x == m * (x / m),
            y == m * (y / m),
            z == m * (z / m),
            k == x / m + y / m - z / m,
    ;
    vstd::arithmetic::div_mod::lemma_mod_multiples_basic(k, m);
    let k2 = x / m + y / m;
    assert(x + y == k2 * m) by (nonlinear_arith)
        requires
            x == m * (x / m),
            y == m * (y / m),
            k2 == x / m + y / m,
    ;
    vstd::arithmetic::div_mod::lemma_mod_multiples_basic(k2, m);
}

impl ServerKey {
    /// Unsigned division: with a nonzero divisor `d`, `n == q * d + r` and
    /// `r < d`; with a zero divisor the quotient has all its bits set and the
    /// remainder is the numerator. Both fit in the operands' blocks.
    pub proof fn lemma_unsigned_division_law(&self, n: nat, d: nat, len: nat)
        requires
            self.wf(),
            n < self.modulus(len),
            d < self.modulus(len),
        ensures
            d > 0 ==> n == self.div_quotient(false, n, d, len) * d + self.div_remainder(false, n, d, len)
                && self.div_remainder(false, n, d, len) < d,
            d == 0 ==> self.div_quotient(false, n, d, len) == self.modulus(len) - 1 && self.div_remainder(
                false,
                n,
                d,
                len,
            ) == n,
            self.div_quotient(false, n, d, len) < self.modulus(len),
            self.div_remainder(false, n, d, len) < self.modulus(len),
    {
        lemma_pow_nat_positive(self.msg(), len);
        if d > 0 {
            vstd::arithmetic::div_mod::lemma_fundamental_div_mod(n as int, d as int);
            vstd::arithmetic::div_mod::lemma_div_is_ordered_by_denominator(n as int, 1, d as int);
            vstd::arithmetic::div_mod::lemma_div_basics(n as int);
            vstd::arithmetic::mul::lemma_mul_is_commutative(d as int, (n / d) as int);
        }
    }

    /// Signed division rounds toward zero. Reading values as two's
    /// complement, with a nonzero divisor `b`: `|r| < |b|`, `r` is zero or
    /// has the sign of the numerator `a`, and `a == b * q + r`, except for
    /// the minimum divided by -1, whose quotient wraps to the minimum with a
    /// zero remainder. With a zero divisor the remainder is the numerator and
    /// the quotient is -1 for a negative numerator and 1 otherwise (on a
    /// single one-bit block, where 1 reads as -1, only the remainder is
    /// stated).
    pub proof fn lemma_signed_division_law(&self, n: nat, d: nat, len: nat)
        requires
            self.wf(),
            len >= 1,
            n < self.modulus(len),
            d < self.modulus(len),
        ensures
            ({
                let m = self.modulus(len);
                let a = signed_value(n, m);
                let b = signed_value(d, m);
                let q = signed_value(self.div_quotient(true, n, d, len), m);
                let r = signed_value(self.div_remainder(true, n, d, len), m);
                let overflow = a == -((m / 2) as int) && b == -1;
                &&& (b != 0 && !overflow ==> a == b * q + r)
                &&& (b != 0 ==> abs(r) < abs(b) && (r == 0 || (r < 0) == (a < 0)))
                &&& (overflow ==> q == a && r == 0)
                &&& (b == 0 ==> r == a)
                &&& (b == 0 && m >= 4 ==> q == (if a < 0 { -1int } else { 1int }))
                &&& self.div_quotient(true, n, d, len) < m
                &&& self.div_remainder(true, n, d, len) < m
            }),
    {
        let m = self.modulus(len);
        self.lemma_signed_modulus(len);
        self.lemma_trunc_results(n, d, m);
    }

    /// Division rounded toward negative infinity: reading values as two's
    /// complement, with a nonzero divisor `b`: `|r| < |b|`, `r` is zero or has
    /// the sign of `b`, and `a == b * q + r`, except for the minimum divided
    /// by -1, whose quotient wraps to the minimum with a zero remainder.
    pub proof fn lemma_floor_division_law(&self, n: nat, d: nat, len: nat)
        requires
            self.wf(),
            len >= 1,
            n < self.modulus(len),
            d < self.modulus(len),
        ensures
            ({
                let m = self.modulus(len);
                let a = signed_value(n, m);
                let b = signed_value(d, m);
                let q = signed_value(floor_quotient(n, d, m), m);
                let r = signed_value(floor_remainder(n, d, m), m);
                let overflow = a == -((m / 2) as int) && b == -1;
                &&& (b != 0 && !overflow ==> a == b * q + r)
                &&& (b != 0 ==> abs(r) < abs(b) && (r == 0 || (r < 0) == (b < 0)))
                &&& (overflow ==> q == a && r == 0)
                &&& (b == 0 ==> r == a)
                &&& floor_quotient(n, d, m) < m
                &&& floor_remainder(n, d, m) < m
            }),
    {
        let m = self.modulus(len);
        let h = (m / 2) as int;
        let mi = m as int;
        self.lemma_signed_modulus(len);
        self.lemma_trunc_results(n, d, m);
        let a = signed_value(n, m);
        let b = signed_value(d, m);
        let qs = crate::div_mod::signed_quotient(n, d, m);
        let rs = crate::div_mod::signed_remainder(n, d, m);
        let qt = signed_value(qs, m);
        let rt = signed_value(rs, m);
        if b == 0 {
            assert(d == 0);
            vstd::arithmetic::div_mod::lemma_small_mod(n, m);
        }
        if b != 0 && rs != 0 && (rs >= m / 2) != (d >= m / 2) {
            // The remainder moves to the divisor's side and the quotient down by one.
            assert((rt < 0) != (b < 0));
            assert(abs(rt) < abs(b));
            let rf = rt + b;
            assert(-h <= rf < h);
            assert(rs as int == rt % mi) by {
                lemma_signed_roundtrip(rt, m);
                if rs >= m / 2 {
                    vstd::arithmetic::div_mod::lemma_mod_add_multiples_vanish(rt, mi);
                    vstd::arithmetic::div_mod::lemma_small_mod(rs, m);
                } else {
                    vstd::arithmetic::div_mod::lemma_small_mod(rs, m);
                }
            }
            assert(d as int == b % mi) by {
                if d >= m / 2 {
                    vstd::arithmetic::div_mod::lemma_mod_add_multiples_vanish(b, mi);
                }
                vstd::arithmetic::div_mod::lemma_small_mod(d, m);
            }
            vstd::arithmetic::div_mod::lemma_add_mod_noop(rt, b, mi);
            lemma_signed_roundtrip(rf, m);
            assert(floor_remainder(n, d, m) as int == rf % mi);
            // The truncated quotient is not the minimum here: that needs a
            // zero remainder.
            assert(qt > -h) by {
                if qt == -h {
                    lemma_trunc_div_parts(a, b);
                    if !(a == -h && b == -1) {
                        assert(abs(a) / abs(b) == h);
                        if abs(b) > 1 {
                            vstd::arithmetic::div_mod::lemma_div_is_ordered_by_denominator(abs(a), 2, abs(b));
                            vstd::arithmetic::div_mod::lemma_fundamental_div_mod(abs(a), 2);
                        }
                        assert(abs(b) == 1);
                        vstd::arithmetic::div_mod::lemma_div_basics(abs(a));
                        vstd::arithmetic::div_mod::lemma_fundamental_div_mod(abs(a), 1);
                    }
                    assert(rt == 0);
                }
            }
            let qf = qt - 1;
            assert(qs as int == qt % mi) by {
                if qs >= m / 2 {
                    vstd::arithmetic::div_mod::lemma_mod_add_multiples_vanish(qt, mi);
                }
                vstd::arithmetic::div_mod::lemma_small_mod(qs, m);
            }
            vstd::arithmetic::div_mod::lemma_sub_mod_noop(qs as int, 1, mi);
            vstd::arithmetic::div_mod::lemma_mod_twice(qt, mi);
            vstd::arithmetic::div_mod::lemma_small_mod(1, m);
            vstd::arithmetic::div_mod::lemma_sub_mod_noop(qt, 1, mi);
            lemma_signed_roundtrip(qf, m);
            assert(floor_quotient(n, d, m) as int == qf % mi);
            assert(b * qf + rf == b * qt + rt) by (nonlinear_arith)
                requires
                    qf == qt - 1,
                    rf == rt + b,
            ;
        }
    }

    /// The modulus of at least one block is even and at least 2.
    proof fn lemma_signed_modulus(&self, len: nat)
        requires
            self.wf(),
            len >= 1,
        ensures
            self.modulus(len) >= 2,
            self.modulus(len) % 2 == 0,
    {
        self.lemma_modulus_even(len);
        crate::radix::lemma_pow_nat_increases(self.msg(), 1, len);
        assert(pow_nat(self.msg(), 1) == self.msg() * pow_nat(self.msg(), 0));
        assert(self.msg() * 1 == self.msg());
    }

    /// The values that truncated signed division gives.
    proof fn lemma_trunc_results(&self, n: nat, d: nat, m: nat)
        requires
            m >= 2,
            m % 2 == 0,
            n < m,
            d < m,
        ensures
            ({
                let a = signed_value(n, m);
                let b = signed_value(d, m);
                let q = signed_value(crate::div_mod::signed_quotient(n, d, m), m);
                let r = signed_value(crate::div_mod::signed_remainder(n, d, m), m);
                let overflow = a == -((m / 2) as int) && b == -1;
                &&& (b != 0 && !overflow ==> a == b * q + r)
                &&& (b != 0 && !overflow ==> q == trunc_div(a, b))
                &&& (b != 0 ==> r == a - b * trunc_div(a, b))
                &&& (b != 0 ==> abs(r) < abs(b) && (r == 0 || (r < 0) == (a < 0)))
                &&& (overflow ==> q == a && r == 0)
                &&& (b == 0 ==> r == a)
                &&& (b == 0 && m >= 4 ==> q == (if a < 0 { -1int } else { 1int }))
                &&& crate::div_mod::signed_quotient(n, d, m) < m
                &&& crate::div_mod::signed_remainder(n, d, m) < m
            }),
    {
        let mi = m as int;
        let h = (m / 2) as int;
        let a = signed_value(n, m);
        let b = signed_value(d, m);
        assert(-h <= a < h);
        assert(-h <= b < h);
        if b == 0 {
            vstd::arithmetic::div_mod::lemma_mod_add_multiples_vanish(1 - mi, mi);
            vstd::arithmetic::div_mod::lemma_small_mod(1, m);
            vstd::arithmetic::div_mod::lemma_small_mod((m - 1) as nat, m);
        } else {
            lemma_trunc_div_parts(a, b);
            let t = trunc_div(a, b);
            let rr = a - b * t;
            assert(abs(rr) < abs(b));
            lemma_signed_roundtrip(rr, m);
            assert(abs(t) <= h);
            if a == -h && b == -1 {
                assert(abs(a) % abs(b) == 0) by {
                    vstd::arithmetic::div_mod::lemma_div_basics(abs(a));
                    vstd::arithmetic::div_mod::lemma_fundamental_div_mod(abs(a), 1);
                }
                assert(abs(a) / abs(b) == abs(a)) by {
                    vstd::arithmetic::div_mod::lemma_div_basics(abs(a));
                }
                assert(t == h);
                vstd::arithmetic::div_mod::lemma_small_mod(h as nat, m);
                assert(rr == 0);
            } else {
                if t == h {
                    // Only the minimum divided by -1 gives `h`.
                    assert(abs(a) == h);
                    assert(a == -h);
                    assert(abs(a) / abs(b) == h);
                    if abs(b) > 1 {
                        vstd::arithmetic::div_mod::lemma_div_is_ordered_by_denominator(abs(a), 2, abs(b));
                        vstd::arithmetic::div_mod::lemma_fundamental_div_mod(abs(a), 2);
                    }
                    assert(abs(b) == 1);
                    assert(false);
                }
                lemma_signed_roundtrip(t, m);
            }
        }
    }

    /// The flag of the checked divisions is set exactly when every block of
    /// the divisor holds 0. For a divisor with empty carries that is exactly
    /// when it is 0; for any divisor, when it is set the divisor is 0 once its
    /// carries are propagated.
    pub proof fn lemma_zero_divisor_flag(&self, d: Seq<Ciphertext>)
        requires
            self.wf(),
            self.blocks_wf(d),
        ensures
            all_zero(d) ==> reduced(self.value(d), self.msg(), d.len()) == 0,
            self.clean(d) ==> (all_zero(d) == (self.value(d) == 0)),
    {
        self.lemma_wf();
        crate::radix::lemma_radix_zero(d, self.msg());
        lemma_pow_nat_positive(self.msg(), d.len());
        vstd::arithmetic::div_mod::lemma_small_mod(0, pow_nat(self.msg(), d.len()));
    }

    /// On operands whose blocks have empty carries, the entry points that
    /// propagate carries first give what the unchecked division gives.
    pub proof fn lemma_clean_operands_need_no_propagation(
        &self,
        signed: bool,
        n: Seq<Ciphertext>,
        d: Seq<Ciphertext>,
    )
        requires
            self.wf(),
            self.clean(n),
            self.clean(d),
            n.len() == d.len(),
        ensures
            self.quotient_of(signed, n, d) == self.div_quotient(signed, self.value(n), self.value(d), n.len()),
            self.remainder_of(signed, n, d) == self.div_remainder(signed, self.value(n), self.value(d), n.len()),
    {
        self.lemma_clean_value_small(n);
        self.lemma_clean_value_small(d);
    }
    /// Quotient times divisor plus remainder gives back the numerator, as
    /// values below `m = msg ^ len`, for every numerator and divisor: a zero
    /// divisor, and the minimum divided by -1, included; unsigned or read as
    /// two's complement.
    pub proof fn lemma_division_residue_law(&self, signed: bool, n: nat, d: nat, len: nat)
        requires
            self.wf(),
            signed ==> len >= 1,
            n < self.modulus(len),
            d < self.modulus(len),
        ensures
            (self.div_quotient(signed, n, d, len) * d + self.div_remainder(signed, n, d, len)) % self.modulus(
                len,
            ) == n,
    {
        let m = self.modulus(len);
        let mi = m as int;
        let q = self.div_quotient(signed, n, d, len);
        let r = self.div_remainder(signed, n, d, len);
        lemma_pow_nat_positive(self.msg(), len);
        if !signed {
            self.lemma_unsigned_division_law(n, d, len);
            if d == 0 {
                assert(q * d == 0) by (nonlinear_arith)
                    requires
                        d == 0,
                ;
            }
            vstd::arithmetic::div_mod::lemma_small_mod(n, m);
        } else {
            self.lemma_signed_division_law(n, d, len);
            self.lemma_signed_modulus(len);
            let a = signed_value(n, m);
            let b = signed_value(d, m);
            let qs = signed_value(q, m);
            let rs = signed_value(r, m);
            lemma_signed_residue(n, m);
            lemma_signed_residue(d, m);
            lemma_signed_residue(q, m);
            lemma_signed_residue(r, m);
            lemma_residue_mul_add(q as int, d as int, r as int, qs, b, rs, mi);
            // The signed relation holds modulo `m` in every case.
            assert((qs * b + rs - a) % mi == 0) by {
                let h = (m / 2) as int;
                if b == 0 {
                    assert(qs * b == 0) by (nonlinear_arith)
                        requires
                            b == 0,
                    ;
                    vstd::arithmetic::div_mod::lemma_small_mod(0, m);
                } else if a == -h && b == -1 {
                    assert(qs * b + rs - a == mi);
                    vstd::arithmetic::div_mod::lemma_mod_self_0(mi);
                } else {
                    assert(b * qs == qs * b) by (nonlinear_arith);
                    vstd::arithmetic::div_mod::lemma_small_mod(0, m);
                }
            }
            lemma_residue_mul_add(q as int, d as int, r as int, qs, b, rs, mi);
            assert(((q * d + r) as int - n as int) % mi == 0) by {
                let x = (q * d + r) as int;
                vstd::arithmetic::div_mod::lemma_mod_equivalence(x, qs * b + rs, mi);
                vstd::arithmetic::div_mod::lemma_mod_equivalence(qs * b + rs, a, mi);
                vstd::arithmetic::div_mod::lemma_mod_equivalence(n as int, a, mi);
                vstd::arithmetic::div_mod::lemma_mod_equivalence(x, n as int, mi);
            }
            vstd::arithmetic::div_mod::lemma_mod_equivalence((q * d + r) as int, n as int, mi);
            vstd::arithmetic::div_mod::lemma_small_mod(n, m);
        }
    }

    /// The same for the division rounded toward negative infinity: quotient
    /// times divisor plus remainder gives back the numerator modulo
    /// `msg ^ len`, for every numerator and divisor; with a zero divisor the
    /// remainder is the numerator.
    pub proof fn lemma_floor_division_residue_law(&self, n: nat, d: nat, len: nat)
        requires
            self.wf(),
            len >= 1,
            n < self.modulus(len),
            d < self.modulus(len),
        ensures
            (floor_quotient(n, d, self.modulus(len)) * d + floor_remainder(n, d, self.modulus(len)))
                % self.modulus(len) == n,
            d == 0 ==> floor_remainder(n, d, self.modulus(len)) == n,
    {
        let m = self.modulus(len);
        let mi = m as int;
        let q = floor_quotient(n, d, m);
        let r = floor_remainder(n, d, m);
        self.lemma_floor_division_law(n, d, len);
        self.lemma_signed_modulus(len);
        let a = signed_value(n, m);
        let b = signed_value(d, m);
        let qs = signed_value(q, m);
        let rs = signed_value(r, m);
        lemma_signed_residue(n, m);
        lemma_signed_residue(d, m);
        lemma_signed_residue(q, m);
        lemma_signed_residue(r, m);
        assert((qs * b + rs - a) % mi == 0) by {
            let h = (m / 2) as int;
            if b == 0 {
                assert(qs * b == 0) by (nonlinear_arith)
                    requires
                        b == 0,
                ;
                vstd::arithmetic::div_mod::lemma_small_mod(0, m);
            } else if a == -h && b == -1 {
                assert(qs * b + rs - a == mi);
                vstd::arithmetic::div_mod::lemma_mod_self_0(mi);
            } else {
                assert(b * qs == qs * b) by (nonlinear_arith);
                vstd::arithmetic::div_mod::lemma_small_mod(0, m);
            }
        }
        lemma_residue_mul_add(q as int, d as int, r as int, qs, b, rs, mi);
        assert(((q * d + r) as int - n as int) % mi == 0) by {
            let x = (q * d + r) as int;
            vstd::arithmetic::div_mod::lemma_mod_equivalence(x, qs * b + rs, mi);
            vstd::arithmetic::div_mod::lemma_mod_equivalence(qs * b + rs, a, mi);
            vstd::arithmetic::div_mod::lemma_mod_equivalence(n as int, a, mi);
            vstd::arithmetic::div_mod::lemma_mod_equivalence(x, n as int, mi);
        }
        vstd::arithmetic::div_mod::lemma_mod_equivalence((q * d + r) as int, n as int, mi);
        vstd::arithmetic::div_mod::lemma_small_mod(n, m);
        if d == 0 {
            assert(b == 0);
            assert(r < m);
            if r >= m / 2 {
                assert(rs == r - m);
            }
        }
    }

    /// Floor division moves the truncated result by one step exactly when
    /// the truncated remainder is nonzero and its sign differs from the
    /// divisor's: the quotient goes down by one and the remainder up by the
    /// divisor (modulo `msg ^ len`); otherwise both are the same.
    pub proof fn lemma_floor_from_truncated(&self, n: nat, d: nat, len: nat)
        requires
            self.wf(),
            len >= 1,
            n < self.modulus(len),
            d < self.modulus(len),
        ensures
            ({
                let m = self.modulus(len);
                let qt = signed_value(self.div_quotient(true, n, d, len), m);
                let rt = signed_value(self.div_remainder(true, n, d, len), m);
                let qf = signed_value(floor_quotient(n, d, m), m);
                let rf = signed_value(floor_remainder(n, d, m), m);
                let b = signed_value(d, m);
                let adjusted = rt != 0 && (rt < 0) != (b < 0);
                &&& (adjusted ==> (qf - (qt - 1)) % (m as int) == 0 && (rf - (rt + b)) % (m as int) == 0)
                &&& (!adjusted ==> qf == qt && rf == rt)
            }),
    {
        let m = self.modulus(len);
        let mi = m as int;
        self.lemma_signed_modulus(len);
        self.lemma_signed_division_law(n, d, len);
        self.lemma_floor_division_law(n, d, len);
        let qn = self.div_quotient(true, n, d, len);
        let rn = self.div_remainder(true, n, d, len);
        lemma_signed_residue(qn, m);
        lemma_signed_residue(rn, m);
        lemma_signed_residue(d, m);
        let qf = floor_quotient(n, d, m);
        let rf = floor_remainder(n, d, m);
        lemma_signed_residue(qf, m);
        lemma_signed_residue(rf, m);
        let qt = signed_value(qn, m);
        let rt = signed_value(rn, m);
        let b = signed_value(d, m);
        if rn != 0 && (rn >= m / 2) != (d >= m / 2) {
            // `qf = (qn - 1) mod m` and `rf = (rn + d) mod m`.
            vstd::arithmetic::div_mod::lemma_fundamental_div_mod(qn as int - 1, mi);
            vstd::arithmetic::div_mod::lemma_fundamental_div_mod(rn as int + d as int, mi);
            let k1 = (qn as int - 1) / mi;
            let k2 = (rn as int + d as int) / mi;
            assert((qf as int - (qn as int - 1)) % mi == 0) by {
                assert((qf as int - (qn as int - 1)) == (-k1) * mi) by (nonlinear_arith)
                    requires
                        qf as int == (qn as int - 1) - mi * k1,
                ;
                vstd::arithmetic::div_mod::lemma_mod_multiples_basic(-k1, mi);
            }
            assert((rf as int - (rn as int + d as int)) % mi == 0) by {
                assert((rf as int - (rn as int + d as int)) == (-k2) * mi) by (nonlinear_arith)
                    requires
                        rf as int == (rn as int + d as int) - mi * k2,
                ;
                vstd::arithmetic::div_mod::lemma_mod_multiples_basic(-k2, mi);
            }
            // Chain the residues through the signed readings.
            lemma_multiples_combine(
                qf as int - (qn as int - 1),
                qn as int - qt,
                qf as int - signed_value(qf, m),
                mi,
            );
            assert(signed_value(qf, m) - (qt - 1) == (qf as int - (qn as int - 1)) + (qn as int - qt) - (
            qf as int - signed_value(qf, m)));
            lemma_multiples_combine(
                rf as int - (rn as int + d as int),
                (rn as int - rt) + (d as int - b),
                rf as int - signed_value(rf, m),
                mi,
            );
            lemma_multiples_combine(rn as int - rt, d as int - b, 0, mi);
            assert(signed_value(rf, m) - (rt + b) == (rf as int - (rn as int + d as int)) + ((rn as int - rt)
                + (d as int - b)) - (rf as int - signed_value(rf, m)));
        }
    }
    /// Propagating carries does not change what division gives: dividing the
    /// operands that the smart variants leave behind (propagated in place)
    /// gives the same quotient and remainder as dividing the original
    /// operands, which is what the plain, smart, assigning and checked
    /// variants all return.
    pub proof fn lemma_propagated_operands_same_result(
        &self,
        signed: bool,
        n: Seq<Ciphertext>,
        d: Seq<Ciphertext>,
        n2: Seq<Ciphertext>,
        d2: Seq<Ciphertext>,
    )
        requires
            self.wf(),
            n2.len() == n.len(),
            d2.len() == d.len(),
            self.clean(n2),
            self.clean(d2),
            self.value(n2) == reduced(self.value(n), self.msg(), n.len()),
            self.value(d2) == reduced(self.value(d), self.msg(), d.len()),
        ensures
            self.quotient_of(signed, n2, d2) == self.quotient_of(signed, n, d),
            self.remainder_of(signed, n2, d2) == self.remainder_of(signed, n, d),
    {
        self.lemma_clean_value_small(n2);
        self.lemma_clean_value_small(d2);
    }
}

} // verus!
