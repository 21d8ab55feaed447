//! A plaintext model of shortint ciphertexts: each block carries the value it
//! encrypts (message and carries together) and its degree, the public upper
//! bound on that value that the server key tracks.
use vstd::prelude::*;

verus! {

/// Upper bound on a block's degree: keeps degree arithmetic inside `u64`.
pub const DEGREE_BOUND: u64 = 0x1_0000_0000;

/// Number of distinct values a block's message part can take.
#[derive(Clone, Copy)]
pub struct MessageModulus(pub u64);

/// Number of distinct values a block's carry part can take.
#[derive(Clone, Copy)]
pub struct CarryModulus(pub u64);

/// One block of a radix integer.
#[derive(Clone, Copy)]
pub struct Ciphertext {
    /// The plaintext held by the block: message and carries together.
    pub value: u64,
    /// Public upper bound on `value`.
    pub degree: u64,
    pub message_modulus: MessageModulus,
    pub carry_modulus: CarryModulus,
}

/// A univariate function on the plaintext space, given as a table.
pub struct LookupTable {
    pub table: Vec<u64>,
    /// The largest entry of the table.
    pub degree: u64,
}

/// A function of two blocks, evaluated on `lhs * ct_right_modulus + rhs`.
pub struct BivariateLookupTable {
    pub acc: LookupTable,
    pub ct_right_modulus: MessageModulus,
}

/// The parameters of a shortint server key.
#[derive(Clone, Copy)]
pub struct ShortintServerKey {
    pub message_modulus: MessageModulus,
    pub carry_modulus: CarryModulus,
}

/// Position in a bivariate table of the pair `(lhs, rhs)` packed with `factor`.
pub open spec fn packed_index(lhs: nat, rhs: nat, factor: nat) -> nat {
    lhs * factor + rhs
}

/// `y` is what a table built from `f` holds at input `x`.
pub open spec fn lut_entry<F: Fn(u64) -> u64>(f: F, x: u64, y: u64, size: nat) -> bool {
    exists|r: u64| #[trigger] f.ensures((x,), r) && y as nat == r as nat % size
}

/// `y` is what a bivariate table built from `f` holds at the pair `(l, r)`.
pub open spec fn bivariate_lut_entry<F: Fn(u64, u64) -> u64>(
    f: F,
    l: u64,
    r: u64,
    y: u64,
    size: nat,
) -> bool {
    exists|o: u64| #[trigger] f.ensures((l, r), o) && y as nat == o as nat % size
}

impl ShortintServerKey {
    /// Number of distinct plaintexts of a block.
    pub open spec fn size(&self) -> nat {
        self.message_modulus.0 as nat * self.carry_modulus.0 as nat
    }

    pub open spec fn wf(&self) -> bool {
        &&& self.message_modulus.0 >= 2
        &&& self.carry_modulus.0 >= 1
        &&& self.size() < 0x1_0000
    }

    /// A block made under this key, whose value fits the plaintext space.
    pub open spec fn block_wf(&self, ct: Ciphertext) -> bool {
        &&& ct.message_modulus.0 == self.message_modulus.0
        &&& ct.carry_modulus.0 == self.carry_modulus.0
        &&& ct.value <= ct.degree
        &&& (ct.value as nat) < self.size()
        &&& ct.degree <= DEGREE_BOUND
    }

    pub proof fn lemma_size_bounds(&self)
        requires
            self.wf(),
        ensures
            self.message_modulus.0 as nat <= self.size(),
            self.size() >= 2,
    {
        vstd::arithmetic::mul::lemma_mul_inequality(
            1,
            self.carry_modulus.0 as int,
            self.message_modulus.0 as int,
        );
        vstd::arithmetic::mul::lemma_mul_is_commutative(
            self.carry_modulus.0 as int,
            self.message_modulus.0 as int,
        );
    }

    pub open spec fn lut_wf(&self, lut: &LookupTable) -> bool {
        &&& lut.table@.len() == self.size()
        &&& forall|i: int|
            0 <= i < lut.table@.len() ==> #[trigger] lut.table@[i] <= lut.degree
                && (lut.table@[i] as nat) < self.size()
        &&& exists|i: int| 0 <= i < lut.table@.len() && #[trigger] lut.table@[i] == lut.degree
    }

    /// A table's degree is one of its entries, so it lies in the plaintext space.
    pub proof fn lemma_lut_degree_bound(&self, lut: &LookupTable)
        requires
            self.lut_wf(lut),
        ensures
            (lut.degree as nat) < self.size(),
    {
        let i = choose|i: int| 0 <= i < lut.table@.len() && #[trigger] lut.table@[i] == lut.degree;
        assert(lut.table@[i] < self.size());
    }

    pub open spec fn bivariate_lut_wf(&self, lut: &BivariateLookupTable) -> bool {
        &&& self.lut_wf(&lut.acc)
        &&& lut.ct_right_modulus.0 >= 1
    }

    /// A block that holds `value` in the clear.
    pub fn create_trivial(&self, value: u64) -> (ct: Ciphertext)
        requires
            self.wf(),
            (value as nat) < self.size(),
        ensures
            self.block_wf(ct),
            ct.value == value,
            ct.degree == value,
    {
        Ciphertext {
            value,
            degree: value,
            message_modulus: self.message_modulus,
            carry_modulus: self.carry_modulus,
        }
    }

    /// Tabulates `f` over the whole plaintext space, reduced modulo its size.
    pub fn generate_lookup_table<F: Fn(u64) -> u64>(&self, f: F) -> (lut: LookupTable)
        requires
            self.wf(),
            forall|x: u64| (x as nat) < self.size() ==> #[trigger] f.requires((x,)),
        ensures
            self.lut_wf(&lut),
            forall|x: u64|
                (x as nat) < self.size() ==> lut_entry(f, x, #[trigger] lut.table@[x as int], self.size()),
    {
        let size = self.message_modulus.0 * self.carry_modulus.0;
        let mut table: Vec<u64> = Vec::new();
        let mut degree: u64 = 0;
        let mut x: u64 = 0;
        while x < size
            invariant
                size as nat == self.size(),
                self.wf(),
                forall|x: u64| (x as nat) < self.size() ==> #[trigger] f.requires((x,)),
                x <= size,
                table@.len() == x,
                forall|i: int|
                    0 <= i < x ==> #[trigger] table@[i] <= degree && (table@[i] as nat) < size,
                x > 0 ==> exists|i: int| 0 <= i < x && #[trigger] table@[i] == degree,
                x == 0 ==> degree == 0,
                forall|y: u64| y < x ==> lut_entry(f, y, #[trigger] table@[y as int], self.size()),
            decreases size - x,
        {
            let r = f(x);
            let v = r % size;
            assert(lut_entry(f, x, v, self.size()));
            let ghost before = table@;
            let ghost w: int = if x > 0 {
                choose|i: int| 0 <= i < x && #[trigger] table@[i] == degree
            } else {
                0
            };
            table.push(v);
            assert(forall|i: int| 0 <= i < x ==> table@[i] == before[i]);
            assert(table@[x as int] == v);
            if v > degree {
                degree = v;
            } else if x == 0 {
                assert(table@[0] == degree);
            } else {
                assert(table@[w] == degree);
            }
            x = x + 1;
        }
        proof {
            self.lemma_size_bounds();
        }
        assert(table@[0] <= degree);
        LookupTable { table, degree }
    }

    /// Tabulates `f(lhs, rhs)` for the pairs packed as `lhs * factor + rhs`.
    pub fn generate_lookup_table_bivariate_with_factor<F: Fn(u64, u64) -> u64>(
        &self,
        f: F,
        left_message_scaling: MessageModulus,
    ) -> (lut: BivariateLookupTable)
        requires
            self.wf(),
            left_message_scaling.0 >= 1,
            forall|l: u64, r: u64|
                l < self.message_modulus.0 && r < self.message_modulus.0 ==> #[trigger] f.requires(
                    (l, r),
                ),
        ensures
            self.bivariate_lut_wf(&lut),
            lut.ct_right_modulus.0 == left_message_scaling.0,
            forall|y: u64|
                (y as nat) < self.size() ==> bivariate_lut_entry(
                    f,
                    (y / left_message_scaling.0) % self.message_modulus.0,
                    (y % left_message_scaling.0) % self.message_modulus.0,
                    #[trigger] lut.acc.table@[y as int],
                    self.size(),
                ),
            forall|l: u64, r: u64|
                l < self.message_modulus.0 && r < self.message_modulus.0 && r
                    < left_message_scaling.0 && packed_index(
                    l as nat,
                    r as nat,
                    left_message_scaling.0 as nat,
                ) < self.size() ==> bivariate_lut_entry(
                    f,
                    l,
                    r,
                    #[trigger] lut.acc.table@[packed_index(
                        l as nat,
                        r as nat,
                        left_message_scaling.0 as nat,
                    ) as int],
                    self.size(),
                ),
    {
        let size = self.message_modulus.0 * self.carry_modulus.0;
        let factor = left_message_scaling.0;
        let msg = self.message_modulus.0;
        let mut table: Vec<u64> = Vec::new();
        let mut degree: u64 = 0;
        let mut x: u64 = 0;
        while x < size
            invariant
                size as nat == self.size(),
                msg == self.message_modulus.0,
                factor == left_message_scaling.0,
                factor >= 1,
                self.wf(),
                forall|l: u64, r: u64|
                    l < self.message_modulus.0 && r < self.message_modulus.0
                        ==> #[trigger] f.requires((l, r)),
                x <= size,
                table@.len() == x,
                forall|i: int|
                    0 <= i < x ==> #[trigger] table@[i] <= degree && (table@[i] as nat) < size,
                x > 0 ==> exists|i: int| 0 <= i < x && #[trigger] table@[i] == degree,
                x == 0 ==> degree == 0,
                forall|y: u64|
                    y < x ==> bivariate_lut_entry(
                        f,
                        (y / factor) % msg,
                        (y % factor) % msg,
                        #[trigger] table@[y as int],
                        self.size(),
                    ),
            decreases size - x,
        {
            let lhs = (x / factor) % msg;
            let rhs = (x % factor) % msg;
            let o = f(lhs, rhs);
            let v = o % size;
            assert(bivariate_lut_entry(f, lhs, rhs, v, self.size()));
            let ghost before = table@;
            let ghost w: int = if x > 0 {
                choose|i: int| 0 <= i < x && #[trigger] table@[i] == degree
            } else {
                0
            };
            table.push(v);
            assert(forall|i: int| 0 <= i < x ==> table@[i] == before[i]);
            assert(table@[x as int] == v);
            if v > degree {
                degree = v;
            } else if x == 0 {
                assert(table@[0] == degree);
            } else {
                assert(table@[w] == degree);
            }
            x = x + 1;
        }
        proof {
            self.lemma_size_bounds();
        }
        assert(table@[0] <= degree);
        assert forall|l: u64, r: u64|
            l < self.message_modulus.0 && r < self.message_modulus.0 && r < left_message_scaling.0
                && packed_index(l as nat, r as nat, left_message_scaling.0 as nat)
                < self.size() implies bivariate_lut_entry(
            f,
            l,
            r,
            #[trigger] table@[packed_index(l as nat, r as nat, left_message_scaling.0 as nat) as int],
            self.size(),
        ) by {
            let y = packed_index(l as nat, r as nat, factor as nat);
            lemma_packed_index_parts(l as nat, r as nat, factor as nat);
            vstd::arithmetic::div_mod::lemma_small_mod(l as nat, msg as nat);
            vstd::arithmetic::div_mod::lemma_small_mod(r as nat, msg as nat);
            assert(((y as u64) / factor) % msg == l);
            assert(((y as u64) % factor) % msg == r);
        }
        let acc = LookupTable { table, degree };
        assert(self.lut_wf(&acc));
        BivariateLookupTable { acc, ct_right_modulus: MessageModulus(factor) }
    }

    /// Bivariate table with the message modulus as packing factor.
    pub fn generate_lookup_table_bivariate<F: Fn(u64, u64) -> u64>(&self, f: F) -> (lut:
        BivariateLookupTable)
        requires
            self.wf(),
            forall|l: u64, r: u64|
                l < self.message_modulus.0 && r < self.message_modulus.0 ==> #[trigger] f.requires(
                    (l, r),
                ),
        ensures
            self.bivariate_lut_wf(&lut),
            lut.ct_right_modulus.0 == self.message_modulus.0,
            forall|y: u64|
                (y as nat) < self.size() ==> bivariate_lut_entry(
                    f,
                    (y / self.message_modulus.0) % self.message_modulus.0,
                    (y % self.message_modulus.0) % self.message_modulus.0,
                    #[trigger] lut.acc.table@[y as int],
                    self.size(),
                ),
            forall|l: u64, r: u64|
                l < self.message_modulus.0 && r < self.message_modulus.0 && packed_index(
                    l as nat,
                    r as nat,
                    self.message_modulus.0 as nat,
                ) < self.size() ==> bivariate_lut_entry(
                    f,
                    l,
                    r,
                    #[trigger] lut.acc.table@[packed_index(
                        l as nat,
                        r as nat,
                        self.message_modulus.0 as nat,
                    ) as int],
                    self.size(),
                ),
    {
        self.generate_lookup_table_bivariate_with_factor(f, self.message_modulus)
    }

    /// Evaluates the table on the block's value.
    pub fn apply_lookup_table(&self, ct: &Ciphertext, lut: &LookupTable) -> (res: Ciphertext)
        requires
            self.wf(),
            self.block_wf(*ct),
            self.lut_wf(lut),
        ensures
            self.block_wf(res),
            res.value == lut.table@[ct.value as int],
            res.degree == lut.degree,
    {
        let v = lut.table[ct.value as usize];
        Ciphertext {
            value: v,
            degree: lut.degree,
            message_modulus: self.message_modulus,
            carry_modulus: self.carry_modulus,
        }
    }

    pub fn apply_lookup_table_assign(&self, ct: &mut Ciphertext, lut: &LookupTable)
        requires
            self.wf(),
            self.block_wf(*old(ct)),
            self.lut_wf(lut),
        ensures
            self.block_wf(*final(ct)),
            final(ct).value == lut.table@[old(ct).value as int],
            final(ct).degree == lut.degree,
    {
        *ct = self.apply_lookup_table(ct, lut);
    }

    /// Adds the plaintexts, without any carry handling.
    pub fn unchecked_add(&self, lhs: &Ciphertext, rhs: &Ciphertext) -> (res: Ciphertext)
        requires
            self.wf(),
            self.block_wf(*lhs),
            self.block_wf(*rhs),
            (lhs.value + rhs.value) < self.size(),
            lhs.degree + rhs.degree <= DEGREE_BOUND,
        ensures
            self.block_wf(res),
            res.value == lhs.value + rhs.value,
            res.degree == lhs.degree + rhs.degree,
    {
        Ciphertext {
            value: lhs.value + rhs.value,
            degree: lhs.degree + rhs.degree,
            message_modulus: lhs.message_modulus,
            carry_modulus: lhs.carry_modulus,
        }
    }

    pub fn unchecked_add_assign(&self, lhs: &mut Ciphertext, rhs: &Ciphertext)
        requires
            self.wf(),
            self.block_wf(*old(lhs)),
            self.block_wf(*rhs),
            (old(lhs).value + rhs.value) < self.size(),
            old(lhs).degree + rhs.degree <= DEGREE_BOUND,
        ensures
            self.block_wf(*final(lhs)),
            final(lhs).value == old(lhs).value + rhs.value,
            final(lhs).degree == old(lhs).degree + rhs.degree,
    {
        *lhs = self.unchecked_add(lhs, rhs);
    }

    /// Adds two blocks; on this model the same as the unchecked addition.
    pub fn add_assign(&self, lhs: &mut Ciphertext, rhs: &Ciphertext)
        requires
            self.wf(),
            self.block_wf(*old(lhs)),
            self.block_wf(*rhs),
            (old(lhs).value + rhs.value) < self.size(),
            old(lhs).degree + rhs.degree <= DEGREE_BOUND,
        ensures
            self.block_wf(*final(lhs)),
            final(lhs).value == old(lhs).value + rhs.value,
            final(lhs).degree == old(lhs).degree + rhs.degree,
    {
        self.unchecked_add_assign(lhs, rhs);
    }

    /// Multiplies the plaintext by a small scalar, without carry handling.
    pub fn unchecked_scalar_mul_assign(&self, ct: &mut Ciphertext, scalar: u8)
        requires
            self.wf(),
            self.block_wf(*old(ct)),
            (old(ct).value * scalar) < self.size(),
            old(ct).degree * scalar <= DEGREE_BOUND,
        ensures
            self.block_wf(*final(ct)),
            final(ct).value == old(ct).value * scalar,
            final(ct).degree == old(ct).degree * scalar,
    {
        proof {
            vstd::arithmetic::mul::lemma_mul_inequality(
                ct.value as int,
                ct.degree as int,
                scalar as int,
            );
        }
        ct.value = ct.value * (scalar as u64);
        ct.degree = ct.degree * (scalar as u64);
    }

    /// Packs the two blocks and evaluates the bivariate table on them.
    pub fn unchecked_apply_lookup_table_bivariate(
        &self,
        ct_left: &Ciphertext,
        ct_right: &Ciphertext,
        acc: &BivariateLookupTable,
    ) -> (res: Ciphertext)
        requires
            self.wf(),
            self.block_wf(*ct_left),
            self.block_wf(*ct_right),
            self.bivariate_lut_wf(acc),
            acc.ct_right_modulus.0 < 256,
            packed_index(ct_left.value as nat, ct_right.value as nat, acc.ct_right_modulus.0 as nat)
                < self.size(),
            ct_left.degree * acc.ct_right_modulus.0 + ct_right.degree <= DEGREE_BOUND,
        ensures
            self.block_wf(res),
            res.value == acc.acc.table@[packed_index(
                ct_left.value as nat,
                ct_right.value as nat,
                acc.ct_right_modulus.0 as nat,
            ) as int],
            res.degree == acc.acc.degree,
    {
        let mut tmp = *ct_left;
        proof {
            vstd::arithmetic::mul::lemma_mul_inequality(
                ct_left.value as int,
                ct_left.degree as int,
                acc.ct_right_modulus.0 as int,
            );
        }
        self.unchecked_scalar_mul_assign(&mut tmp, acc.ct_right_modulus.0 as u8);
        self.unchecked_add_assign(&mut tmp, ct_right);
        self.apply_lookup_table_assign(&mut tmp, &acc.acc);
        tmp
    }

    /// Keeps the message part of the block and clears its carries.
    pub fn message_extract(&self, ct: &Ciphertext) -> (res: Ciphertext)
        requires
            self.wf(),
            self.block_wf(*ct),
        ensures
            self.block_wf(res),
            res.value == ct.value % self.message_modulus.0,
            res.degree < self.message_modulus.0,
    {
        let msg = self.message_modulus.0;
        let f = move |x: u64| -> (r: u64)
            ensures
                r == x % msg,
            { x % msg };
        let lut = self.generate_lookup_table(f);
        proof {
            self.lemma_size_bounds();
            let i = choose|i: int| 0 <= i < lut.table@.len() && #[trigger] lut.table@[i] == lut.degree;
            assert(lut_entry(f, i as u64, lut.table@[i], self.size()));
            assert(lut_entry(f, ct.value, lut.table@[ct.value as int], self.size()));
            let r = choose|r: u64| #[trigger] f.ensures((ct.value,), r) && lut.table@[ct.value as int] as nat == r as nat % self.size();
            assert(r == ct.value % msg);
            vstd::arithmetic::div_mod::lemma_small_mod(r as nat, self.size());
            let r2 = choose|r: u64| #[trigger] f.ensures((i as u64,), r) && lut.table@[i] as nat == r as nat % self.size();
            assert(r2 == (i as u64) % msg);
            vstd::arithmetic::div_mod::lemma_small_mod(r2 as nat, self.size());
        }
        self.apply_lookup_table(ct, &lut)
    }

    pub fn message_extract_assign(&self, ct: &mut Ciphertext)
        requires
            self.wf(),
            self.block_wf(*old(ct)),
        ensures
            self.block_wf(*final(ct)),
            final(ct).value == old(ct).value % self.message_modulus.0,
            final(ct).degree < self.message_modulus.0,
    {
        *ct = self.message_extract(ct);
    }
}

/// `lhs * factor + rhs` splits back into `lhs` and `rhs` when `rhs < factor`.
pub proof fn lemma_packed_index_parts(lhs: nat, rhs: nat, factor: nat)
    requires
        rhs < factor,
    ensures
        packed_index(lhs, rhs, factor) / factor == lhs,
        packed_index(lhs, rhs, factor) % factor == rhs,
{
    vstd::arithmetic::div_mod::lemma_fundamental_div_mod_converse(
        packed_index(lhs, rhs, factor) as int,
        factor as int,
        lhs as int,
        rhs as int,
    );
}

} // verus!
