//! Table-driven arithmetic over one field GF(2^p): addition and subtraction
//! are bitwise XOR, multiplication and division go through the discrete
//! exponent and logarithm tables.

use crate::error::FieldError;
use crate::poly::{spec_pow, poly_deg};
use crate::tables::{generate_log_tables, FieldSpec};
use vstd::arithmetic::power2::{lemma2_to64, lemma_pow2_strictly_increases, pow2};
use vstd::bits::{lemma_u32_pow2_no_overflow, lemma_u32_shl_is_mul};
use vstd::prelude::*;

verus! {

/// One constructed field GF(2^p): its degree and its two lookup tables.
/// Elements are the integers below 2^p, in their u16 encoding.
pub struct Field {
    /// The degree p, between 1 and 16.
    pub p: u64,
    /// Exponent table: entry i is the i-th power of the generator.
    pub exp: Vec<u16>,
    /// Logarithm table: entry e is the discrete logarithm of e; entry 0 is
    /// unused, the zero element has no logarithm.
    pub log: Vec<u16>,
}

impl Field {
    /// The number of field elements, 2^p.
    pub open spec fn size(self) -> int {
        pow2(self.p as nat) as int
    }

    /// The order of the multiplicative group, 2^p - 1.
    pub open spec fn order(self) -> int {
        self.size() - 1
    }

    /// Well-formedness: the two tables have one entry per field element and
    /// are mutually inverse on the nonzero elements, with the exponent table
    /// wrapping around to 1 at the group order.
    pub open spec fn wf(self) -> bool {
        &&& 1 <= self.p <= 16
        &&& self.exp@.len() == self.size()
        &&& self.log@.len() == self.size()
        &&& self.exp@[0] == 1
        &&& self.exp@[self.order()] == 1
        &&& forall|i: int| 0 <= i < self.size() ==> 1 <= #[trigger] self.exp@[i] < self.size()
        &&& forall|e: int|
            1 <= e < self.size() ==> 1 <= #[trigger] self.log@[e] <= self.order()
                && self.exp@[self.log@[e] as int] == e
        &&& forall|i: int| 1 <= i <= self.order() ==> #[trigger] self.log@[self.exp@[i] as int] == i
    }

    /// Builds the field described by a validated specification.
    pub fn new(fs: &FieldSpec) -> (r: Field)
        requires
            fs.valid(),
        ensures
            r.wf(),
            r.p == fs.p,
            forall|j: int|
                0 <= j < r.size() ==> #[trigger] r.exp@[j] == spec_pow(
                    fs.generator.value,
                    j as nat,
                    fs.modulus.value,
                ),
    {
        let (exp, log) = generate_log_tables(fs.generator, fs.modulus);
        let r = Field { p: fs.p, exp, log };
        proof {
            assert(poly_deg(fs.modulus.value) == fs.p);
        }
        r
    }

    /// Sum of two field elements: the bitwise XOR of their encodings.
    /// Subtraction is the same operation, every element being its own
    /// additive inverse in characteristic 2.
    pub open spec fn spec_add(self, a: u16, b: u16) -> u16 {
        a ^ b
    }

    /// Product of two field elements, through the tables: the logarithms
    /// add, wrapping by the group order, and the exponent table maps the sum
    /// back. A product with the zero element is zero.
    pub open spec fn spec_mul(self, a: u16, b: u16) -> int {
        if a == 0 || b == 0 {
            0
        } else {
            let s = self.log@[a as int] + self.log@[b as int];
            if s > self.order() {
                self.exp@[s - self.order()] as int
            } else {
                self.exp@[s] as int
            }
        }
    }

    /// Quotient of two field elements, `b` nonzero, through the tables: the
    /// logarithms subtract, offset by the group order to stay positive and
    /// wrapped back by it. Zero divided by anything nonzero is zero.
    pub open spec fn spec_div_val(self, a: u16, b: u16) -> int {
        if a == 0 {
            0
        } else {
            let s = self.order() + self.log@[a as int] - self.log@[b as int];
            if s > self.order() {
                self.exp@[s - self.order()] as int
            } else {
                self.exp@[s] as int
            }
        }
    }

    /// Field addition.
    pub fn add(&self, a: u16, b: u16) -> (r: u16)
        requires
            self.wf(),
            a < self.size(),
            b < self.size(),
        ensures
            r == self.spec_add(a, b),
            r < self.size(),
    {
        proof {
            lemma_xor_u16_bound(a, b, self.p as nat);
        }
        a ^ b
    }

    /// Field subtraction: identical to addition in characteristic 2.
    pub fn sub(&self, a: u16, b: u16) -> (r: u16)
        requires
            self.wf(),
            a < self.size(),
            b < self.size(),
        ensures
            r == self.spec_add(a, b),
            r < self.size(),
    {
        proof {
            lemma_xor_u16_bound(a, b, self.p as nat);
        }
        a ^ b
    }

    /// Field multiplication.
    pub fn mul(&self, a: u16, b: u16) -> (r: u16)
        requires
            self.wf(),
            a < self.size(),
            b < self.size(),
        ensures
            r == self.spec_mul(a, b),
            r < self.size(),
            (r == 0) <==> (a == 0 || b == 0),
    {
        proof {
            lemma_u32_pow2_no_overflow(self.p as nat);
            lemma_u32_shl_is_mul(1, self.p as u32);
        }
        if a == 0 || b == 0 {
            return 0;
        }
        let n: u32 = (1u32 << (self.p as u32)) - 1;
        let la: u32 = self.log[a as usize] as u32;
        let lb: u32 = self.log[b as usize] as u32;
        let mut s: u32 = la + lb;
        if s > n {
            s = s - n;
        }
        self.exp[s as usize]
    }

    /// Field division; dividing by the zero element reports
    /// `DivisionByZero`, for every dividend including zero.
    pub fn div(&self, a: u16, b: u16) -> (r: Result<u16, FieldError>)
        requires
            self.wf(),
            a < self.size(),
            b < self.size(),
        ensures
            (r == Err::<u16, FieldError>(FieldError::DivisionByZero)) <==> b == 0,
            b != 0 ==> (r matches Ok(v) && v == self.spec_div_val(a, b) && v < self.size()),
    {
        proof {
            lemma_u32_pow2_no_overflow(self.p as nat);
            lemma_u32_shl_is_mul(1, self.p as u32);
            lemma2_to64();
            if self.p < 16 {
                lemma_pow2_strictly_increases(self.p as nat, 16);
            }
        }
        if b == 0 {
            return Err(FieldError::DivisionByZero);
        }
        if a == 0 {
            return Ok(0);
        }
        let n: u32 = (1u32 << (self.p as u32)) - 1;
        let la: u32 = self.log[a as usize] as u32;
        let lb: u32 = self.log[b as usize] as u32;
        let mut s: u32 = n + la - lb;
        if s > n {
            s = s - n;
        }
        Ok(self.exp[s as usize])
    }

    /// Conversion of a raw integer into the field: the value is masked to
    /// the low p bits, silently discarding anything above them.
    pub fn from_raw(&self, v: u64) -> (r: u16)
        requires
            self.wf(),
        ensures
            r == v % (pow2(self.p as nat) as u64),
            r < self.size(),
    {
        proof {
            vstd::bits::lemma_u64_pow2_no_overflow(self.p as nat);
            vstd::bits::lemma_u64_shl_is_mul(1, self.p as u64);
            vstd::bits::lemma_u64_low_bits_mask_is_mod(v, self.p as nat);
            vstd::arithmetic::power2::lemma_pow2_pos(self.p as nat);
            lemma2_to64();
            if self.p < 16 {
                lemma_pow2_strictly_increases(self.p as nat, 16);
            }
        }
        let mask: u64 = (1u64 << (self.p as u64)) - 1;
        (v & mask) as u16
    }
}

/// XOR of two field-element encodings stays below the field size.
proof fn lemma_xor_u16_bound(a: u16, b: u16, n: nat)
    requires
        n <= 16,
        a < pow2(n),
        b < pow2(n),
    ensures
        (a ^ b) < pow2(n),
{
    let a64 = a as u64;
    let b64 = b as u64;
    assert((a ^ b) as u64 == a64 ^ b64) by (bit_vector)
        requires
            a64 == a,
            b64 == b,
    ;
    crate::poly::lemma_xor_bound(a64, b64, n);
}

/// Addition is commutative: XOR is symmetric in its operands.
pub proof fn lemma_add_comm(f: Field, a: u16, b: u16)
    ensures
        f.spec_add(a, b) == f.spec_add(b, a),
{
    assert(a ^ b == b ^ a) by (bit_vector);
}

/// Every element is its own additive inverse: adding it to itself gives the
/// zero element.
pub proof fn lemma_add_self(f: Field, a: u16)
    ensures
        f.spec_add(a, a) == 0,
{
    assert(a ^ a == 0) by (bit_vector);
}

/// The zero element is the additive identity.
pub proof fn lemma_add_identity(f: Field, a: u16)
    ensures
        f.spec_add(a, 0) == a,
{
    assert(a ^ 0 == a) by (bit_vector);
}

/// Multiplication is commutative: the logarithms add in either order.
pub proof fn lemma_mul_comm(f: Field, a: u16, b: u16)
    ensures
        f.spec_mul(a, b) == f.spec_mul(b, a),
{
}

/// Multiplying by the zero element yields zero, whatever the other operand.
pub proof fn lemma_mul_zero(f: Field, a: u16)
    ensures
        f.spec_mul(a, 0) == 0,
        f.spec_mul(0, a) == 0,
{
}

/// The element 1 is the multiplicative identity.
pub proof fn lemma_mul_identity(f: Field, a: u16)
    requires
        f.wf(),
        a < f.size(),
    ensures
        f.spec_mul(a, 1) == a,
{
    if a != 0 {
        assert(f.log@[f.exp@[f.order()] as int] == f.order());
        assert(f.log@[1] == f.order());
        let la = f.log@[a as int] as int;
        assert(f.exp@[la] == a);
    }
}

/// Table-driven multiplication agrees with polynomial arithmetic: for a
/// field built over generator `g` and modulus `m`, the product of two
/// elements is their carry-less product reduced by the modulus.
pub proof fn lemma_mul_matches_poly(f: Field, g: u64, m: u64, a: u16, b: u16)
    requires
        f.wf(),
        crate::poly::spec_is_generator(g, m),
        poly_deg(m) == f.p,
        poly_deg(g) + 2 * poly_deg(m) <= 65,
        forall|j: int| 0 <= j < f.size() ==> #[trigger] f.exp@[j] == spec_pow(g, j as nat, m),
        a < f.size(),
        b < f.size(),
    ensures
        f.spec_mul(a, b) == crate::poly::spec_rem(
            crate::poly::spec_pmul(a as u64, b as u64),
            m,
        ),
{
    let n = f.order();
    if a == 0 {
        assert(crate::poly::spec_pmul(0, b as u64) == 0);
    } else if b == 0 {
        crate::poly::lemma_pmul_zero_right(a as u64);
    } else {
        let la = f.log@[a as int] as int;
        let lb = f.log@[b as int] as int;
        assert(f.exp@[la] == a && f.exp@[lb] == b);
        assert(a as u64 == spec_pow(g, la as nat, m));
        assert(b as u64 == spec_pow(g, lb as nat, m));
        let s0 = la + lb;
        let s = if s0 > n {
            s0 - n
        } else {
            s0
        };
        assert(1 <= s <= n);
        assert(f.spec_mul(a, b) == f.exp@[s] as int);
        assert(f.exp@[s] == spec_pow(g, s as nat, m));
        if s0 > n {
            crate::poly::lemma_pow_add_period(g, m, s as nat);
            assert((s as nat) + (pow2(poly_deg(m) as nat) - 1) as nat == s0 as nat);
        }
        crate::poly::lemma_pow_add(g, m, la as nat, lb as nat);
        assert(spec_pow(g, s0 as nat, m) == crate::poly::spec_rem(
            crate::poly::spec_pmul(spec_pow(g, la as nat, m), spec_pow(g, lb as nat, m)),
            m,
        ));
    }
}

/// Table-driven division agrees with polynomial arithmetic: multiplying the
/// quotient back by the divisor, as polynomials modulo `m`, recovers the
/// dividend.
pub proof fn lemma_div_matches_poly(f: Field, g: u64, m: u64, a: u16, b: u16)
    requires
        f.wf(),
        crate::poly::spec_is_generator(g, m),
        poly_deg(m) == f.p,
        poly_deg(g) + 2 * poly_deg(m) <= 65,
        forall|j: int| 0 <= j < f.size() ==> #[trigger] f.exp@[j] == spec_pow(g, j as nat, m),
        a < f.size(),
        b < f.size(),
        b != 0,
    ensures
        crate::poly::spec_rem(
            crate::poly::spec_pmul(f.spec_div_val(a, b) as u64, b as u64),
            m,
        ) == a,
{
    let q = f.spec_div_val(a, b);
    lemma_div_val_range(f, a, b);
    lemma_mul_div_cancel(f, a, b);
    lemma_mul_matches_poly(f, g, m, q as u16, b);
}

/// The quotient of two field elements is itself a field element.
proof fn lemma_div_val_range(f: Field, a: u16, b: u16)
    requires
        f.wf(),
        a < f.size(),
        b < f.size(),
        b != 0,
    ensures
        0 <= f.spec_div_val(a, b) < f.size(),
{
}

/// Multiplying a quotient back by the divisor gives back the dividend:
/// division through the tables is a right inverse of multiplication.
pub proof fn lemma_mul_div_cancel(f: Field, a: u16, b: u16)
    requires
        f.wf(),
        a < f.size(),
        b < f.size(),
        b != 0,
    ensures
        f.spec_mul(f.spec_div_val(a, b) as u16, b) == a,
{
    let n = f.order();
    if a != 0 {
        let la = f.log@[a as int] as int;
        let lb = f.log@[b as int] as int;
        let c0 = n + la - lb;
        let c = if c0 > n {
            c0 - n
        } else {
            c0
        };
        assert(1 <= c <= n);
        let q = f.exp@[c];
        assert(f.spec_div_val(a, b) == q as int);
        assert(1 <= q < f.size());
        assert(f.log@[q as int] == c);
        let s0 = c + lb;
        let s = if s0 > n {
            s0 - n
        } else {
            s0
        };
        assert(s == la);
        assert(f.spec_mul(q, b) == f.exp@[la] as int);
        assert(f.exp@[la] == a);
    }
}

/// The exponent table is periodic with the group order as its period: for
/// every i, the i-th power of the generator is the table entry at i modulo
/// the order, and entry 0 is the identity element 1.
pub proof fn lemma_exp_table_periodic(f: Field, g: u64, m: u64, i: nat)
    requires
        f.wf(),
        crate::poly::spec_is_generator(g, m),
        poly_deg(m) == f.p,
        forall|j: int| 0 <= j < f.size() ==> #[trigger] f.exp@[j] == spec_pow(g, j as nat, m),
    ensures
        spec_pow(g, i, m) == f.exp@[(i % (f.order() as nat)) as int],
        f.exp@[0] == 1,
{
    crate::poly::lemma_pow_periodic(g, m, i);
    let n = f.order() as nat;
    vstd::arithmetic::power2::lemma_pow2_pos(f.p as nat);
    lemma2_to64();
    lemma_pow2_strictly_increases(0, f.p as nat);
    assert(i % n < n) by {
        vstd::arithmetic::div_mod::lemma_mod_bound(i as int, n as int);
    }
}

/// Dividing a product by one of its factors gives back the other factor:
/// multiplication and division through the tables are mutually inverse.
pub proof fn lemma_div_mul_cancel(f: Field, a: u16, b: u16)
    requires
        f.wf(),
        a < f.size(),
        b < f.size(),
        b != 0,
    ensures
        f.spec_div_val(f.spec_mul(a, b) as u16, b) == a,
{
    let n = f.order();
    if a != 0 {
        let la = f.log@[a as int] as int;
        let lb = f.log@[b as int] as int;
        let s0 = la + lb;
        let s = if s0 > n {
            s0 - n
        } else {
            s0
        };
        assert(1 <= s <= n);
        let prod = f.exp@[s];
        assert(f.spec_mul(a, b) == prod as int);
        assert(1 <= prod < f.size());
        assert(f.log@[prod as int] == s);
        let c0 = n + s - lb;
        let c = if c0 > n {
            c0 - n
        } else {
            c0
        };
        assert(c == la);
        assert(f.spec_div_val(prod, b) == f.exp@[la] as int);
        assert(f.exp@[la] == a);
    }
}

} // verus!
