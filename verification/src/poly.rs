//! Binary polynomials: elements of GF(2)[x], stored as the bit-coefficients
//! of a `u64`. Bit `i` of the value is the coefficient of `x^i`.

use vstd::arithmetic::div_mod::{lemma_fundamental_div_mod, lemma_fundamental_div_mod_converse};
use vstd::arithmetic::power2::{
    lemma2_to64, lemma2_to64_rest, lemma_pow2_adds, lemma_pow2_pos, lemma_pow2_strictly_increases,
    pow2,
};
use vstd::bits::{lemma_u64_pow2_no_overflow, lemma_u64_shl_is_mul, lemma_u64_shr_is_div};
use vstd::prelude::*;

verus! {

/// Degree of the polynomial encoded by `v`: the index of its highest set bit,
/// or -1 for the zero polynomial, whose degree is undefined.
pub open spec fn poly_deg(v: u64) -> int
    decreases v,
{
    if v == 0 {
        -1
    } else if v == 1 {
        0
    } else {
        1 + poly_deg((v / 2) as u64)
    }
}

/// A nonzero polynomial's value lies between 2^deg and 2^(deg+1).
pub proof fn lemma_deg_bounds(v: u64)
    requires
        v >= 1,
    ensures
        0 <= poly_deg(v) <= 63,
        pow2(poly_deg(v) as nat) <= v < pow2((poly_deg(v) + 1) as nat),
    decreases v,
{
    lemma2_to64();
    if v == 1 {
    } else {
        let w = (v / 2) as u64;
        lemma_deg_bounds(w);
        let dw = poly_deg(w) as nat;
        lemma_pow2_adds(dw, 1);
        lemma_pow2_adds(dw + 1, 1);
        assert(v == 2 * (v as int / 2) + v as int % 2) by {
            lemma_fundamental_div_mod(v as int, 2);
        }
        if dw == 63 {
            lemma2_to64_rest();
            assert(false);
        }
    }
}

/// A value below 2^n encodes a polynomial of degree below n.
pub proof fn lemma_deg_lt(v: u64, n: nat)
    requires
        v < pow2(n),
    ensures
        poly_deg(v) < n,
{
    if v != 0 {
        lemma_deg_bounds(v);
        let d = poly_deg(v) as nat;
        if d >= n {
            if d > n {
                lemma_pow2_strictly_increases(n, d);
            }
            assert(false);
        }
    }
}

/// A value in [2^n, 2^(n+1)) encodes a polynomial of degree exactly n.
pub proof fn lemma_deg_is(v: u64, n: nat)
    requires
        pow2(n) <= v < pow2(n + 1),
    ensures
        poly_deg(v) == n,
{
    lemma_pow2_pos(n);
    lemma_deg_bounds(v);
    let d = poly_deg(v) as nat;
    if d < n {
        lemma_pow2_strictly_increases(d + 1, n + 1);
        if d + 1 < n {
            lemma_pow2_strictly_increases(d + 1, n);
        }
        assert(v < pow2(n));
        assert(false);
    }
    if d > n {
        lemma_pow2_strictly_increases(n + 1, d + 1);
        if n + 1 < d {
            lemma_pow2_strictly_increases(n + 1, d);
        }
        assert(pow2(n + 1) <= pow2(d));
        assert(false);
    }
}

/// Right-shifting by n yields 1 exactly when the degree is n.
pub proof fn lemma_deg_shr_iff(v: u64, n: u64)
    requires
        n <= 63,
    ensures
        (v >> n == 1) <==> (v != 0 && poly_deg(v) == n),
{
    lemma_u64_shr_is_div(v, n);
    lemma_pow2_pos(n as nat);
    lemma_pow2_adds(n as nat, 1);
    lemma2_to64();
    if v >> n == 1 {
        assert(v as nat / pow2(n as nat) == 1);
        lemma_fundamental_div_mod(v as int, pow2(n as nat) as int);
        assert(pow2(n as nat) <= v < pow2(n as nat + 1));
        lemma_deg_is(v, n as nat);
    }
    if v != 0 && poly_deg(v) == n {
        lemma_deg_bounds(v);
        lemma_fundamental_div_mod_converse(
            v as int,
            pow2(n as nat) as int,
            1,
            v - pow2(n as nat),
        );
        assert(v as int / pow2(n as nat) as int == 1);
    }
}

/// Right-shifting by n yields 0 exactly when the value is below 2^n.
pub proof fn lemma_shr_zero_iff(v: u64, n: u64)
    requires
        n <= 63,
    ensures
        (v >> n == 0) <==> (v < pow2(n as nat)),
{
    lemma_u64_shr_is_div(v, n);
    lemma_pow2_pos(n as nat);
    if v < pow2(n as nat) {
        lemma_fundamental_div_mod_converse(v as int, pow2(n as nat) as int, 0, v as int);
    }
    if v >> n == 0 {
        lemma_fundamental_div_mod(v as int, pow2(n as nat) as int);
    }
}

/// XOR of two values below 2^n stays below 2^n.
pub proof fn lemma_xor_bound(a: u64, b: u64, n: nat)
    requires
        n <= 63,
        a < pow2(n),
        b < pow2(n),
    ensures
        (a ^ b) < pow2(n),
{
    let nn = n as u64;
    lemma_shr_zero_iff(a, nn);
    lemma_shr_zero_iff(b, nn);
    assert(a >> nn == 0 && b >> nn == 0 ==> (a ^ b) >> nn == 0) by (bit_vector);
    lemma_shr_zero_iff(a ^ b, nn);
}

/// XOR with a polynomial of strictly smaller degree keeps the degree.
pub proof fn lemma_xor_deg_high(a: u64, b: u64)
    requires
        poly_deg(a) < poly_deg(b),
    ensures
        (a ^ b) != 0,
        poly_deg(a ^ b) == poly_deg(b),
{
    if b == 0 {
        if a != 0 {
            lemma_deg_bounds(a);
        }
        assert(false);
    }
    lemma_deg_bounds(b);
    let n = poly_deg(b) as u64;
    lemma_deg_shr_iff(b, n);
    if a == 0 {
        assert(a ^ b == b) by (bit_vector)
            requires
                a == 0u64,
        ;
    } else {
        lemma_deg_bounds(a);
        if poly_deg(a) as nat + 1 < n as nat {
            lemma_pow2_strictly_increases((poly_deg(a) + 1) as nat, n as nat);
        }
        lemma_shr_zero_iff(a, n);
        assert(a >> n == 0 && b >> n == 1 ==> (a ^ b) >> n == 1) by (bit_vector);
        lemma_deg_shr_iff(a ^ b, n);
    }
}

/// XOR of two polynomials of the same degree cancels the leading term.
pub proof fn lemma_xor_cancel_top(a: u64, b: u64)
    requires
        a != 0,
        b != 0,
        poly_deg(a) == poly_deg(b),
    ensures
        poly_deg(a ^ b) < poly_deg(a),
        (a ^ b) < pow2(poly_deg(a) as nat),
{
    lemma_deg_bounds(a);
    let n = poly_deg(a) as u64;
    lemma_deg_shr_iff(a, n);
    lemma_deg_shr_iff(b, n);
    assert(a >> n == 1 && b >> n == 1 ==> (a ^ b) >> n == 0) by (bit_vector);
    lemma_shr_zero_iff(a ^ b, n);
    lemma_deg_lt(a ^ b, n as nat);
}

/// Left-shifting adds to the degree, as long as nothing is shifted out.
pub proof fn lemma_deg_shl(v: u64, k: u64)
    requires
        v != 0,
        k <= 63,
        poly_deg(v) + k <= 63,
    ensures
        (v << k) != 0,
        poly_deg(v << k) == poly_deg(v) + k,
{
    lemma_deg_bounds(v);
    let d = poly_deg(v) as u64;
    lemma_deg_shr_iff(v, d);
    let dk = (d + k) as u64;
    assert((v << k) >> dk == 1) by (bit_vector)
        requires
            v >> d == 1,
            d <= 63,
            k <= 63,
            d + k <= 63,
            dk == d + k,
    ;
    lemma_deg_shr_iff(v << k, dk);
}

/// Carry-less product of the polynomials encoded by `a` and `b`: for each set
/// bit `i` of `a`, `b << i` is XORed into the result. Bits shifted above bit
/// 63 are discarded, exactly as the 64-bit executable operation discards them.
pub open spec fn spec_pmul(a: u64, b: u64) -> u64
    decreases a,
{
    if a == 0 {
        0
    } else {
        (if a % 2 == 1 {
            b
        } else {
            0
        }) ^ (spec_pmul((a / 2) as u64, b) << 1u64)
    }
}

/// Multiplying by the zero polynomial yields zero.
pub proof fn lemma_pmul_zero_right(a: u64)
    ensures
        spec_pmul(a, 0) == 0,
    decreases a,
{
    if a != 0 {
        lemma_pmul_zero_right((a / 2) as u64);
        assert((0u64 ^ (0u64 << 1u64)) == 0) by (bit_vector);
        assert((0u64 ^ 0u64) == 0) by (bit_vector);
    }
}

/// The monomial 1 is the multiplicative identity on the left.
pub proof fn lemma_pmul_one_left(b: u64)
    ensures
        spec_pmul(1, b) == b,
{
    assert(spec_pmul(0, b) == 0);
    assert(spec_pmul(1, b) == b ^ (0u64 << 1u64));
    assert((b ^ (0u64 << 1u64)) == b) by (bit_vector);
}

/// Carry-less multiplication distributes over XOR in its left argument.
pub proof fn lemma_pmul_dist_left(a: u64, c: u64, b: u64)
    ensures
        spec_pmul(a ^ c, b) == spec_pmul(a, b) ^ spec_pmul(c, b),
    decreases a + c,
{
    if a == 0 {
        assert(0u64 ^ c == c && forall|x: u64| #![auto] 0u64 ^ x == x) by (bit_vector);
    } else if c == 0 {
        assert(a ^ 0u64 == a && forall|x: u64| #![auto] x ^ 0u64 == x) by (bit_vector);
    } else {
        let a2 = (a / 2) as u64;
        let c2 = (c / 2) as u64;
        lemma_pmul_dist_left(a2, c2, b);
        let p = spec_pmul(a2, b);
        let q = spec_pmul(c2, b);
        assert(((a ^ c) / 2) as u64 == a2 ^ c2 && ((a ^ c) % 2 == 1) == ((a % 2 == 1) != (c % 2
            == 1))) by (bit_vector)
            requires
                a2 == (a / 2) as u64,
                c2 == (c / 2) as u64,
        ;
        let la = if a % 2 == 1 { b } else { 0u64 };
        let lc = if c % 2 == 1 { b } else { 0u64 };
        let lac = if (a ^ c) % 2 == 1 { b } else { 0u64 };
        assert(lac == la ^ lc) by {
            assert(b ^ b == 0 && b ^ 0 == b && 0u64 ^ b == b && 0u64 ^ 0u64 == 0) by (bit_vector);
        }
        if a ^ c == 0 {
            assert(a == c) by (bit_vector)
                requires
                    a ^ c == 0u64,
            ;
            assert(lac ^ ((p ^ q) << 1u64) == 0) by (bit_vector)
                requires
                    lac == 0u64,
                    p == q,
            ;
            let pa = spec_pmul(a, b);
            let pc = spec_pmul(c, b);
            assert(pa ^ pc == 0) by (bit_vector)
                requires
                    pa == pc,
            ;
        } else {
            assert(spec_pmul(a ^ c, b) == lac ^ ((p ^ q) << 1u64));
            assert(lac ^ ((p ^ q) << 1u64) == (la ^ (p << 1u64)) ^ (lc ^ (q << 1u64)))
                by (bit_vector)
                requires
                    lac == la ^ lc,
            ;
        }
    }
}

/// Shifting the right factor shifts the product.
pub proof fn lemma_pmul_shl_right(a: u64, b: u64)
    ensures
        spec_pmul(a, b << 1u64) == spec_pmul(a, b) << 1u64,
    decreases a,
{
    if a == 0 {
        assert(0u64 << 1u64 == 0) by (bit_vector);
    } else {
        let a2 = (a / 2) as u64;
        lemma_pmul_shl_right(a2, b);
        let p = spec_pmul(a2, b);
        let la = if a % 2 == 1 { b } else { 0u64 };
        assert((if a % 2 == 1 {
            b << 1u64
        } else {
            0u64
        }) ^ ((p << 1u64) << 1u64) == (la ^ (p << 1u64)) << 1u64) by (bit_vector)
            requires
                la == (if a % 2 == 1 {
                    b
                } else {
                    0u64
                }),
        ;
    }
}

/// Unfolding of the product along its right argument: the same shift-and-XOR
/// recursion applies to `b` as to `a`.
pub proof fn lemma_pmul_right_unfold(a: u64, b: u64)
    ensures
        spec_pmul(a, b) == (if b % 2 == 1 {
            a
        } else {
            0u64
        }) ^ (spec_pmul(a, (b / 2) as u64) << 1u64),
    decreases a,
{
    let b2 = (b / 2) as u64;
    if a == 0 {
        lemma_pmul_zero_right(0);
        assert((if b % 2 == 1 {
            0u64
        } else {
            0u64
        }) ^ (0u64 << 1u64) == 0) by (bit_vector);
    } else {
        let a2 = (a / 2) as u64;
        lemma_pmul_right_unfold(a2, b);
        let r = spec_pmul(a2, b2);
        let la = if a % 2 == 1 { b } else { 0u64 };
        let lb2 = if b % 2 == 1 { a2 } else { 0u64 };
        assert(spec_pmul(a2, b) == lb2 ^ (r << 1u64));
        let la2 = if a % 2 == 1 { b2 } else { 0u64 };
        assert(spec_pmul(a, b2) == la2 ^ (r << 1u64));
        assert(la ^ ((lb2 ^ (r << 1u64)) << 1u64) == (if b % 2 == 1 {
            a
        } else {
            0u64
        }) ^ ((la2 ^ (r << 1u64)) << 1u64)) by (bit_vector)
            requires
                la == (if a % 2 == 1 {
                    b
                } else {
                    0u64
                }),
                la2 == (if a % 2 == 1 {
                    (b / 2) as u64
                } else {
                    0u64
                }),
                lb2 == (if b % 2 == 1 {
                    (a / 2) as u64
                } else {
                    0u64
                }),
                b2 == (b / 2) as u64,
                a2 == (a / 2) as u64,
        ;
    }
}

/// Carry-less multiplication is commutative.
pub proof fn lemma_pmul_comm(a: u64, b: u64)
    ensures
        spec_pmul(a, b) == spec_pmul(b, a),
    decreases b,
{
    lemma_pmul_right_unfold(a, b);
    if b == 0 {
        lemma_pmul_zero_right(a);
        let p0 = spec_pmul(a, 0);
        assert(0u64 ^ (p0 << 1u64) == 0) by (bit_vector)
            requires
                p0 == 0u64,
        ;
    } else {
        lemma_pmul_comm(a, (b / 2) as u64);
    }
}

/// The product of a power of x with m is a shift of m.
pub proof fn lemma_pmul_pow2(k: u64, m: u64)
    requires
        k <= 63,
    ensures
        spec_pmul(1u64 << k, m) == (m << k),
    decreases k,
{
    if k == 0 {
        assert(1u64 << 0u64 == 1 && m << 0u64 == m) by (bit_vector);
        lemma_pmul_one_left(m);
    } else {
        let k1 = (k - 1) as u64;
        lemma_pmul_pow2(k1, m);
        let a = 1u64 << k;
        assert(a != 0 && a % 2 == 0 && (a / 2) as u64 == 1u64 << k1) by (bit_vector)
            requires
                a == 1u64 << k,
                1 <= k <= 63,
                k1 == k - 1,
        ;
        assert(0u64 ^ ((m << k1) << 1u64) == m << k) by (bit_vector)
            requires
                1 <= k <= 63,
                k1 == k - 1,
        ;
    }
}

/// The degree of a product is the sum of the degrees, as long as it fits in
/// the 64-bit encoding; in particular the product of nonzero polynomials is
/// nonzero.
pub proof fn lemma_pmul_deg(a: u64, b: u64)
    requires
        a != 0,
        b != 0,
        poly_deg(a) + poly_deg(b) <= 63,
    ensures
        spec_pmul(a, b) != 0,
        poly_deg(spec_pmul(a, b)) == poly_deg(a) + poly_deg(b),
    decreases a,
{
    lemma_deg_bounds(a);
    lemma_deg_bounds(b);
    if a == 1 {
        lemma_pmul_one_left(b);
    } else {
        let a2 = (a / 2) as u64;
        lemma_deg_bounds(a2);
        lemma_pmul_deg(a2, b);
        assert(poly_deg(a) == 1 + poly_deg(a2));
        let p = spec_pmul(a2, b);
        lemma_deg_shl(p, 1);
        assert(poly_deg(p << 1u64) == poly_deg(a) + poly_deg(b));
        if a % 2 == 1 {
            lemma_xor_deg_high(b, p << 1u64);
        } else {
            assert(0u64 ^ (p << 1u64) == (p << 1u64)) by (bit_vector);
        }
    }
}

/// A polynomial of degree below n has value below 2^n.
pub proof fn lemma_deg_lt_bound(v: u64, n: nat)
    requires
        poly_deg(v) < n,
    ensures
        v < pow2(n),
{
    lemma_pow2_pos(n);
    if v != 0 {
        lemma_deg_bounds(v);
        let d1 = (poly_deg(v) + 1) as nat;
        if d1 < n {
            lemma_pow2_strictly_increases(d1, n);
        }
    }
}

/// The degree of an XOR never exceeds the degree of both operands.
pub proof fn lemma_xor_deg_max(a: u64, b: u64)
    ensures
        poly_deg(a ^ b) <= poly_deg(a) || poly_deg(a ^ b) <= poly_deg(b),
{
    if a == 0 {
        assert(a ^ b == b) by (bit_vector)
            requires
                a == 0u64,
        ;
    } else if b == 0 {
        assert(a ^ b == a) by (bit_vector)
            requires
                b == 0u64,
        ;
    } else if poly_deg(a) == poly_deg(b) {
        lemma_xor_cancel_top(a, b);
    } else if poly_deg(a) < poly_deg(b) {
        lemma_xor_deg_high(a, b);
    } else {
        assert(a ^ b == b ^ a) by (bit_vector);
        lemma_xor_deg_high(b, a);
    }
}

/// Remainder of polynomial long division of `a` by `m`: while the dividend's
/// degree is at least the divisor's, the divisor is shifted up to align the
/// leading terms and XORed in. By convention the remainder by 0 is `a` itself.
pub open spec fn spec_rem(a: u64, m: u64) -> u64
    decreases a,
    via check_rem_decreases
{
    if m == 0 {
        a
    } else if poly_deg(a) < poly_deg(m) {
        a
    } else {
        spec_rem(a ^ (m << ((poly_deg(a) - poly_deg(m)) as u64)), m)
    }
}

#[via_fn]
proof fn check_rem_decreases(a: u64, m: u64) {
    if m != 0 && poly_deg(a) >= poly_deg(m) {
        lemma_deg_bounds(m);
        if a == 0 {
            assert(false);
        }
        lemma_deg_bounds(a);
        let s = (poly_deg(a) - poly_deg(m)) as u64;
        lemma_deg_shl(m, s);
        lemma_xor_cancel_top(a, m << s);
    }
}

/// The remainder has degree below the divisor's, and differs from the
/// dividend by the returned polynomial multiple of the divisor.
pub proof fn lemma_rem_props(a: u64, m: u64) -> (q: u64)
    requires
        m != 0,
    ensures
        poly_deg(spec_rem(a, m)) < poly_deg(m),
        spec_rem(a, m) < pow2(poly_deg(m) as nat),
        spec_pmul(q, m) ^ spec_rem(a, m) == a,
        q == 0 || poly_deg(q) + poly_deg(m) <= poly_deg(a),
    decreases a,
{
    lemma_deg_bounds(m);
    let dm = poly_deg(m);
    if poly_deg(a) < dm {
        let r = spec_rem(a, m);
        lemma_deg_lt_bound(r, dm as nat);
        assert(spec_pmul(0, m) ^ a == a) by {
            assert(0u64 ^ a == a) by (bit_vector);
        }
        0
    } else {
        if a == 0 {
            assert(false);
        }
        lemma_deg_bounds(a);
        let da = poly_deg(a);
        let s = (da - dm) as u64;
        lemma_deg_shl(m, s);
        let ms = m << s;
        lemma_xor_cancel_top(a, ms);
        let ap = a ^ ms;
        let qp = lemma_rem_props(ap, m);
        let xs = 1u64 << s;
        lemma_deg_shl(1, s);
        assert(poly_deg(1u64) == 0);
        assert(poly_deg(xs) == s);
        let q = qp ^ xs;
        if qp == 0 {
            assert(q == xs) by (bit_vector)
                requires
                    qp == 0u64,
                    q == qp ^ xs,
            ;
        } else {
            lemma_deg_lt(ap, da as nat);
            lemma_xor_deg_high(qp, xs);
        }
        assert(poly_deg(q) == s && q != 0);
        lemma_pmul_dist_left(qp, xs, m);
        lemma_pmul_pow2(s, m);
        let pq = spec_pmul(q, m);
        let pqp = spec_pmul(qp, m);
        let r = spec_rem(ap, m);
        assert(spec_rem(a, m) == r);
        assert(pq ^ r == a) by (bit_vector)
            requires
                pq == pqp ^ ms,
                pqp ^ r == ap,
                ap == a ^ ms,
        ;
        lemma_deg_lt_bound(r, dm as nat);
        q
    }
}

/// The remainder of a polynomial multiple of `m` by `m` is zero.
pub proof fn lemma_rem_of_multiple(q: u64, m: u64)
    requires
        m != 0,
        q == 0 || poly_deg(q) + poly_deg(m) <= 63,
    ensures
        spec_rem(spec_pmul(q, m), m) == 0,
{
    lemma_deg_bounds(m);
    let dm = poly_deg(m);
    if q == 0 {
        assert(spec_pmul(0, m) == 0);
    } else {
        lemma_deg_bounds(q);
        lemma_pmul_deg(q, m);
        let v = spec_pmul(q, m);
        let r = spec_rem(v, m);
        lemma_deg_bounds(v);
        let qp = lemma_rem_props(v, m);
        let pqp = spec_pmul(qp, m);
        assert(r == v ^ pqp) by (bit_vector)
            requires
                pqp ^ r == v,
        ;
        lemma_pmul_dist_left(q, qp, m);
        assert(spec_pmul(q ^ qp, m) == v ^ pqp);
        if q ^ qp != 0 {
            lemma_xor_deg_max(q, qp);
            if qp != 0 {
                lemma_deg_bounds(qp);
            }
            lemma_pmul_deg(q ^ qp, m);
            lemma_deg_bounds(q ^ qp);
            assert(poly_deg(r) >= dm);
            assert(false);
        }
        assert(q ^ qp == 0);
        assert(spec_pmul(0, m) == 0);
        assert(r == 0);
    }
}

/// Irreducibility over GF(2): the polynomial has positive degree and is not
/// the product of two polynomials of positive degree. The degree-sum guard
/// only keeps products inside the 64-bit encoding; it excludes no real
/// factorization, since the degrees of two factors of `m` add up to
/// `poly_deg(m)`, which is at most 63.
pub open spec fn spec_irreducible(m: u64) -> bool {
    &&& poly_deg(m) >= 1
    &&& forall|a: u64, b: u64|
        poly_deg(a) >= 1 && poly_deg(b) >= 1 && poly_deg(a) + poly_deg(b) <= 63
            ==> #[trigger] spec_pmul(a, b) != m
}

/// A proper divisor of positive degree refutes irreducibility.
pub proof fn lemma_divisor_not_irreducible(m: u64, f: u64)
    requires
        1 <= poly_deg(f),
        poly_deg(f) < poly_deg(m),
        spec_rem(m, f) == 0,
    ensures
        !spec_irreducible(m),
{
    lemma_deg_bounds(m);
    let q = lemma_rem_props(m, f);
    let pq = spec_pmul(q, f);
    assert(pq == m) by (bit_vector)
        requires
            pq ^ 0u64 == m,
    ;
    if q == 0 {
        assert(spec_pmul(0, f) == 0);
        assert(false);
    }
    lemma_pmul_deg(q, f);
    assert(poly_deg(q) + poly_deg(f) == poly_deg(m));
    assert(spec_pmul(q, f) == m);
}

/// A polynomial of positive degree with no divisor of degree up to half its
/// own is irreducible: one factor of any factorization would be such a
/// divisor.
pub proof fn lemma_no_small_divisor_irreducible(m: u64)
    requires
        poly_deg(m) >= 1,
        forall|f: u64| 2 <= f < pow2((poly_deg(m) / 2 + 1) as nat) ==> #[trigger] spec_rem(m, f)
            != 0,
    ensures
        spec_irreducible(m),
{
    lemma_deg_bounds(m);
    let d = poly_deg(m);
    lemma2_to64();
    assert forall|a: u64, b: u64|
        poly_deg(a) >= 1 && poly_deg(b) >= 1 && poly_deg(a) + poly_deg(b) <= 63 implies #[trigger] spec_pmul(
        a,
        b,
    ) != m by {
        if spec_pmul(a, b) == m {
            lemma_pmul_deg(a, b);
            lemma_pmul_comm(a, b);
            let s = if poly_deg(a) <= poly_deg(b) {
                a
            } else {
                b
            };
            let t = if poly_deg(a) <= poly_deg(b) {
                b
            } else {
                a
            };
            assert(spec_pmul(t, s) == m);
            lemma_rem_of_multiple(t, s);
            assert(spec_rem(m, s) == 0);
            lemma_deg_bounds(s);
            assert(s >= 2);
            assert(2 * poly_deg(s) <= d);
            assert(poly_deg(s) <= d / 2);
            let hd1 = (d / 2 + 1) as nat;
            if ((poly_deg(s) + 1) as nat) < hd1 {
                lemma_pow2_strictly_increases((poly_deg(s) + 1) as nat, hd1);
            }
            assert(s < pow2(hd1));
            assert(false);
        }
    }
}

/// The XOR group laws, shared by the proofs below.
pub proof fn lemma_xor_algebra()
    by (bit_vector)
    ensures
        forall|x: u64, y: u64| #[trigger] (x ^ y) == y ^ x,
        forall|x: u64, y: u64, z: u64| #[trigger] ((x ^ y) ^ z) == x ^ (y ^ z),
        forall|x: u64| #[trigger] (x ^ 0) == x,
        forall|x: u64| #[trigger] (x ^ x) == 0,
        forall|x: u64, y: u64| x ^ y == 0 ==> #[trigger] (x ^ y) == 0 && x == y,
{
}

/// Shifting the left factor shifts the product, as long as the shift
/// discards nothing.
pub proof fn lemma_pmul_shl_left(x: u64, c: u64)
    requires
        x < 0x8000000000000000,
    ensures
        spec_pmul(x << 1u64, c) == spec_pmul(x, c) << 1u64,
{
    lemma_xor_algebra();
    if x == 0 {
        assert(0u64 << 1u64 == 0) by (bit_vector);
    } else {
        let y = x << 1u64;
        assert(y != 0 && y % 2 == 0 && (y / 2) as u64 == x) by (bit_vector)
            requires
                y == x << 1u64,
                x != 0,
                x < 0x8000000000000000u64,
        ;
        assert(spec_pmul(y, c) == 0u64 ^ (spec_pmul(x, c) << 1u64));
    }
}

/// Carry-less multiplication is associative, as long as the total degree
/// fits the 64-bit encoding.
pub proof fn lemma_pmul_assoc(a: u64, b: u64, c: u64)
    requires
        a == 0 || b == 0 || c == 0 || poly_deg(a) + poly_deg(b) + poly_deg(c) <= 63,
    ensures
        spec_pmul(spec_pmul(a, b), c) == spec_pmul(a, spec_pmul(b, c)),
    decreases a,
{
    lemma_xor_algebra();
    if a == 0 {
    } else if b == 0 {
        lemma_pmul_zero_right(a);
        assert(spec_pmul(0, c) == 0);
        lemma_pmul_zero_right(a);
    } else if c == 0 {
        lemma_pmul_zero_right(spec_pmul(a, b));
        lemma_pmul_zero_right(b);
        lemma_pmul_zero_right(a);
    } else if a == 1 {
        lemma_pmul_one_left(b);
        lemma_pmul_one_left(spec_pmul(b, c));
    } else {
        let a2 = (a / 2) as u64;
        lemma_deg_bounds(a);
        lemma_deg_bounds(a2);
        lemma_deg_bounds(b);
        lemma_deg_bounds(c);
        lemma_pmul_deg(a2, b);
        let p = spec_pmul(a2, b);
        lemma_deg_lt_bound(p, 63);
        assert(pow2(63) == 0x8000000000000000) by {
            lemma2_to64_rest();
        }
        let la = if a % 2 == 1 {
            b
        } else {
            0u64
        };
        assert(spec_pmul(a, b) == la ^ (p << 1u64));
        lemma_pmul_dist_left(la, p << 1u64, c);
        lemma_pmul_shl_left(p, c);
        lemma_pmul_assoc(a2, b, c);
        if a % 2 == 1 {
            assert(spec_pmul(la, c) == spec_pmul(b, c));
        } else {
            assert(spec_pmul(la, c) == 0);
        }
        assert(spec_pmul(spec_pmul(a, b), c) == spec_pmul(la, c) ^ (spec_pmul(
            a2,
            spec_pmul(b, c),
        ) << 1u64));
        assert(spec_pmul(a, spec_pmul(b, c)) == (if a % 2 == 1 {
            spec_pmul(b, c)
        } else {
            0u64
        }) ^ (spec_pmul(a2, spec_pmul(b, c)) << 1u64));
    }
}

/// The remainder is the unique value of degree below the divisor's that
/// differs from the dividend by a polynomial multiple of the divisor.
pub proof fn lemma_rem_unique(v: u64, m: u64, w: u64, s: u64)
    requires
        m != 0,
        spec_pmul(w, m) ^ s == v,
        poly_deg(s) < poly_deg(m),
        w == 0 || poly_deg(w) + poly_deg(m) <= 63,
    ensures
        spec_rem(v, m) == s,
{
    lemma_xor_algebra();
    lemma_deg_bounds(m);
    let dm = poly_deg(m);
    let q = lemma_rem_props(v, m);
    let r = spec_rem(v, m);
    let pq = spec_pmul(q, m);
    let pw = spec_pmul(w, m);
    assert(r ^ s == pq ^ pw) by (bit_vector)
        requires
            pq ^ r == v,
            pw ^ s == v,
    ;
    lemma_pmul_dist_left(q, w, m);
    assert(spec_pmul(q ^ w, m) == r ^ s);
    if q ^ w != 0 {
        lemma_xor_deg_max(q, w);
        lemma_deg_bounds(q ^ w);
        if q != 0 {
            lemma_deg_bounds(q);
            if v != 0 {
                lemma_deg_bounds(v);
            }
        }
        if w != 0 {
            lemma_deg_bounds(w);
        }
        lemma_pmul_deg(q ^ w, m);
        lemma_xor_deg_max(r, s);
        assert(false);
    }
    assert(spec_pmul(0, m) == 0);
    assert(r ^ s == 0);
}

/// XORing a polynomial multiple of the divisor into the dividend leaves the
/// remainder unchanged.
pub proof fn lemma_rem_xor_multiple(u: u64, q: u64, m: u64)
    requires
        m != 0,
        q == 0 || poly_deg(q) + poly_deg(m) <= 63,
    ensures
        spec_rem(u ^ spec_pmul(q, m), m) == spec_rem(u, m),
{
    lemma_xor_algebra();
    let qu = lemma_rem_props(u, m);
    let r = spec_rem(u, m);
    let v = u ^ spec_pmul(q, m);
    lemma_pmul_dist_left(qu, q, m);
    let pqu = spec_pmul(qu, m);
    let pq = spec_pmul(q, m);
    let pquq = spec_pmul(qu ^ q, m);
    assert(pquq ^ r == v) by (bit_vector)
        requires
            pquq == pqu ^ pq,
            pqu ^ r == u,
            v == u ^ pq,
    ;
    lemma_rem_props(m, m);
    if qu ^ q != 0 {
        lemma_xor_deg_max(qu, q);
        if qu != 0 {
            lemma_deg_bounds(qu);
            if u != 0 {
                lemma_deg_bounds(u);
            }
        }
        lemma_deg_bounds(m);
    }
    lemma_rem_unique(v, m, qu ^ q, r);
}

/// Reducing one factor before a product does not change the product's
/// remainder.
pub proof fn lemma_rem_mul_compat(x: u64, y: u64, m: u64)
    requires
        m != 0,
        x == 0 || y == 0 || poly_deg(x) + poly_deg(y) <= 63,
        poly_deg(m) <= poly_deg(x) || spec_rem(x, m) == x,
    ensures
        spec_rem(spec_pmul(spec_rem(x, m), y), m) == spec_rem(spec_pmul(x, y), m),
{
    lemma_xor_algebra();
    lemma_deg_bounds(m);
    let q = lemma_rem_props(x, m);
    let r = spec_rem(x, m);
    let pqm = spec_pmul(q, m);
    assert(x == r ^ pqm) by (bit_vector)
        requires
            pqm ^ r == x,
    ;
    lemma_pmul_dist_left(r, spec_pmul(q, m), y);
    assert(spec_pmul(x, y) == spec_pmul(r, y) ^ spec_pmul(spec_pmul(q, m), y));
    if q == 0 {
        assert(spec_pmul(0, m) == 0);
        assert(x == r);
    } else {
        lemma_deg_bounds(q);
        if x == 0 {
            assert(false);
        }
        lemma_deg_bounds(x);
        lemma_deg_bounds(q);
        if y == 0 {
            lemma_pmul_zero_right(r);
            lemma_pmul_zero_right(x);
        } else {
            lemma_deg_bounds(y);
            lemma_pmul_comm(q, m);
            lemma_pmul_assoc(m, q, y);
            lemma_pmul_comm(m, spec_pmul(q, y));
            assert(spec_pmul(spec_pmul(q, m), y) == spec_pmul(spec_pmul(q, y), m));
            lemma_pmul_deg(q, y);
            lemma_rem_xor_multiple(spec_pmul(r, y), spec_pmul(q, y), m);
            assert(spec_pmul(r, y) ^ spec_pmul(spec_pmul(q, y), m) == spec_pmul(x, y));
        }
    }
}

/// The k-th power of `g` modulo `m`: successive carry-less products reduced
/// by `m` at every step. The 0-th power is the multiplicative identity 1.
pub open spec fn spec_pow(g: u64, k: nat, m: u64) -> u64
    decreases k,
{
    if k == 0 {
        1
    } else {
        spec_rem(spec_pmul(spec_pow(g, (k - 1) as nat, m), g), m)
    }
}

/// Every power of `g` modulo `m` is a field element: its degree is below the
/// modulus's.
pub proof fn lemma_pow_range(g: u64, k: nat, m: u64)
    requires
        poly_deg(m) >= 1,
    ensures
        spec_pow(g, k, m) < pow2(poly_deg(m) as nat),
{
    if k == 0 {
        lemma2_to64();
        lemma_pow2_strictly_increases(0, poly_deg(m) as nat);
    } else {
        let _ = lemma_rem_props(spec_pmul(spec_pow(g, (k - 1) as nat, m), g), m);
    }
}

/// Every power of `g` modulo `m` has degree below the modulus's.
pub proof fn lemma_pow_deg(g: u64, k: nat, m: u64)
    requires
        poly_deg(m) >= 1,
    ensures
        poly_deg(spec_pow(g, k, m)) < poly_deg(m),
{
    if k == 0 {
    } else {
        let _ = lemma_rem_props(spec_pmul(spec_pow(g, (k - 1) as nat, m), g), m);
    }
}

/// Exponents add: the power at i + j is the reduced product of the powers
/// at i and at j. The degree budget on `g` keeps every intermediate product
/// inside the 64-bit encoding; a generator of a supported field, whose value
/// is below twice the field size, always satisfies it.
pub proof fn lemma_pow_add(g: u64, m: u64, i: nat, j: nat)
    requires
        1 <= poly_deg(m) <= 32,
        poly_deg(g) + 2 * poly_deg(m) <= 65,
    ensures
        spec_pow(g, i + j, m) == spec_rem(spec_pmul(spec_pow(g, i, m), spec_pow(g, j, m)), m),
    decreases j,
{
    let dm = poly_deg(m);
    let pi = spec_pow(g, i, m);
    lemma_pow_deg(g, i, m);
    lemma_deg_bounds(m);
    if j == 0 {
        lemma_pmul_comm(pi, 1);
        lemma_pmul_one_left(pi);
        assert(spec_rem(pi, m) == pi);
    } else {
        let j1 = (j - 1) as nat;
        lemma_pow_add(g, m, i, j1);
        let pj1 = spec_pow(g, j1, m);
        lemma_pow_deg(g, j1, m);
        let x = spec_pmul(pi, pj1);
        assert(spec_pow(g, (i + j1) + 1, m) == spec_rem(spec_pmul(spec_pow(g, i + j1, m), g), m));
        assert(spec_pow(g, i + j1, m) == spec_rem(x, m));
        if pi != 0 && pj1 != 0 {
            lemma_deg_bounds(pi);
            lemma_deg_bounds(pj1);
            lemma_pmul_deg(pi, pj1);
        } else {
            if pi == 0 {
            } else {
                lemma_pmul_zero_right(pi);
            }
            assert(x == 0);
        }
        if poly_deg(x) < dm {
            assert(spec_rem(x, m) == x);
        }
        lemma_rem_mul_compat(x, g, m);
        assert(spec_rem(spec_pmul(spec_rem(x, m), g), m) == spec_rem(spec_pmul(x, g), m));
        if g != 0 {
            lemma_deg_bounds(g);
        }
        lemma_pmul_assoc(pi, pj1, g);
        assert(spec_pmul(x, g) == spec_pmul(pi, spec_pmul(pj1, g)));
        let y = spec_pmul(pj1, g);
        assert(spec_pow(g, j, m) == spec_rem(y, m));
        if pj1 != 0 && g != 0 {
            lemma_pmul_deg(pj1, g);
        } else {
            if pj1 == 0 {
            } else {
                lemma_pmul_zero_right(pj1);
            }
            assert(y == 0);
        }
        if poly_deg(y) < dm {
            assert(spec_rem(y, m) == y);
        }
        lemma_pmul_comm(pi, spec_rem(y, m));
        lemma_pmul_comm(y, pi);
        lemma_rem_mul_compat(y, pi, m);
        assert(spec_rem(spec_pmul(spec_rem(y, m), pi), m) == spec_rem(spec_pmul(y, pi), m));
        assert(spec_pow(g, i + j, m) == spec_rem(spec_pmul(pi, spec_pow(g, j, m)), m));
    }
}

/// Some power of `g` below the group order reaches the element `e`.
pub open spec fn pow_reaches(g: u64, m: u64, e: u64) -> bool {
    exists|i: nat| i < pow2(poly_deg(m) as nat) - 1 && spec_pow(g, i, m) == e
}

/// `g` generates the whole multiplicative group of the field defined by `m`:
/// writing n = 2^deg(m) - 1 for the group order, the n-th power of `g` is 1
/// again, and the powers below the n-th are nonzero, pairwise distinct, and
/// reach every nonzero field element.
pub open spec fn spec_is_generator(g: u64, m: u64) -> bool {
    let d = poly_deg(m);
    let n = (pow2(d as nat) - 1) as nat;
    &&& d >= 1
    &&& spec_pow(g, n, m) == 1
    &&& forall|i: nat| i < n ==> #[trigger] spec_pow(g, i, m) != 0
    &&& forall|i: nat, j: nat|
        i < j < n ==> #[trigger] spec_pow(g, i, m) != #[trigger] spec_pow(g, j, m)
    &&& forall|e: u64| 1 <= e < pow2(d as nat) ==> #[trigger] pow_reaches(g, m, e)
}

/// Stepping a full group order forward returns to the same power.
pub proof fn lemma_pow_add_period(g: u64, m: u64, j: nat)
    requires
        spec_is_generator(g, m),
    ensures
        spec_pow(g, (j + pow2(poly_deg(m) as nat) - 1) as nat, m) == spec_pow(g, j, m),
    decreases j,
{
    let n = (pow2(poly_deg(m) as nat) - 1) as nat;
    lemma_pow2_pos(poly_deg(m) as nat);
    if j == 0 {
        assert(spec_pow(g, n, m) == 1);
    } else {
        lemma_pow_add_period(g, m, (j - 1) as nat);
        assert((j + n - 1) as nat == ((j - 1) + n) as nat);
    }
}

/// The sequence of powers of a generator is periodic with the group order
/// n = 2^deg(m) - 1 as its period.
pub proof fn lemma_pow_periodic(g: u64, m: u64, i: nat)
    requires
        spec_is_generator(g, m),
    ensures
        spec_pow(g, i, m) == spec_pow(
            g,
            (i % ((pow2(poly_deg(m) as nat) - 1) as nat)) as nat,
            m,
        ),
    decreases i,
{
    let d = poly_deg(m) as nat;
    let n = (pow2(d) - 1) as nat;
    lemma2_to64();
    lemma_pow2_strictly_increases(0, d);
    if i < n {
        vstd::arithmetic::div_mod::lemma_small_mod(i, n);
    } else {
        let j = (i - n) as nat;
        lemma_pow_add_period(g, m, j);
        lemma_pow_periodic(g, m, j);
        vstd::arithmetic::div_mod::lemma_mod_multiples_vanish(1, j as int, n as int);
    }
}

/// A binary polynomial: bit `i` of `value` is the coefficient of `x^i`.
#[derive(Clone, Copy, Debug, PartialEq, Eq, Structural)]
pub struct BinaryPolynomial {
    pub value: u64,
}

/// Degree of a nonzero value: position of the highest set bit.
pub(crate) fn deg_of(v: u64) -> (r: u64)
    requires
        v != 0,
    ensures
        r == poly_deg(v),
{
    proof {
        lemma_deg_bounds(v);
    }
    let mut x: u64 = v;
    let mut d: u64 = 0;
    while x > 1
        invariant
            x >= 1,
            poly_deg(v) == poly_deg(x) + d,
            d <= poly_deg(v),
            poly_deg(v) <= 63,
        decreases x,
    {
        proof {
            lemma_deg_bounds(x);
            lemma_deg_bounds((x / 2) as u64);
        }
        x = x / 2;
        d = d + 1;
    }
    d
}

/// Carry-less product of two 64-bit coefficient vectors; bits that would
/// land above bit 63 are discarded.
pub(crate) fn pmul_u64(a: u64, b: u64) -> (r: u64)
    ensures
        r == spec_pmul(a, b),
{
    let mut acc: u64 = 0;
    let mut x: u64 = a;
    let mut sh: u64 = b;
    proof {
        let t = spec_pmul(a, b);
        assert(0u64 ^ t == t) by (bit_vector);
    }
    while x > 0
        invariant
            spec_pmul(a, b) == acc ^ spec_pmul(x, sh),
        decreases x,
    {
        let ghost old_acc = acc;
        let ghost old_x = x;
        let ghost old_sh = sh;
        if x % 2 == 1 {
            acc = acc ^ sh;
        }
        x = x / 2;
        sh = sh << 1u64;
        proof {
            lemma_pmul_shl_right(x, old_sh);
            assert(spec_pmul(old_x, old_sh) == (if old_x % 2 == 1 {
                old_sh
            } else {
                0u64
            }) ^ (spec_pmul(x, old_sh) << 1u64));
            let tail = spec_pmul(x, old_sh) << 1u64;
            let low = if old_x % 2 == 1 {
                old_sh
            } else {
                0u64
            };
            assert(old_acc ^ (low ^ tail) == acc ^ tail) by (bit_vector)
                requires
                    acc == (if old_x % 2 == 1 {
                        old_acc ^ old_sh
                    } else {
                        old_acc
                    }),
                    low == (if old_x % 2 == 1 {
                        old_sh
                    } else {
                        0u64
                    }),
        ;
        }
    }
    proof {
        assert(spec_pmul(0, sh) == 0);
        assert(acc ^ 0u64 == acc) by (bit_vector);
    }
    acc
}

/// Remainder of `a` modulo the polynomial `m`.
pub(crate) fn rem_u64(a: u64, m: u64) -> (r: u64)
    requires
        m != 0,
    ensures
        r == spec_rem(a, m),
{
    let md: u64 = deg_of(m);
    proof {
        lemma_deg_bounds(m);
        lemma_u64_pow2_no_overflow(md as nat);
        lemma_u64_shl_is_mul(1, md);
    }
    let bound: u64 = 1u64 << md;
    let mut x: u64 = a;
    while x >= bound
        invariant
            m != 0,
            md == poly_deg(m),
            md <= 63,
            bound == pow2(md as nat),
            spec_rem(a, m) == spec_rem(x, m),
        decreases x,
    {
        proof {
            if x == 0 {
                lemma_pow2_pos(md as nat);
                assert(false);
            }
            lemma_deg_bounds(x);
            if poly_deg(x) < md {
                lemma_deg_lt_bound(x, md as nat);
                assert(false);
            }
        }
        let dx: u64 = deg_of(x);
        let ghost old_x = x;
        x = x ^ (m << ((dx - md) as u64));
        proof {
            let s = (dx - md) as u64;
            lemma_deg_shl(m, s);
            lemma_xor_cancel_top(old_x, m << s);
            lemma_deg_bounds(old_x);
            assert(spec_rem(old_x, m) == spec_rem(x, m));
        }
    }
    proof {
        lemma_deg_lt(x, md as nat);
        assert(spec_rem(x, m) == x);
    }
    x
}

impl BinaryPolynomial {
    /// Wraps a raw coefficient vector.
    pub fn new(value: u64) -> (r: Self)
        ensures
            r.value == value,
    {
        BinaryPolynomial { value }
    }

    /// The degree, or `None` for the zero polynomial, whose degree is
    /// undefined.
    pub fn degree(&self) -> (r: Option<u64>)
        ensures
            match r {
                Some(d) => self.value != 0 && d == poly_deg(self.value),
                None => self.value == 0,
            },
    {
        if self.value == 0 {
            None
        } else {
            Some(deg_of(self.value))
        }
    }

    /// Sum of two polynomials over GF(2): the bitwise XOR of the
    /// coefficients. Subtraction is the same operation.
    pub fn add(self, other: Self) -> (r: Self)
        ensures
            r.value == self.value ^ other.value,
    {
        BinaryPolynomial { value: self.value ^ other.value }
    }

    /// Carry-less product of two polynomials.
    pub fn mul(self, other: Self) -> (r: Self)
        ensures
            r.value == spec_pmul(self.value, other.value),
    {
        BinaryPolynomial { value: pmul_u64(self.value, other.value) }
    }

    /// Remainder of polynomial long division by `modulus`.
    pub fn rem(self, modulus: Self) -> (r: Self)
        requires
            modulus.value != 0,
        ensures
            r.value == spec_rem(self.value, modulus.value),
    {
        BinaryPolynomial { value: rem_u64(self.value, modulus.value) }
    }

    /// Whether the polynomial is irreducible, decided by trial division with
    /// every polynomial of degree between 1 and half this polynomial's
    /// degree. Degree 0 and the zero polynomial are not irreducible.
    pub fn is_irreducible(&self) -> (r: bool)
        ensures
            r == spec_irreducible(self.value),
    {
        let m = self.value;
        if m <= 1 {
            return false;
        }
        let d: u64 = deg_of(m);
        proof {
            lemma_deg_bounds(m);
            lemma2_to64();
            if poly_deg(m) == 0 {
                assert(m < pow2(1));
                assert(false);
            }
            lemma_u64_pow2_no_overflow((d / 2 + 1) as nat);
            lemma_u64_shl_is_mul(1, (d / 2 + 1) as u64);
        }
        let bound: u64 = 1u64 << (d / 2 + 1);
        let mut f: u64 = 2;
        while f < bound
            invariant
                m == self.value,
                m > 1,
                d == poly_deg(m),
                1 <= d <= 63,
                bound == pow2((d / 2 + 1) as nat),
                2 <= f <= bound,
                forall|g: u64| 2 <= g < f ==> #[trigger] spec_rem(m, g) != 0,
            decreases bound - f,
        {
            let r = rem_u64(m, f);
            if r == 0 {
                proof {
                    lemma_deg_bounds(f);
                    lemma2_to64();
                    if poly_deg(f) == 0 {
                        assert(f < pow2(1));
                        assert(false);
                    }
                    lemma_deg_lt(f, (d / 2 + 1) as nat);
                    lemma_divisor_not_irreducible(m, f);
                }
                return false;
            }
            f = f + 1;
        }
        proof {
            lemma_no_small_divisor_irreducible(m);
        }
        true
    }

    /// Whether `self` generates the whole multiplicative group of the field
    /// defined by `modulus`: its first 2^d - 1 powers are tracked in a table
    /// of visited elements, which must hit every nonzero element exactly once
    /// before the power sequence returns to 1.
    pub fn is_generator(&self, modulus: Self) -> (r: bool)
        requires
            poly_deg(modulus.value) <= 16,
        ensures
            r == spec_is_generator(self.value, modulus.value),
    {
        let g = self.value;
        let m = modulus.value;
        if m <= 1 {
            return false;
        }
        let d: u64 = deg_of(m);
        proof {
            lemma_deg_bounds(m);
            lemma2_to64();
            if poly_deg(m) == 0 {
                assert(m < pow2(1));
                assert(false);
            }
            lemma_u64_shl_is_mul(1, d);
            assert(1usize << d == 1u64 << d) by (bit_vector)
                requires
                    d <= 16,
            ;
        }
        let size: usize = 1usize << d;
        let n: u64 = (1u64 << d) - 1;
        let mut seen: Vec<bool> = Vec::new();
        let mut k: usize = 0;
        while k < size
            invariant
                seen@.len() == k,
                k <= size,
                forall|e: int| 0 <= e < k ==> !seen@[e],
            decreases size - k,
        {
            seen.push(false);
            k = k + 1;
        }
        let mut cur: u64 = 1;
        let mut i: u64 = 0;
        while i < n
            invariant
                g == self.value,
                m == modulus.value,
                m > 1,
                d == poly_deg(m),
                1 <= d <= 16,
                size == pow2(d as nat),
                n == pow2(d as nat) - 1,
                seen@.len() == size,
                i <= n,
                cur == spec_pow(g, i as nat, m),
                forall|j: nat| j < i ==> #[trigger] spec_pow(g, j, m) != 0,
                forall|j1: nat, j2: nat|
                    j1 < j2 < i ==> #[trigger] spec_pow(g, j1, m) != #[trigger] spec_pow(g, j2, m),
                forall|e: int|
                    0 <= e < size ==> (#[trigger] seen@[e] <==> exists|j: nat|
                        j < i && spec_pow(g, j, m) == e),
            decreases n - i,
        {
            proof {
                lemma_pow_range(g, i as nat, m);
            }
            if cur == 0 {
                proof {
                    assert(spec_pow(g, i as nat, m) == 0);
                }
                return false;
            }
            let ci = cur as usize;
            if seen[ci] {
                proof {
                    let j = choose|j: nat| j < i && spec_pow(g, j, m) == cur;
                    assert(spec_pow(g, j, m) == spec_pow(g, i as nat, m));
                }
                return false;
            }
            seen.set(ci, true);
            let ghost old_i = i as nat;
            let ghost old_cur = cur;
            cur = rem_u64(pmul_u64(cur, g), m);
            i = i + 1;
            proof {
                assert(spec_pow(g, i as nat, m) == spec_rem(
                    spec_pmul(spec_pow(g, old_i, m), g),
                    m,
                ));
                assert forall|e: int| 0 <= e < size implies (#[trigger] seen@[e]
                    <==> exists|j: nat| j < i && spec_pow(g, j, m) == e) by {
                    if e == old_cur {
                        assert(spec_pow(g, old_i, m) == e);
                        assert(seen@[e]);
                    } else {
                        if exists|j: nat| j < i && spec_pow(g, j, m) == e {
                            let j = choose|j: nat| j < i && spec_pow(g, j, m) == e;
                            assert(j < old_i);
                        }
                    }
                }
            }
        }
        if cur != 1 {
            proof {
                assert(spec_pow(g, (pow2(d as nat) - 1) as nat, m) != 1);
            }
            return false;
        }
        let mut e: usize = 1;
        while e < size
            invariant
                g == self.value,
                m == modulus.value,
                d == poly_deg(m),
                1 <= d <= 16,
                size == pow2(d as nat),
                n == pow2(d as nat) - 1,
                seen@.len() == size,
                1 <= e <= size,
                cur == spec_pow(g, n as nat, m),
                cur == 1,
                forall|j: nat| j < n ==> #[trigger] spec_pow(g, j, m) != 0,
                forall|j1: nat, j2: nat|
                    j1 < j2 < n ==> #[trigger] spec_pow(g, j1, m) != #[trigger] spec_pow(g, j2, m),
                forall|ee: int|
                    0 <= ee < size ==> (#[trigger] seen@[ee] <==> exists|j: nat|
                        j < n && spec_pow(g, j, m) == ee),
                forall|ee: int| 1 <= ee < e ==> #[trigger] seen@[ee],
            decreases size - e,
        {
            if !seen[e] {
                proof {
                    assert(!pow_reaches(g, m, e as u64)) by {
                        if pow_reaches(g, m, e as u64) {
                            let j = choose|i_: nat|
                                i_ < pow2(poly_deg(m) as nat) - 1 && spec_pow(g, i_, m) == (
                                e as u64);
                            assert(j < n && spec_pow(g, j, m) == e as int);
                            assert(seen@[e as int]);
                            assert(false);
                        }
                    }
                    assert(1 <= (e as u64) && (e as u64) < pow2(d as nat));
                }
                return false;
            }
            e = e + 1;
        }
        proof {
            assert forall|ee: u64| 1 <= ee < pow2(d as nat) implies #[trigger] pow_reaches(
                g,
                m,
                ee,
            ) by {
                assert(seen@[ee as int]);
                let j = choose|j: nat| j < n && spec_pow(g, j, m) == ee as int;
                assert(j < pow2(poly_deg(m) as nat) - 1 && spec_pow(g, j, m) == ee);
            }
        }
        true
    }
}

} // verus!
