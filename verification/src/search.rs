//! Linear scans for the smallest irreducible modulus of a given degree and
//! for the smallest generator of a field's multiplicative group. Both scans
//! are deliberately plain: the first match in increasing integer order is the
//! result, so identical inputs always select identical polynomials.

use crate::poly::{poly_deg, spec_irreducible, spec_is_generator, BinaryPolynomial};
use vstd::arithmetic::power2::{lemma_pow2_adds, lemma2_to64, pow2};
use vstd::bits::{lemma_u64_pow2_no_overflow, lemma_u64_shl_is_mul};
use vstd::prelude::*;

verus! {

/// Finds the monic irreducible polynomial of degree `p` with the smallest
/// integer value, scanning the monic degree-p candidates (2^p, 2^(p+1)) in
/// increasing order. An irreducible polynomial of every degree exists, so
/// `None` cannot actually occur; it reports a scan that found nothing, which
/// would mean a defect in the irreducibility test, not a legitimate outcome.
pub fn find_modulus_poly(p: u64) -> (r: Option<BinaryPolynomial>)
    requires
        1 <= p < 63,
    ensures
        match r {
            Some(m) => {
                &&& pow2(p as nat) < m.value < pow2((p + 1) as nat)
                &&& poly_deg(m.value) == p
                &&& spec_irreducible(m.value)
                &&& forall|v: u64| pow2(p as nat) < v < m.value ==> !spec_irreducible(v)
            },
            None => forall|v: u64|
                pow2(p as nat) < v < pow2((p + 1) as nat) ==> !spec_irreducible(v),
        },
{
    proof {
        lemma_u64_pow2_no_overflow(p as nat);
        lemma_u64_pow2_no_overflow((p + 1) as nat);
        lemma_u64_shl_is_mul(1, p);
        lemma_u64_shl_is_mul(1, (p + 1) as u64);
        lemma_pow2_adds(p as nat, 1);
        lemma2_to64();
    }
    let start: u64 = (1u64 << p) + 1;
    let end: u64 = (1u64 << (p + 1)) - 1;
    let mut c: u64 = start;
    while c <= end
        invariant
            1 <= p < 63,
            start == pow2(p as nat) + 1,
            end == pow2((p + 1) as nat) - 1,
            start <= c <= end + 1,
            forall|v: u64| pow2(p as nat) < v < c ==> !spec_irreducible(v),
        decreases end + 1 - c,
    {
        proof {
            lemma_u64_pow2_no_overflow((p + 1) as nat);
        }
        let candidate = BinaryPolynomial::new(c);
        if candidate.is_irreducible() {
            proof {
                vstd::arithmetic::power2::lemma_pow2_adds(p as nat, 1);
                crate::poly::lemma_deg_is(c, p as nat);
            }
            return Some(candidate);
        }
        c = c + 1;
    }
    None
}

/// Two values that both satisfy the modulus search's contract are equal: the
/// contract pins the first irreducible polynomial in scan order, so the
/// search is a pure function of `p`.
pub proof fn lemma_find_modulus_deterministic(p: u64, m1: u64, m2: u64)
    requires
        pow2(p as nat) < m1,
        pow2(p as nat) < m2,
        spec_irreducible(m1),
        spec_irreducible(m2),
        forall|v: u64| pow2(p as nat) < v < m1 ==> !spec_irreducible(v),
        forall|v: u64| pow2(p as nat) < v < m2 ==> !spec_irreducible(v),
    ensures
        m1 == m2,
{
    if m1 < m2 {
        assert(!spec_irreducible(m1));
    }
    if m2 < m1 {
        assert(!spec_irreducible(m2));
    }
}

/// Finds the generator with the smallest integer value for the field defined
/// by `modulus`, scanning candidates 1, 2, 3, ... up to twice the field
/// size. A generator exists for every irreducible modulus, so `None` cannot
/// actually occur; it reports an exhausted scan, which would mean a defect
/// in the generator test, not a legitimate outcome.
pub fn find_generator(modulus: BinaryPolynomial) -> (r: Option<BinaryPolynomial>)
    requires
        1 <= poly_deg(modulus.value) <= 16,
    ensures
        match r {
            Some(g) => {
                &&& 1 <= g.value < pow2((poly_deg(modulus.value) + 1) as nat)
                &&& spec_is_generator(g.value, modulus.value)
                &&& forall|v: u64| 1 <= v < g.value ==> !spec_is_generator(v, modulus.value)
            },
            None => forall|v: u64|
                1 <= v < pow2((poly_deg(modulus.value) + 1) as nat) ==> !spec_is_generator(
                    v,
                    modulus.value,
                ),
        },
{
    let m = modulus.value;
    proof {
        crate::poly::lemma_deg_bounds(m);
    }
    let d: u64 = crate::poly::deg_of(m);
    proof {
        lemma_u64_pow2_no_overflow((d + 1) as nat);
        lemma_u64_shl_is_mul(1, (d + 1) as u64);
        assert(2u64 << d == 1u64 << (d + 1)) by (bit_vector)
            requires
                d <= 16,
        ;
    }
    let end: u64 = 2u64 << d;
    let mut c: u64 = 1;
    while c < end
        invariant
            m == modulus.value,
            1 <= d <= 16,
            d == poly_deg(m),
            end == pow2((d + 1) as nat),
            1 <= c <= end,
            forall|v: u64| 1 <= v < c ==> !spec_is_generator(v, m),
        decreases end - c,
    {
        let candidate = BinaryPolynomial::new(c);
        if candidate.is_generator(modulus) {
            return Some(candidate);
        }
        c = c + 1;
    }
    None
}

/// Two values that both satisfy the generator search's contract are equal:
/// the contract pins the first generator in scan order, so the search is a
/// pure function of the modulus.
pub proof fn lemma_find_generator_deterministic(m: u64, g1: u64, g2: u64)
    requires
        1 <= g1,
        1 <= g2,
        spec_is_generator(g1, m),
        spec_is_generator(g2, m),
        forall|v: u64| 1 <= v < g1 ==> !spec_is_generator(v, m),
        forall|v: u64| 1 <= v < g2 ==> !spec_is_generator(v, m),
    ensures
        g1 == g2,
{
    if g1 < g2 {
        assert(!spec_is_generator(g1, m));
    }
    if g2 < g1 {
        assert(!spec_is_generator(g2, m));
    }
}

} // verus!
