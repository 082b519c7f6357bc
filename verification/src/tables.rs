//! Construction of the discrete exponent and logarithm tables of one field,
//! and validation of a field-definition request into a `FieldSpec`.

use crate::error::FieldError;
use crate::poly::{
    lemma_pow_range, poly_deg, pow_reaches, spec_irreducible, spec_is_generator, spec_pow,
    BinaryPolynomial,
};
use crate::search::{find_generator, find_modulus_poly};
use vstd::arithmetic::power2::{lemma2_to64, lemma_pow2_strictly_increases, pow2};
use vstd::bits::{lemma_u64_pow2_no_overflow, lemma_u64_shl_is_mul};
use vstd::prelude::*;

verus! {

/// Builds the exponent and logarithm tables of the field defined by
/// `modulus`, with `generator` as the base of the discrete logarithm.
///
/// Writing d for the modulus's degree and n = 2^d - 1 for the group order,
/// both tables have 2^d entries. Entry i of the exponent table is the i-th
/// power of the generator, so entry n wraps around to 1 again; the entry of
/// the logarithm table at a nonzero element e is the index of the last power
/// equal to e, so the logarithm of 1 is n rather than 0. Entry 0 of the
/// logarithm table is never written: the zero element has no logarithm.
pub fn generate_log_tables(generator: BinaryPolynomial, modulus: BinaryPolynomial) -> (r: (
    Vec<u16>,
    Vec<u16>,
))
    requires
        spec_irreducible(modulus.value),
        spec_is_generator(generator.value, modulus.value),
        poly_deg(modulus.value) <= 16,
    ensures
        r.0@.len() == pow2(poly_deg(modulus.value) as nat),
        r.1@.len() == pow2(poly_deg(modulus.value) as nat),
        forall|j: int|
            0 <= j < pow2(poly_deg(modulus.value) as nat) ==> #[trigger] r.0@[j] == spec_pow(
                generator.value,
                j as nat,
                modulus.value,
            ),
        forall|j: int|
            0 <= j < pow2(poly_deg(modulus.value) as nat) ==> 1 <= #[trigger] r.0@[j] < pow2(
                poly_deg(modulus.value) as nat,
            ),
        r.0@[0] == 1,
        r.0@[pow2(poly_deg(modulus.value) as nat) - 1] == 1,
        r.1@[0] == 0,
        forall|e: int|
            1 <= e < pow2(poly_deg(modulus.value) as nat) ==> 1 <= #[trigger] r.1@[e] <= pow2(
                poly_deg(modulus.value) as nat,
            ) - 1 && r.0@[r.1@[e] as int] == e,
        forall|i: int|
            1 <= i <= pow2(poly_deg(modulus.value) as nat) - 1 ==> #[trigger] r.1@[r.0@[i] as int]
                == i,
{
    let g = generator.value;
    let m = modulus.value;
    proof {
        crate::poly::lemma_deg_bounds(m);
        lemma2_to64();
        if poly_deg(m) < 16 {
            lemma_pow2_strictly_increases(poly_deg(m) as nat, 16);
        }
    }
    let d: u64 = crate::poly::deg_of(m);
    proof {
        lemma_u64_pow2_no_overflow(d as nat);
        lemma_u64_shl_is_mul(1, d);
        assert(1usize << d == 1u64 << d) by (bit_vector)
            requires
                d <= 16,
        ;
    }
    let size: usize = 1usize << d;
    let n: u64 = (1u64 << d) - 1;
    let mut exp: Vec<u16> = Vec::new();
    let mut log: Vec<u16> = Vec::new();
    let mut k: usize = 0;
    while k < size
        invariant
            log@.len() == k,
            k <= size,
            forall|e: int| 0 <= e < k ==> log@[e] == 0,
        decreases size - k,
    {
        log.push(0);
        k = k + 1;
    }
    let mut cur: u64 = 1;
    let mut i: u64 = 0;
    while i <= n
        invariant
            g == generator.value,
            m == modulus.value,
            spec_is_generator(g, m),
            1 <= poly_deg(m) <= 16,
            d == poly_deg(m),
            size == pow2(d as nat),
            size <= 65536,
            n == pow2(d as nat) - 1,
            i <= n + 1,
            exp@.len() == i,
            forall|j: int| 0 <= j < i ==> #[trigger] exp@[j] == spec_pow(g, j as nat, m),
            cur == spec_pow(g, i as nat, m),
            log@.len() == size,
            log@[0] == 0,
            forall|e: int, j: nat|
                1 <= e < size && j < i && #[trigger] spec_pow(g, j, m) == e ==> (#[trigger] log@[e]
                    < i && spec_pow(g, log@[e] as nat, m) == e && j <= log@[e]),
        decreases n + 1 - i,
    {
        proof {
            lemma_pow_range(g, i as nat, m);
            if i < n {
                assert(spec_pow(g, i as nat, m) != 0);
            } else {
                assert(i == n);
                assert(spec_pow(g, (pow2(poly_deg(m) as nat) - 1) as nat, m) == 1);
            }
            assert(1 <= cur < size);
        }
        exp.push(cur as u16);
        log.set(cur as usize, i as u16);
        let ghost old_i = i as nat;
        let ghost old_cur = cur;
        let ghost old_log = log@;
        cur = crate::poly::rem_u64(crate::poly::pmul_u64(cur, g), m);
        i = i + 1;
        proof {
            assert(spec_pow(g, i as nat, m) == spec_rem_step(g, m, old_i)) by {
                assert(i as nat == old_i + 1);
            }
            assert forall|j: int| 0 <= j < i implies #[trigger] exp@[j] == spec_pow(
                g,
                j as nat,
                m,
            ) by {
                if j == old_i {
                    assert(exp@[j] == old_cur as u16);
                }
            }
            assert forall|e: int, j: nat|
                1 <= e < size && j < i && #[trigger] spec_pow(g, j, m) == e implies (
            #[trigger] log@[e] < i && spec_pow(g, log@[e] as nat, m) == e && j <= log@[e]) by {
                if e == old_cur {
                    assert(log@[e] == old_i as u16);
                    assert(spec_pow(g, old_i, m) == e);
                } else {
                    assert(log@[e] == old_log[e]);
                    if j < old_i {
                        assert(old_log[e] < old_i && spec_pow(g, old_log[e] as nat, m) == e && j
                            <= old_log[e]);
                    } else {
                        assert(j == old_i);
                        assert(spec_pow(g, j, m) == old_cur);
                        assert(false);
                    }
                }
            }
        }
    }
    proof {
        assert(i == n + 1);
        lemma_final_tables(g, m, exp@, log@);
    }
    (exp, log)
}

/// The one multiply-and-reduce step that advances a power of `g` modulo `m`.
spec fn spec_rem_step(g: u64, m: u64, k: nat) -> u64 {
    crate::poly::spec_rem(crate::poly::spec_pmul(spec_pow(g, k, m), g), m)
}

/// From the loop invariants of the table construction — every index of the
/// exponent table holds the matching power, and every logarithm entry is the
/// index of the last power that produced its element — the two tables are
/// mutually inverse on the nonzero field elements.
proof fn lemma_final_tables(g: u64, m: u64, exp: Seq<u16>, log: Seq<u16>)
    requires
        spec_is_generator(g, m),
        1 <= poly_deg(m) <= 16,
        exp.len() == pow2(poly_deg(m) as nat),
        log.len() == pow2(poly_deg(m) as nat),
        forall|j: int| 0 <= j < exp.len() ==> #[trigger] exp[j] == spec_pow(g, j as nat, m),
        forall|e: int, j: nat|
            1 <= e < log.len() && j < log.len() && #[trigger] spec_pow(g, j, m) == e ==> (
            #[trigger] log[e] < log.len() && spec_pow(g, log[e] as nat, m) == e && j <= log[e]),
    ensures
        forall|j: int| 0 <= j < exp.len() ==> 1 <= #[trigger] exp[j] < pow2(poly_deg(m) as nat),
        exp[0] == 1,
        exp[pow2(poly_deg(m) as nat) - 1] == 1,
        forall|e: int|
            1 <= e < pow2(poly_deg(m) as nat) ==> 1 <= #[trigger] log[e] <= pow2(
                poly_deg(m) as nat,
            ) - 1 && exp[log[e] as int] == e,
        forall|i: int|
            1 <= i <= pow2(poly_deg(m) as nat) - 1 ==> #[trigger] log[exp[i] as int] == i,
{
    let d = poly_deg(m) as nat;
    let size = pow2(d) as int;
    let n = size - 1;
    lemma2_to64();
    lemma_pow2_strictly_increases(0, d);
    assert(spec_pow(g, (pow2(d) - 1) as nat, m) == 1);
    assert forall|j: int| 0 <= j < exp.len() implies 1 <= #[trigger] exp[j] < pow2(d) by {
        lemma_pow_range(g, j as nat, m);
        if j < n {
            assert(spec_pow(g, j as nat, m) != 0);
        }
    }
    assert(exp[0] == spec_pow(g, 0, m));
    assert forall|e: int|
        1 <= e < pow2(d) implies 1 <= #[trigger] log[e] <= pow2(d) - 1 && exp[log[e] as int]
        == e by {
        assert(pow_reaches(g, m, e as u64));
        let j = choose|j: nat| j < pow2(d) - 1 && spec_pow(g, j, m) == (e as u64);
        assert(spec_pow(g, j, m) == e);
        assert(log[e] < log.len() && spec_pow(g, log[e] as nat, m) == e && j <= log[e]);
        if log[e] == 0 {
            assert(spec_pow(g, 0, m) == 1);
            assert(e == 1);
            assert(spec_pow(g, n as nat, m) == 1);
            assert(n <= log[e]);
            assert(false);
        }
        assert(exp[log[e] as int] == spec_pow(g, log[e] as nat, m));
    }
    assert forall|i: int| 1 <= i <= n implies #[trigger] log[exp[i] as int] == i by {
        let e = exp[i] as int;
        assert(exp[i] == spec_pow(g, i as nat, m));
        lemma_pow_range(g, i as nat, m);
        if i < n {
            assert(spec_pow(g, i as nat, m) != 0);
        }
        assert(1 <= e < pow2(d));
        let le = log[e] as int;
        assert(1 <= le <= n && spec_pow(g, le as nat, m) == e);
        if i < n {
            assert(spec_pow(g, 0, m) != spec_pow(g, i as nat, m));
            assert(e != 1);
            if le == n {
                assert(spec_pow(g, le as nat, m) == 1);
                assert(false);
            }
            if le < i {
                assert(spec_pow(g, le as nat, m) != spec_pow(g, i as nat, m));
                assert(false);
            }
            if i < le {
                assert(spec_pow(g, i as nat, m) != spec_pow(g, le as nat, m));
                assert(false);
            }
        } else {
            assert(e == 1);
            assert(spec_pow(g, n as nat, m) == 1);
            assert(n <= log[e]);
        }
    }
}

/// The validated parameters of one field instance: the degree, the
/// irreducible modulus polynomial of exactly that degree, and a generator of
/// the multiplicative group.
#[derive(Clone, Copy, Debug, PartialEq, Eq, Structural)]
pub struct FieldSpec {
    /// The degree p of the field GF(2^p), between 1 and 16.
    pub p: u64,
    /// The irreducible modulus polynomial, of degree exactly p.
    pub modulus: BinaryPolynomial,
    /// A generator of the multiplicative group of the field.
    pub generator: BinaryPolynomial,
}

impl FieldSpec {
    /// The invariant of a validated field specification.
    pub open spec fn valid(self) -> bool {
        &&& 1 <= self.p <= 16
        &&& poly_deg(self.modulus.value) == self.p
        &&& spec_irreducible(self.modulus.value)
        &&& spec_is_generator(self.generator.value, self.modulus.value)
    }

    /// Validates a field-definition request: the degree `p`, an optional
    /// explicit modulus and an optional explicit generator, both given as
    /// the integer encoding of their coefficients. A missing modulus or
    /// generator is searched for automatically, taking the smallest match.
    ///
    /// `SearchExhausted` would report a scan of the whole candidate range
    /// without a match; a match always exists, so reaching it would mean a
    /// defect in the polynomial tests, not a legitimate configuration.
    pub fn from_input(p: u64, modulus: Option<u64>, generator: Option<u64>) -> (r: Result<
        FieldSpec,
        FieldError,
    >)
        ensures
            (r == Err::<FieldSpec, FieldError>(FieldError::DegreeOutOfRange)) <==> !(1 <= p <= 16),
            (r == Err::<FieldSpec, FieldError>(FieldError::ModulusDegreeMismatch)) <==> (1 <= p
                <= 16 && (modulus matches Some(mv) && poly_deg(mv) != p)),
            (r == Err::<FieldSpec, FieldError>(FieldError::ModulusNotIrreducible)) <==> (1 <= p
                <= 16 && (modulus matches Some(mv) && poly_deg(mv) == p && !spec_irreducible(mv))),
            1 <= p <= 16 ==> (modulus matches Some(mv) ==> (generator matches Some(gv) ==> ((
            poly_deg(mv) == p && spec_irreducible(mv)) ==> ((r matches Ok(s) && s.p == p
                && s.modulus.value == mv && s.generator.value == gv) <==> spec_is_generator(
                gv,
                mv,
            ))))),
            (r == Err::<FieldSpec, FieldError>(FieldError::GeneratorNotPrimitive)) ==> (1 <= p <= 16
                && generator is Some),
            (r == Err::<FieldSpec, FieldError>(FieldError::GeneratorNotPrimitive)) ==> (
            modulus matches Some(mv) ==> (generator matches Some(gv) ==> (poly_deg(mv) == p
                && spec_irreducible(mv) && !spec_is_generator(gv, mv)))),
            ((r == Err::<FieldSpec, FieldError>(FieldError::GeneratorNotPrimitive)) && modulus
                is None) ==> (generator matches Some(gv) ==> (exists|mm: u64|
                pow2(p as nat) < mm < pow2((p + 1) as nat) && #[trigger] spec_irreducible(mm) && (
                forall|v: u64| pow2(p as nat) < v < mm ==> !spec_irreducible(v))
                    && !spec_is_generator(gv, mm))),
            (r == Err::<FieldSpec, FieldError>(FieldError::SearchExhausted)) ==> (1 <= p <= 16 && (
            match modulus {
                Option::Some(mv) => generator is None && poly_deg(mv) == p && spec_irreducible(mv)
                    && (forall|v: u64|
                    1 <= v < pow2((p + 1) as nat) ==> !spec_is_generator(v, mv)),
                Option::None => (forall|v: u64|
                    pow2(p as nat) < v < pow2((p + 1) as nat) ==> !spec_irreducible(v)) || (
                generator is None && exists|mm: u64|
                    pow2(p as nat) < mm < pow2((p + 1) as nat) && #[trigger] spec_irreducible(mm)
                        && (forall|v: u64| pow2(p as nat) < v < mm ==> !spec_irreducible(v)) && (
                    forall|v: u64|
                        1 <= v < pow2((p + 1) as nat) ==> !spec_is_generator(v, mm))),
            })),
            r != Err::<FieldSpec, FieldError>(FieldError::DivisionByZero),
            r matches Ok(s) ==> {
                &&& s.valid()
                &&& s.p == p
                &&& (modulus matches Some(mv) ==> s.modulus.value == mv)
                &&& (generator matches Some(gv) ==> s.generator.value == gv)
                &&& (modulus is None ==> pow2(p as nat) < s.modulus.value < pow2((p + 1) as nat)
                    && (forall|v: u64|
                    pow2(p as nat) < v < s.modulus.value ==> !spec_irreducible(v)))
                &&& (generator is None ==> 1 <= s.generator.value && (forall|v: u64|
                    1 <= v < s.generator.value ==> !spec_is_generator(v, s.modulus.value)))
            },
    {
        if p < 1 || p > 16 {
            return Err(FieldError::DegreeOutOfRange);
        }
        let mpoly: BinaryPolynomial = match modulus {
            Some(mv) => {
                let mp = BinaryPolynomial::new(mv);
                let deg_ok: bool = match mp.degree() {
                    Some(dd) => dd == p,
                    None => false,
                };
                if !deg_ok {
                    return Err(FieldError::ModulusDegreeMismatch);
                }
                if !mp.is_irreducible() {
                    return Err(FieldError::ModulusNotIrreducible);
                }
                mp
            },
            None => {
                match find_modulus_poly(p) {
                    Some(mp) => mp,
                    None => {
                        return Err(FieldError::SearchExhausted);
                    },
                }
            },
        };
        let gpoly: BinaryPolynomial = match generator {
            Some(gv) => {
                let gp = BinaryPolynomial::new(gv);
                if !gp.is_generator(mpoly) {
                    return Err(FieldError::GeneratorNotPrimitive);
                }
                gp
            },
            None => {
                match find_generator(mpoly) {
                    Some(gp) => gp,
                    None => {
                        return Err(FieldError::SearchExhausted);
                    },
                }
            },
        };
        Ok(FieldSpec { p, modulus: mpoly, generator: gpoly })
    }
}

} // verus!
