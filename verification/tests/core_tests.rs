use g2core::error::FieldError;
use g2core::field::Field;
use g2core::poly::BinaryPolynomial;
use g2core::search::{find_generator, find_modulus_poly};
use g2core::tables::{generate_log_tables, FieldSpec};

#[test]
fn test_settings_parser() {
    let r = FieldSpec::from_input(3, None, None);
    assert!(r.is_ok());
    assert_eq!(
        r.unwrap(),
        FieldSpec {
            p: 3,
            modulus: BinaryPolynomial::new(0b1011),
            generator: BinaryPolynomial::new(0b10),
        }
    );
}

#[test]
fn test_generate_log_table() {
    let m = BinaryPolynomial::new(0b100011101);
    let g = BinaryPolynomial::new(0b10);

    let (exp, log) = generate_log_tables(g, m);
    assert_eq!(exp.len(), log.len());

    for (i, l) in log.iter().enumerate().skip(1) {
        assert_eq!(i, exp[*l as usize] as usize);
    }
}

fn build(p: u64, modulus: Option<u64>, generator: Option<u64>) -> Field {
    let spec = FieldSpec::from_input(p, modulus, generator).unwrap();
    Field::new(&spec)
}

#[test]
fn test_gf16_worked_example() {
    let f = build(4, Some(0b10011), Some(0b10));
    let one: u16 = 1;
    let a: u16 = 5;
    let b: u16 = 4;
    let c: u16 = 7;
    assert_eq!(f.add(a, c), 2);
    assert_eq!(f.sub(a, c), 2);
    assert_eq!(f.mul(a, b), c);
    assert_eq!(f.div(a, c).unwrap(), f.div(one, b).unwrap());
    assert_eq!(f.div(b, b).unwrap(), one);
}

#[test]
fn test_exp_log_inverse_all_degrees() {
    for p in 1..=16u64 {
        let f = build(p, None, None);
        let size = 1usize << p;
        assert_eq!(f.exp.len(), size);
        assert_eq!(f.log.len(), size);
        for e in 1..size {
            assert_eq!(f.exp[f.log[e] as usize] as usize, e);
        }
    }
}

#[test]
fn test_exp_table_period() {
    for p in [1u64, 4, 8] {
        let f = build(p, None, None);
        let n = (1usize << p) - 1;
        assert_eq!(f.exp[0], 1);
        assert_eq!(f.exp[n], 1);
    }
}

#[test]
fn test_field_laws_gf16() {
    let f = build(4, None, None);
    for a in 0..16u16 {
        for b in 0..16u16 {
            assert_eq!(f.mul(a, b), f.mul(b, a));
            assert_eq!(f.add(a, b), f.add(b, a));
            if b != 0 {
                assert_eq!(f.div(f.mul(a, b), b).unwrap(), a);
            }
        }
        assert_eq!(f.add(a, a), 0);
        assert_eq!(f.mul(a, 1), a);
        assert_eq!(f.add(a, 0), a);
    }
}

#[test]
fn test_division_by_zero_always_fails() {
    let f = build(4, None, None);
    for a in 0..16u16 {
        assert_eq!(f.div(a, 0), Err(FieldError::DivisionByZero));
    }
}

#[test]
fn test_multiplying_by_zero_yields_zero() {
    let f = build(4, None, None);
    for b in 0..16u16 {
        assert_eq!(f.mul(0, b), 0);
        assert_eq!(f.mul(b, 0), 0);
    }
}

#[test]
fn test_search_determinism() {
    let m1 = find_modulus_poly(8).unwrap();
    let m2 = find_modulus_poly(8).unwrap();
    assert_eq!(m1, m2);
    let g1 = find_generator(m1).unwrap();
    let g2 = find_generator(m2).unwrap();
    assert_eq!(g1, g2);
    assert_eq!(
        FieldSpec::from_input(8, None, None).unwrap(),
        FieldSpec::from_input(8, None, None).unwrap()
    );
}

#[test]
fn test_reducible_modulus_rejected() {
    assert!(!BinaryPolynomial::new(0b100000001).is_irreducible());
    assert_eq!(
        FieldSpec::from_input(8, Some(0b100000001), None),
        Err(FieldError::ModulusNotIrreducible)
    );
    assert_eq!(
        FieldSpec::from_input(8, Some(0b100000000), None),
        Err(FieldError::ModulusNotIrreducible)
    );
}

#[test]
fn test_non_generator_rejected() {
    // x^8 + x^4 + x^3 + x + 1 is irreducible, but x does not generate its
    // multiplicative group.
    let m = BinaryPolynomial::new(0b100011011);
    assert!(m.is_irreducible());
    assert!(!BinaryPolynomial::new(0b10).is_generator(m));
    assert_eq!(
        FieldSpec::from_input(8, Some(0b100011011), Some(0b10)),
        Err(FieldError::GeneratorNotPrimitive)
    );
    assert!(FieldSpec::from_input(8, Some(0b100011011), Some(0b11)).is_ok());
}

#[test]
fn test_degree_out_of_range_rejected() {
    assert_eq!(
        FieldSpec::from_input(0, None, None),
        Err(FieldError::DegreeOutOfRange)
    );
    assert_eq!(
        FieldSpec::from_input(17, None, None),
        Err(FieldError::DegreeOutOfRange)
    );
}

#[test]
fn test_modulus_degree_mismatch_rejected() {
    assert_eq!(
        FieldSpec::from_input(4, Some(0b1011), None),
        Err(FieldError::ModulusDegreeMismatch)
    );
    assert_eq!(
        FieldSpec::from_input(3, Some(0), None),
        Err(FieldError::ModulusDegreeMismatch)
    );
}

#[test]
fn test_from_raw_masks_high_bits() {
    let f = build(4, None, None);
    assert_eq!(f.from_raw(0x1F5), 5);
    assert_eq!(f.from_raw(16), 0);
    assert_eq!(f.from_raw(15), 15);
}

#[test]
fn test_polynomial_operations() {
    assert_eq!(BinaryPolynomial::new(0).degree(), None);
    assert_eq!(BinaryPolynomial::new(1).degree(), Some(0));
    assert_eq!(BinaryPolynomial::new(0b1011).degree(), Some(3));
    let a = BinaryPolynomial::new(0b1100);
    let b = BinaryPolynomial::new(0b1010);
    assert_eq!(a.add(b).value, 0b0110);
    // (x + 1)^2 == x^2 + 1 in carry-less arithmetic.
    let t = BinaryPolynomial::new(0b11);
    assert_eq!(t.mul(t).value, 0b101);
    // x^3 == (x + 1)(x^2 + x + 1) + 1, so the remainder by x + 1 is 1.
    let c = BinaryPolynomial::new(0b1000);
    assert_eq!(c.rem(t).value, 1);
    // x, x + 1 are the irreducible polynomials of degree 1.
    assert!(BinaryPolynomial::new(0b10).is_irreducible());
    assert!(BinaryPolynomial::new(0b11).is_irreducible());
    assert!(!BinaryPolynomial::new(0b1).is_irreducible());
    assert!(!BinaryPolynomial::new(0b110).is_irreducible());
}

#[test]
fn test_mul_matches_polynomial_arithmetic() {
    let f = build(4, Some(0b10011), Some(0b10));
    let m = BinaryPolynomial::new(0b10011);
    for a in 0..16u16 {
        for b in 0..16u16 {
            let p = BinaryPolynomial::new(a as u64).mul(BinaryPolynomial::new(b as u64));
            assert_eq!(f.mul(a, b) as u64, p.rem(m).value);
        }
    }
}

#[test]
fn test_first_moduli_match_scan_order() {
    // Smallest monic irreducible of each small degree, scanning upward from
    // 2^p + 1.
    assert_eq!(find_modulus_poly(1).unwrap().value, 0b11);
    assert_eq!(find_modulus_poly(2).unwrap().value, 0b111);
    assert_eq!(find_modulus_poly(3).unwrap().value, 0b1011);
    assert_eq!(find_modulus_poly(4).unwrap().value, 0b10011);
    assert_eq!(find_modulus_poly(8).unwrap().value, 0b100011011);
}
