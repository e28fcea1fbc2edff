use rabin_ida::gf::{add, divide, inverse, multiply, one, pow, subtract, zero};
use rabin_ida::IdaError;

#[test]
fn identities_are_zero_and_one() {
    assert_eq!(zero(), 0);
    assert_eq!(one(), 1);
}

#[test]
fn addition_is_exclusive_or() {
    assert_eq!(add(0x57, 0x83), 0xd4);
    assert_eq!(subtract(0x57, 0x83), 0xd4);
    assert_eq!(add(0, 0), 0);
    assert_eq!(add(0xff, 0xff), 0);
}

#[test]
fn every_element_is_its_own_negative() {
    for a in 0..=255u8 {
        assert_eq!(add(a, a), zero());
        assert_eq!(subtract(add(a, 0x3c), 0x3c), a);
    }
}

#[test]
fn small_products_are_polynomial_products() {
    // (x + 1)(x^2 + x + 1) = x^3 + 1
    assert_eq!(multiply(3, 7), 9);
    assert_eq!(multiply(2, 3), 6);
    assert_eq!(multiply(2, 0x40), 0x80);
}

#[test]
fn products_are_reduced_by_the_field_polynomial() {
    // x * x^7 = x^8 = x^4 + x^3 + x + 1
    assert_eq!(multiply(2, 0x80), 0x1b);
    assert_eq!(multiply(0x80, 2), 0x1b);
    assert_eq!(multiply(0x57, 0x83), 0xc1);
    assert_eq!(multiply(0x57, 0x13), 0xfe);
    assert_eq!(multiply(0xff, 0xff), 0x13);
}

#[test]
fn one_is_neutral_and_zero_annihilates() {
    for a in 0..=255u8 {
        assert_eq!(multiply(a, one()), a);
        assert_eq!(multiply(one(), a), a);
        assert_eq!(multiply(a, zero()), zero());
        assert_eq!(multiply(zero(), a), zero());
    }
}

#[test]
fn multiplication_is_commutative() {
    for a in 0..=255u8 {
        for b in 0..=255u8 {
            assert_eq!(multiply(a, b), multiply(b, a));
        }
    }
}

#[test]
fn multiplication_is_associative() {
    let samples: [u8; 9] = [0, 1, 2, 3, 0x1b, 0x53, 0x80, 0xca, 0xff];
    for a in samples {
        for b in 0..=255u8 {
            for c in samples {
                assert_eq!(multiply(multiply(a, b), c), multiply(a, multiply(b, c)));
            }
        }
    }
}

#[test]
fn multiplication_distributes_over_addition() {
    let samples: [u8; 7] = [0, 1, 2, 0x1d, 0x57, 0x83, 0xff];
    for a in samples {
        for b in 0..=255u8 {
            for c in samples {
                assert_eq!(multiply(a, add(b, c)), add(multiply(a, b), multiply(a, c)));
            }
        }
    }
}

#[test]
fn inverse_of_known_elements() {
    assert_eq!(inverse(1), Ok(1));
    assert_eq!(inverse(2), Ok(0x8d));
    assert_eq!(inverse(0x53), Ok(0xca));
    assert_eq!(inverse(0xca), Ok(0x53));
}

#[test]
fn every_nonzero_element_times_its_inverse_is_one() {
    for a in 1..=255u8 {
        let inv = inverse(a).unwrap();
        assert_ne!(inv, 0);
        assert_eq!(multiply(a, inv), one());
        assert_eq!(multiply(inv, a), one());
    }
}

#[test]
fn zero_has_no_inverse() {
    assert_eq!(inverse(0), Err(IdaError::DomainError));
}

#[test]
fn division_undoes_multiplication() {
    assert_eq!(divide(0xc1, 0x83), Ok(0x57));
    assert_eq!(divide(0, 7), Ok(0));
    for a in 0..=255u8 {
        assert_eq!(divide(multiply(a, 0x1d), 0x1d), Ok(a));
        assert_eq!(divide(a, 1), Ok(a));
    }
}

#[test]
fn division_by_zero_fails() {
    assert_eq!(divide(5, 0), Err(IdaError::DomainError));
    assert_eq!(divide(0, 0), Err(IdaError::DomainError));
}

#[test]
fn power_zero_is_one_for_every_base() {
    for a in 0..=255u8 {
        assert_eq!(pow(a, 0), 1);
    }
}

#[test]
fn powers_are_repeated_products() {
    assert_eq!(pow(2, 1), 2);
    assert_eq!(pow(2, 7), 0x80);
    assert_eq!(pow(2, 8), 0x1b);
    assert_eq!(pow(3, 2), 5);
    assert_eq!(pow(0, 1), 0);
    assert_eq!(pow(0, 5), 0);
    assert_eq!(pow(0x53, 3), multiply(0x53, multiply(0x53, 0x53)));
}

#[test]
fn the_nonzero_elements_have_order_dividing_255() {
    for a in 1..=255u8 {
        assert_eq!(pow(a, 255), 1);
        assert_eq!(pow(a, 256), a);
        assert_eq!(pow(a, 254), inverse(a).unwrap());
    }
}
