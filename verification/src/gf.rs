//! Arithmetic in the finite field GF(2^8).
//!
//! A field element is a byte, read as a polynomial of degree below eight with
//! coefficients in GF(2): bit `i` is the coefficient of `x^i`. Addition is
//! the exclusive or of the coefficients. Multiplication is the product of the
//! two polynomials, reduced modulo `x^8 + x^4 + x^3 + x + 1`.

use crate::error::IdaError;
use vstd::prelude::*;

verus! {

/// The sum of two field elements. Every element is its own negative, so this
/// is also their difference.
pub open spec fn gf_add(a: u8, b: u8) -> u8 {
    a ^ b
}

/// The product of `a` and the element `x` (the byte 2): the coefficients move
/// up by one place, and an overflowing `x^8` is replaced by `x^4 + x^3 + x + 1`.
pub open spec fn gf_double(a: u8) -> u8 {
    if a & 0x80 == 0x80 {
        (a << 1) ^ 0x1b
    } else {
        a << 1
    }
}

/// `a` times the constant coefficient of `b`.
pub open spec fn gf_term(a: u8, b: u8) -> u8 {
    if b & 1 == 1 {
        a
    } else {
        0
    }
}

/// The product of `a` and the polynomial made of the lowest `n` coefficients
/// of `b`, by Horner's rule: `a * b = a * b_0 + x * (a * (b / x))`.
pub open spec fn gf_mul_bits(a: u8, b: u8, n: nat) -> u8
    decreases n,
{
    if n == 0 {
        0
    } else {
        gf_add(gf_term(a, b), gf_double(gf_mul_bits(a, b >> 1, (n - 1) as nat)))
    }
}

/// The product of two field elements.
pub open spec fn gf_mul(a: u8, b: u8) -> u8 {
    gf_mul_bits(a, b, 8)
}

/// `a` multiplied with itself `e` times; the empty product is 1.
pub open spec fn gf_pow(a: u8, e: nat) -> u8
    decreases e,
{
    if e == 0 {
        1
    } else {
        gf_mul(a, gf_pow(a, (e - 1) as nat))
    }
}

/// The multiplicative inverse of a nonzero element. The nonzero elements form
/// a group of order 255, so the inverse of `a` is `a^254`.
pub open spec fn gf_inv(a: u8) -> u8 {
    gf_pow(a, 254)
}

/// The quotient of `a` by a nonzero `b`.
pub open spec fn gf_div(a: u8, b: u8) -> u8 {
    gf_mul(a, gf_inv(b))
}

// ---------------------------------------------------------------------------
// A closed form of the product, for the bit-vector solver
// ---------------------------------------------------------------------------

spec fn shifted_copy(a: u8, b: u8, i: u16) -> u16 {
    if (b >> i) & 1 == 1 {
        (a as u16) << i
    } else {
        0
    }
}

/// The product of the two polynomials before reduction.
spec fn carryless_product(a: u8, b: u8) -> u16 {
    shifted_copy(a, b, 0) ^ shifted_copy(a, b, 1) ^ shifted_copy(a, b, 2) ^ shifted_copy(a, b, 3)
        ^ shifted_copy(a, b, 4) ^ shifted_copy(a, b, 5) ^ shifted_copy(a, b, 6) ^ shifted_copy(
        a,
        b,
        7,
    )
}

spec fn folded(p: u16, i: u16, residue: u16) -> u16 {
    if (p >> i) & 1 == 1 {
        residue
    } else {
        0
    }
}

/// Reduction modulo `x^8 + x^4 + x^3 + x + 1`: each coefficient of `x^i` with
/// `i >= 8` is replaced by the residue of `x^i`.
spec fn reduced(p: u16) -> u8 {
    ((p & 0xff) ^ folded(p, 8, 0x1b) ^ folded(p, 9, 0x36) ^ folded(p, 10, 0x6c) ^ folded(
        p,
        11,
        0xd8,
    ) ^ folded(p, 12, 0xab) ^ folded(p, 13, 0x4d) ^ folded(p, 14, 0x9a)) as u8
}

spec fn flat_mul(a: u8, b: u8) -> u8 {
    reduced(carryless_product(a, b))
}

spec fn horner_mul(a: u8, b: u8) -> u8 {
    let b1 = b >> 1;
    let b2 = b1 >> 1;
    let b3 = b2 >> 1;
    let b4 = b3 >> 1;
    let b5 = b4 >> 1;
    let b6 = b5 >> 1;
    let b7 = b6 >> 1;
    let m7 = gf_term(a, b7) ^ gf_double(0);
    let m6 = gf_term(a, b6) ^ gf_double(m7);
    let m5 = gf_term(a, b5) ^ gf_double(m6);
    let m4 = gf_term(a, b4) ^ gf_double(m5);
    let m3 = gf_term(a, b3) ^ gf_double(m4);
    let m2 = gf_term(a, b2) ^ gf_double(m3);
    let m1 = gf_term(a, b1) ^ gf_double(m2);
    gf_term(a, b) ^ gf_double(m1)
}

proof fn lemma_mul_unrolled(a: u8, b: u8)
    ensures
        gf_mul(a, b) == horner_mul(a, b),
{
    reveal_with_fuel(gf_mul_bits, 9);
}

proof fn lemma_horner_step(a: u8, bits: u8, inner: u8, high: u8, low: u8)
    by (bit_vector)
    requires
        inner == flat_mul(a, high),
        high < 0x80,
        low == (high << 1) | (bits & 1),
    ensures
        gf_term(a, bits) ^ gf_double(inner) == flat_mul(a, low),
{
}

proof fn lemma_shift_facts(b: u8)
    by (bit_vector)
    ensures
        (b >> 1) >> 1 == b >> 2,
        (b >> 2) >> 1 == b >> 3,
        (b >> 3) >> 1 == b >> 4,
        (b >> 4) >> 1 == b >> 5,
        (b >> 5) >> 1 == b >> 6,
        (b >> 6) >> 1 == b >> 7,
        (b >> 7) < 2,
        (b >> 7) == (0u8 << 1) | ((b >> 7) & 1),
        (b >> 6) == ((b >> 7) << 1) | ((b >> 6) & 1),
        (b >> 5) == ((b >> 6) << 1) | ((b >> 5) & 1),
        (b >> 4) == ((b >> 5) << 1) | ((b >> 4) & 1),
        (b >> 3) == ((b >> 4) << 1) | ((b >> 3) & 1),
        (b >> 2) == ((b >> 3) << 1) | ((b >> 2) & 1),
        (b >> 1) == ((b >> 2) << 1) | ((b >> 1) & 1),
        b == ((b >> 1) << 1) | (b & 1),
        (b >> 7) < 0x80,
        (b >> 6) < 0x80,
        (b >> 5) < 0x80,
        (b >> 4) < 0x80,
        (b >> 3) < 0x80,
        (b >> 2) < 0x80,
        (b >> 1) < 0x80,
{
}

/// The Horner form and the closed form of the product agree.
proof fn lemma_mul_flat(a: u8, b: u8)
    ensures
        gf_mul(a, b) == flat_mul(a, b),
{
    lemma_mul_unrolled(a, b);
    lemma_shift_facts(b);
    lemma_flat_zero(a);
    let b1 = b >> 1;
    let b2 = b >> 2;
    let b3 = b >> 3;
    let b4 = b >> 4;
    let b5 = b >> 5;
    let b6 = b >> 6;
    let b7 = b >> 7;
    let m7 = gf_term(a, b7) ^ gf_double(0);
    let m6 = gf_term(a, b6) ^ gf_double(m7);
    let m5 = gf_term(a, b5) ^ gf_double(m6);
    let m4 = gf_term(a, b4) ^ gf_double(m5);
    let m3 = gf_term(a, b3) ^ gf_double(m4);
    let m2 = gf_term(a, b2) ^ gf_double(m3);
    let m1 = gf_term(a, b1) ^ gf_double(m2);
    lemma_horner_step(a, b7, 0, 0, b7);
    lemma_horner_step(a, b6, m7, b7, b6);
    lemma_horner_step(a, b5, m6, b6, b5);
    lemma_horner_step(a, b4, m5, b5, b4);
    lemma_horner_step(a, b3, m4, b4, b3);
    lemma_horner_step(a, b2, m3, b3, b2);
    lemma_horner_step(a, b1, m2, b2, b1);
    lemma_horner_step(a, b, m1, b1, b);
}


proof fn lemma_flat_commutative(a: u8, b: u8)
    by (bit_vector)
    ensures
        flat_mul(a, b) == flat_mul(b, a),
{
}

proof fn lemma_flat_distributive(a: u8, b: u8, c: u8)
    by (bit_vector)
    ensures
        flat_mul(a, b ^ c) == flat_mul(a, b) ^ flat_mul(a, c),
{
}

proof fn lemma_flat_one(a: u8)
    by (bit_vector)
    ensures
        flat_mul(a, 1) == a,
        flat_mul(1, a) == a,
{
}

proof fn lemma_flat_zero(a: u8)
    by (bit_vector)
    ensures
        flat_mul(a, 0) == 0,
        flat_mul(0, a) == 0,
{
}

proof fn lemma_flat_double(a: u8, b: u8)
    by (bit_vector)
    ensures
        flat_mul(a, flat_mul(2, b)) == flat_mul(2, flat_mul(a, b)),
{
}

proof fn lemma_flat_no_zero_divisors(a: u8, b: u8)
    by (bit_vector)
    requires
        flat_mul(a, b) == 0,
    ensures
        a == 0 || b == 0,
{
}

proof fn lemma_flat_frobenius(a: u8, y1: u8, y2: u8, y3: u8, y4: u8, y5: u8, y6: u8, y7: u8)
    by (bit_vector)
    requires
        y1 == flat_mul(a, a),
        y2 == flat_mul(y1, y1),
        y3 == flat_mul(y2, y2),
        y4 == flat_mul(y3, y3),
        y5 == flat_mul(y4, y4),
        y6 == flat_mul(y5, y5),
        y7 == flat_mul(y6, y6),
    ensures
        flat_mul(y7, y7) == a,
{
}

proof fn lemma_split_low_bit(c: u8)
    by (bit_vector)
    ensures
        c == flat_mul(2, c >> 1) ^ (c & 1),
        c & 1 == 0 || c & 1 == 1,
        c != 0 ==> (c >> 1) < c,
{
}

proof fn lemma_xor_facts(a: u8, b: u8)
    by (bit_vector)
    ensures
        a ^ a == 0,
        a ^ 0 == a,
        0 ^ a == a,
        a ^ b == b ^ a,
        a ^ b == 0 ==> a == b,
{
}

proof fn lemma_xor_associative(a: u8, b: u8, c: u8)
    by (bit_vector)
    ensures
        (a ^ b) ^ c == a ^ (b ^ c),
{
}

// ---------------------------------------------------------------------------
// The field laws
// ---------------------------------------------------------------------------

/// Every element is its own negative: `a + a = 0`.
pub proof fn lemma_add_self(a: u8)
    ensures
        gf_add(a, a) == 0,
{
    lemma_xor_facts(a, a);
}

/// Zero is the neutral element of addition.
pub proof fn lemma_add_zero(a: u8)
    ensures
        gf_add(a, 0) == a,
        gf_add(0, a) == a,
{
    lemma_xor_facts(a, a);
}

/// Addition is associative.
pub proof fn lemma_add_associative(a: u8, b: u8, c: u8)
    ensures
        gf_add(gf_add(a, b), c) == gf_add(a, gf_add(b, c)),
{
    lemma_xor_associative(a, b, c);
}

/// Two elements whose sum is zero are equal.
pub proof fn lemma_add_cancel(a: u8, b: u8)
    requires
        gf_add(a, b) == 0,
    ensures
        a == b,
{
    lemma_xor_facts(a, b);
}

/// One is the neutral element of multiplication: `a * 1 = a`.
pub proof fn lemma_mul_one(a: u8)
    ensures
        gf_mul(a, 1) == a,
        gf_mul(1, a) == a,
{
    lemma_mul_flat(a, 1);
    lemma_mul_flat(1, a);
    lemma_flat_one(a);
}

/// Zero annihilates: `a * 0 = 0`.
pub proof fn lemma_mul_zero(a: u8)
    ensures
        gf_mul(a, 0) == 0,
        gf_mul(0, a) == 0,
{
    lemma_mul_flat(a, 0);
    lemma_mul_flat(0, a);
    lemma_flat_zero(a);
}

/// Multiplication is commutative.
pub proof fn lemma_mul_commutative(a: u8, b: u8)
    ensures
        gf_mul(a, b) == gf_mul(b, a),
{
    lemma_mul_flat(a, b);
    lemma_mul_flat(b, a);
    lemma_flat_commutative(a, b);
}

/// Multiplication distributes over addition, on either side.
pub proof fn lemma_mul_distributive(a: u8, b: u8, c: u8)
    ensures
        gf_mul(a, gf_add(b, c)) == gf_add(gf_mul(a, b), gf_mul(a, c)),
        gf_mul(gf_add(b, c), a) == gf_add(gf_mul(b, a), gf_mul(c, a)),
{
    lemma_mul_flat(a, b ^ c);
    lemma_mul_flat(a, b);
    lemma_mul_flat(a, c);
    lemma_flat_distributive(a, b, c);
    lemma_mul_commutative(b ^ c, a);
    lemma_mul_commutative(b, a);
    lemma_mul_commutative(c, a);
}

/// A product is zero only if one of its factors is.
pub proof fn lemma_no_zero_divisors(a: u8, b: u8)
    requires
        gf_mul(a, b) == 0,
    ensures
        a == 0 || b == 0,
{
    lemma_mul_flat(a, b);
    lemma_flat_no_zero_divisors(a, b);
}

proof fn lemma_mul_double(a: u8, b: u8)
    ensures
        gf_mul(a, gf_mul(2, b)) == gf_mul(2, gf_mul(a, b)),
{
    lemma_mul_flat(2, b);
    lemma_mul_flat(a, flat_mul(2, b));
    lemma_mul_flat(a, b);
    lemma_mul_flat(2, flat_mul(a, b));
    lemma_flat_double(a, b);
}

/// Multiplication is associative: `(a * b) * c = a * (b * c)`.
pub proof fn lemma_mul_associative(a: u8, b: u8, c: u8)
    ensures
        gf_mul(gf_mul(a, b), c) == gf_mul(a, gf_mul(b, c)),
    decreases c,
{
    let ab = gf_mul(a, b);
    if c == 0 {
        lemma_mul_zero(ab);
        lemma_mul_zero(b);
        lemma_mul_zero(a);
    } else {
        let high = c >> 1;
        let low = c & 1;
        lemma_split_low_bit(c);
        lemma_mul_flat(2, high);
        let twice = gf_mul(2, high);
        assert(c == gf_add(twice, low));
        lemma_mul_associative(a, b, high);
        // b * c = 2 * (b * high) + b * low
        lemma_mul_distributive(b, twice, low);
        lemma_mul_double(b, high);
        let b_high = gf_mul(b, high);
        let b_low = gf_mul(b, low);
        assert(gf_mul(b, c) == gf_add(gf_mul(2, b_high), b_low));
        // a * (b * c) = 2 * (a * (b * high)) + a * (b * low)
        lemma_mul_distributive(a, gf_mul(2, b_high), b_low);
        lemma_mul_double(a, b_high);
        // (a * b) * c = 2 * ((a * b) * high) + (a * b) * low
        lemma_mul_distributive(ab, twice, low);
        lemma_mul_double(ab, high);
        if low == 0 {
            lemma_mul_zero(ab);
            lemma_mul_zero(b);
            lemma_mul_zero(a);
        } else {
            lemma_mul_one(ab);
            lemma_mul_one(b);
        }
    }
}

/// Powers add their exponents: `a^(m + n) = a^m * a^n`.
pub proof fn lemma_pow_add(a: u8, m: nat, n: nat)
    ensures
        gf_pow(a, m + n) == gf_mul(gf_pow(a, m), gf_pow(a, n)),
    decreases m,
{
    if m == 0 {
        lemma_mul_one(gf_pow(a, n));
    } else {
        lemma_pow_add(a, (m - 1) as nat, n);
        lemma_mul_associative(a, gf_pow(a, (m - 1) as nat), gf_pow(a, n));
        assert(gf_pow(a, m + n) == gf_mul(a, gf_pow(a, (m + n - 1) as nat)));
    }
}

proof fn lemma_pow_square(a: u8, n: nat)
    ensures
        gf_pow(a, 2 * n) == gf_mul(gf_pow(a, n), gf_pow(a, n)),
{
    lemma_pow_add(a, n, n);
}

/// The Frobenius map applied eight times is the identity: `a^256 = a`.
pub proof fn lemma_pow_256(a: u8)
    ensures
        gf_pow(a, 256) == a,
{
    assert(gf_pow(a, 1) == a) by {
        reveal_with_fuel(gf_pow, 2);
        lemma_mul_one(a);
    }
    let y1 = gf_pow(a, 2);
    let y2 = gf_pow(a, 4);
    let y3 = gf_pow(a, 8);
    let y4 = gf_pow(a, 16);
    let y5 = gf_pow(a, 32);
    let y6 = gf_pow(a, 64);
    let y7 = gf_pow(a, 128);
    lemma_pow_square(a, 1);
    lemma_pow_square(a, 2);
    lemma_pow_square(a, 4);
    lemma_pow_square(a, 8);
    lemma_pow_square(a, 16);
    lemma_pow_square(a, 32);
    lemma_pow_square(a, 64);
    lemma_pow_square(a, 128);
    lemma_mul_flat(a, a);
    lemma_mul_flat(y1, y1);
    lemma_mul_flat(y2, y2);
    lemma_mul_flat(y3, y3);
    lemma_mul_flat(y4, y4);
    lemma_mul_flat(y5, y5);
    lemma_mul_flat(y6, y6);
    lemma_mul_flat(y7, y7);
    lemma_flat_frobenius(a, y1, y2, y3, y4, y5, y6, y7);
}

/// A nonzero element times its inverse is one: `a * a^(-1) = 1`.
pub proof fn lemma_mul_inverse(a: u8)
    requires
        a != 0,
    ensures
        gf_mul(a, gf_inv(a)) == 1,
        gf_mul(gf_inv(a), a) == 1,
{
    let z = gf_pow(a, 255);
    assert(z == gf_mul(a, gf_inv(a)));
    lemma_pow_256(a);
    assert(gf_pow(a, 256) == gf_mul(a, z));
    lemma_mul_one(a);
    lemma_mul_distributive(a, z, 1);
    lemma_add_self(a);
    lemma_no_zero_divisors(a, gf_add(z, 1));
    lemma_add_cancel(z, 1);
    lemma_mul_commutative(a, gf_inv(a));
}

// ---------------------------------------------------------------------------
// The operations
// ---------------------------------------------------------------------------

/// The neutral element of addition.
pub fn zero() -> (r: u8)
    ensures
        r == 0,
{
    0
}

/// The neutral element of multiplication.
pub fn one() -> (r: u8)
    ensures
        r == 1,
{
    1
}

/// Adds two field elements.
pub fn add(a: u8, b: u8) -> (r: u8)
    ensures
        r == gf_add(a, b),
{
    a ^ b
}

/// Subtracts `b` from `a`. In this field that is their sum.
pub fn subtract(a: u8, b: u8) -> (r: u8)
    ensures
        r == gf_add(a, b),
{
    a ^ b
}

fn double(a: u8) -> (r: u8)
    ensures
        r == gf_double(a),
{
    if a & 0x80 == 0x80 {
        (a << 1) ^ 0x1b
    } else {
        a << 1
    }
}

/// Multiplies two field elements.
pub fn multiply(a: u8, b: u8) -> (r: u8)
    ensures
        r == gf_mul(a, b),
{
    let mut acc: u8 = 0;
    let mut i: u8 = 8;
    while i > 0
        invariant
            i <= 8,
            acc == gf_mul_bits(a, b >> i, (8 - i) as nat),
        decreases i,
    {
        let ghost above: u8 = i;
        i -= 1;
        let rest: u8 = b >> i;
        let doubled: u8 = double(acc);
        proof {
            assert(rest >> 1 == b >> above) by (bit_vector)
                requires
                    rest == b >> i,
                    above == i + 1,
                    i < 8,
            ;
        }
        acc = if rest & 1 == 1 {
            a ^ doubled
        } else {
            proof {
                lemma_xor_facts(doubled, doubled);
            }
            doubled
        };
    }
    proof {
        assert(b >> 0 == b) by (bit_vector);
    }
    acc
}

/// Raises `a` to the power `exponent` by repeated multiplication.
pub fn pow(a: u8, exponent: usize) -> (r: u8)
    ensures
        r == gf_pow(a, exponent as nat),
{
    let mut acc: u8 = 1;
    let mut done: usize = 0;
    while done < exponent
        invariant
            done <= exponent,
            acc == gf_pow(a, done as nat),
        decreases exponent - done,
    {
        acc = multiply(a, acc);
        done += 1;
    }
    acc
}

/// The multiplicative inverse of `a`, which exists unless `a` is zero.
pub fn inverse(a: u8) -> (r: Result<u8, IdaError>)
    ensures
        a == 0 ==> r == Err::<u8, IdaError>(IdaError::DomainError),
        a != 0 ==> r == Ok::<u8, IdaError>(gf_inv(a)),
{
    if a == 0 {
        Err(IdaError::DomainError)
    } else {
        Ok(pow(a, 254))
    }
}

/// Divides `a` by `b`, which is possible unless `b` is zero.
pub fn divide(a: u8, b: u8) -> (r: Result<u8, IdaError>)
    ensures
        b == 0 ==> r == Err::<u8, IdaError>(IdaError::DomainError),
        b != 0 ==> r == Ok::<u8, IdaError>(gf_div(a, b)),
{
    if b == 0 {
        Err(IdaError::DomainError)
    } else {
        Ok(multiply(a, pow(b, 254)))
    }
}

} // verus!
