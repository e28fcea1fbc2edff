use rabin_ida::gf::{add, multiply};
use rabin_ida::ida::generate_decoder;
use rabin_ida::matrix::{generate_identity, inverse, mult_and_subtract, normalize_row, two_mut};
use rabin_ida::IdaError;

fn product(a: &Vec<Vec<u8>>, b: &Vec<Vec<u8>>) -> Vec<Vec<u8>> {
    let n = a.len();
    let mut out = vec![vec![0u8; n]; n];
    for r in 0..n {
        for c in 0..n {
            let mut sum = 0u8;
            for x in 0..n {
                sum = add(sum, multiply(a[r][x], b[x][c]));
            }
            out[r][c] = sum;
        }
    }
    out
}

#[test]
fn identity_has_ones_on_the_diagonal() {
    assert_eq!(generate_identity(0), Vec::<Vec<u8>>::new());
    assert_eq!(generate_identity(1), vec![vec![1u8]]);
    assert_eq!(
        generate_identity(3),
        vec![vec![1u8, 0, 0], vec![0, 1, 0], vec![0, 0, 1]]
    );
}

#[test]
fn two_mut_gives_both_places() {
    let mut v = vec![10u8, 20, 30, 40];
    {
        let (a, b) = two_mut(&mut v[..], 1, 3);
        assert_eq!((*a, *b), (20, 40));
        *a = 21;
        *b = 41;
    }
    assert_eq!(v, vec![10, 21, 30, 41]);
    {
        let (a, b) = two_mut(&mut v[..], 2, 0);
        assert_eq!((*a, *b), (30, 10));
        *a = 31;
        *b = 11;
    }
    assert_eq!(v, vec![11, 21, 31, 41]);
}

#[test]
fn mult_and_subtract_updates_the_row() {
    let mut row = vec![1u8, 2, 3];
    let normalized = vec![4u8, 5, 6];
    mult_and_subtract(&mut row[..], &normalized[..], 2);
    // 1 ^ 8, 2 ^ 10, 3 ^ 12
    assert_eq!(row, vec![9, 8, 15]);
    mult_and_subtract(&mut row[..], &normalized[..], 0);
    assert_eq!(row, vec![9, 8, 15]);
}

#[test]
fn normalize_row_scales_both_rows() {
    let mut tmp = vec![1u8, 2, 0x80];
    let mut res = vec![3u8, 0, 7, 9];
    normalize_row(&mut tmp[..], &mut res[..], 2);
    assert_eq!(tmp, vec![2, 4, 0x1b]);
    assert_eq!(res, vec![6, 0, 14, 9]);
}

#[test]
fn inverse_of_identity_is_identity() {
    assert_eq!(inverse(generate_identity(4)), Ok(generate_identity(4)));
    assert_eq!(inverse(Vec::new()), Ok(Vec::new()));
}

#[test]
fn inverse_of_a_single_entry() {
    assert_eq!(inverse(vec![vec![0x53u8]]), Ok(vec![vec![0xcau8]]));
    assert_eq!(inverse(vec![vec![0u8]]), Err(IdaError::SingularMatrix));
}

#[test]
fn inverse_of_a_small_matrix() {
    // determinant 1 * 1 + 1 * 2 = 3, whose inverse is 0xf6
    let m = vec![vec![1u8, 1], vec![2, 1]];
    let d = inverse(m.clone()).unwrap();
    assert_eq!(d, vec![vec![0xf6u8, 0xf6], vec![0xf7, 0xf6]]);
    assert_eq!(product(&d, &m), generate_identity(2));
    assert_eq!(product(&m, &d), generate_identity(2));
}

#[test]
fn inverse_is_inverse_on_both_sides() {
    let m = vec![
        vec![1u8, 1, 1, 1],
        vec![1, 2, 4, 8],
        vec![1, 3, 5, 15],
        vec![1, 4, 16, 64],
    ];
    let d = inverse(m.clone()).unwrap();
    assert_eq!(product(&d, &m), generate_identity(4));
    assert_eq!(product(&m, &d), generate_identity(4));
    assert_eq!(inverse(d), Ok(m));
}

#[test]
fn equal_rows_are_singular() {
    let m = vec![vec![1u8, 2, 3], vec![4, 5, 6], vec![1, 2, 3]];
    assert_eq!(inverse(m), Err(IdaError::SingularMatrix));
}

#[test]
fn zero_leading_entry_is_refused() {
    // an inverse exists, but the first pivot is zero and rows are not exchanged
    let m = vec![vec![0u8, 1], vec![1, 0]];
    assert_eq!(inverse(m), Err(IdaError::SingularMatrix));
}

#[test]
fn decoder_inverts_the_vandermonde_matrix() {
    let d = generate_decoder(3, vec![1, 2, 3]).unwrap();
    let v = vec![vec![1u8, 1, 1], vec![1, 2, 4], vec![1, 3, 5]];
    assert_eq!(product(&d, &v), generate_identity(3));
    assert_eq!(product(&v, &d), generate_identity(3));
}

#[test]
fn decoder_uses_the_first_values_only() {
    let d = generate_decoder(2, vec![7, 9, 7, 7]).unwrap();
    let v = vec![vec![1u8, 7], vec![1, 9]];
    assert_eq!(product(&d, &v), generate_identity(2));
}

#[test]
fn decoder_of_no_values_is_empty() {
    assert_eq!(generate_decoder(0, vec![5, 5]), Ok(Vec::new()));
}

#[test]
fn decoder_with_a_repeated_value_fails() {
    assert_eq!(
        generate_decoder(3, vec![4, 9, 4]),
        Err(IdaError::SingularMatrix)
    );
    assert_eq!(
        generate_decoder(2, vec![0, 0]),
        Err(IdaError::SingularMatrix)
    );
}

#[test]
fn decoder_accepts_zero_as_a_value() {
    let d = generate_decoder(2, vec![0, 1]).unwrap();
    let v = vec![vec![1u8, 0], vec![1, 1]];
    assert_eq!(product(&d, &v), generate_identity(2));
}
