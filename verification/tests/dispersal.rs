use rabin_ida::{IdaError, RabinIDA, RabinShare};

fn scheme(n: u8, k: u8) -> RabinIDA {
    match RabinIDA::new(n, k) {
        Ok(ida) => ida,
        Err(e) => panic!("{:?}", e),
    }
}

fn sample(len: usize) -> Vec<u8> {
    (0..len).map(|i| (i * 31 + 7) as u8).collect()
}

#[test]
fn construction_accepts_valid_pairs() {
    assert!(RabinIDA::new(1, 1).is_ok());
    assert!(RabinIDA::new(255, 1).is_ok());
    assert!(RabinIDA::new(255, 255).is_ok());
    assert!(RabinIDA::new(7, 5).is_ok());
}

#[test]
fn construction_refuses_a_zero_threshold() {
    assert!(matches!(RabinIDA::new(5, 0), Err(IdaError::ConfigurationError)));
    assert!(matches!(RabinIDA::new(0, 0), Err(IdaError::ConfigurationError)));
}

#[test]
fn construction_refuses_a_threshold_above_the_share_count() {
    assert!(matches!(RabinIDA::new(3, 4), Err(IdaError::ConfigurationError)));
    assert!(matches!(RabinIDA::new(0, 1), Err(IdaError::ConfigurationError)));
    assert!(matches!(RabinIDA::new(254, 255), Err(IdaError::ConfigurationError)));
}

#[test]
fn shares_carry_identifier_length_and_body() {
    let shares = scheme(5, 3).share(sample(10));
    assert_eq!(shares.len(), 5);
    for (i, share) in shares.iter().enumerate() {
        assert_eq!(share.id as usize, i + 1);
        assert_eq!(share.length, 10);
        assert_eq!(share.body.len(), 4);
        assert_eq!(share.size(), 10);
    }
}

#[test]
fn body_length_is_the_rounded_up_quotient() {
    for (len, k, expected) in [(0usize, 3u8, 0usize), (1, 3, 1), (3, 3, 1), (4, 3, 2), (6, 3, 2), (7, 3, 3), (16, 100, 1), (1024, 5, 205)] {
        let shares = scheme(k, k).share(sample(len));
        for share in &shares {
            assert_eq!(share.body.len(), expected);
        }
    }
}

#[test]
fn share_bodies_are_polynomial_values() {
    // 1 + 2x + 3x^2 at x = 1, 2, 3, 4
    let shares = scheme(4, 3).share(vec![1, 2, 3]);
    let bodies: Vec<Vec<u8>> = shares.iter().map(|s| s.body.clone()).collect();
    assert_eq!(bodies, vec![vec![0u8], vec![9], vec![8], vec![57]]);
}

#[test]
fn last_chunk_is_padded_with_zeros() {
    // chunks [1, 2, 3] and [4]: the second polynomial is the constant 4
    let shares = scheme(3, 3).share(vec![1, 2, 3, 4]);
    let bodies: Vec<Vec<u8>> = shares.iter().map(|s| s.body.clone()).collect();
    assert_eq!(bodies, vec![vec![0u8, 4], vec![9, 4], vec![8, 4]]);
}

#[test]
fn empty_data_gives_empty_bodies() {
    let ida = scheme(4, 2);
    let shares = ida.share(Vec::new());
    assert_eq!(shares.len(), 4);
    for share in &shares {
        assert_eq!(share.length, 0);
        assert!(share.body.is_empty());
    }
    assert_eq!(ida.reconstruct(shares), Ok(Vec::new()));
}

#[test]
fn threshold_one_replicates_the_data() {
    let data = sample(20);
    let ida = scheme(4, 1);
    let shares = ida.share(data.clone());
    for share in &shares {
        assert_eq!(share.body, data);
    }
    for share in shares {
        assert_eq!(ida.reconstruct(vec![share]), Ok(data.clone()));
    }
}

#[test]
fn sixteen_bytes_from_100_of_255() {
    let data = vec![1u8, 2, 3, 4, 5, 6, 7, 8, 10, 11, 11, 11, 11, 12, 13, 122];
    let n = 255;
    let k = 100;
    let sharer = scheme(n, k);
    let shares = sharer.share(data.clone());
    assert_eq!(shares.len(), 255);
    for share in &shares {
        assert_eq!(share.body.len(), 1);
        assert_eq!(share.length, 16);
    }
    let rec = sharer.reconstruct(shares[1..=k as usize].to_vec()).unwrap();
    assert_eq!(data, rec);
    let rec = sharer.reconstruct(shares[155..].to_vec()).unwrap();
    assert_eq!(data, rec);
    let scattered: Vec<RabinShare> = shares.iter().step_by(2).take(100).cloned().collect();
    assert_eq!(sharer.reconstruct(scattered), Ok(data));
}

#[test]
fn a_kilobyte_from_five_of_seven() {
    let data = vec![3u8; 1024];
    let sharer = scheme(7, 5);
    let shares = sharer.share(data.clone());
    let rec = sharer.reconstruct(shares[1..=5].to_vec()).unwrap();
    assert_eq!(rec.len(), 1024);
    assert_eq!(rec, data);
    let scattered = vec![
        shares[6].clone(),
        shares[0].clone(),
        shares[3].clone(),
        shares[1].clone(),
        shares[5].clone(),
    ];
    assert_eq!(sharer.reconstruct(scattered), Ok(data));
}

#[test]
fn round_trip_for_many_lengths_and_thresholds() {
    for n in [2u8, 3, 5, 9] {
        for k in 1..=n {
            let ida = scheme(n, k);
            for len in [0usize, 1, 2, 3, 8, 17, 64] {
                let data = sample(len);
                let shares = ida.share(data.clone());
                let first: Vec<RabinShare> = shares[..k as usize].to_vec();
                let last: Vec<RabinShare> = shares[(n - k) as usize..].to_vec();
                assert_eq!(ida.reconstruct(first), Ok(data.clone()));
                assert_eq!(ida.reconstruct(last), Ok(data.clone()));
                assert_eq!(ida.reconstruct(shares), Ok(data));
            }
        }
    }
}

#[test]
fn any_subset_of_threshold_size_gives_the_data() {
    let data = sample(23);
    let ida = scheme(6, 3);
    let shares = ida.share(data.clone());
    for a in 0..6 {
        for b in 0..6 {
            for c in 0..6 {
                if a != b && b != c && a != c {
                    let picked = vec![shares[a].clone(), shares[b].clone(), shares[c].clone()];
                    assert_eq!(ida.reconstruct(picked), Ok(data.clone()));
                }
            }
        }
    }
}

#[test]
fn order_of_the_shares_does_not_matter() {
    let data = sample(100);
    let ida = scheme(10, 4);
    let mut shares = ida.share(data.clone());
    let forward = ida.reconstruct(shares.clone());
    shares.reverse();
    let backward = ida.reconstruct(shares.clone());
    shares.rotate_left(3);
    let rotated = ida.reconstruct(shares);
    assert_eq!(forward, Ok(data));
    assert_eq!(backward, forward);
    assert_eq!(rotated, forward);
}

#[test]
fn order_does_not_matter_for_foreign_shares() {
    let ida = scheme(9, 3);
    let a = RabinShare { id: 2, length: 5, body: vec![10, 20] };
    let b = RabinShare { id: 7, length: 5, body: vec![30, 40] };
    let c = RabinShare { id: 9, length: 5, body: vec![50, 60] };
    let first = ida.reconstruct(vec![a.clone(), b.clone(), c.clone()]).unwrap();
    assert_eq!(first.len(), 5);
    assert_eq!(ida.reconstruct(vec![c.clone(), a.clone(), b.clone()]), Ok(first.clone()));
    assert_eq!(ida.reconstruct(vec![b, c, a]), Ok(first));
}

#[test]
fn only_the_first_shares_are_used() {
    let data = sample(9);
    let ida = scheme(5, 2);
    let shares = ida.share(data.clone());
    let mut given = vec![shares[4].clone(), shares[2].clone(), shares[0].clone()];
    given[2].body = vec![0xaa; 5];
    assert_eq!(ida.reconstruct(given), Ok(data));
}

#[test]
fn too_few_shares_are_insufficient() {
    let ida = scheme(5, 3);
    let shares = ida.share(sample(12));
    assert_eq!(ida.reconstruct(Vec::new()), Err(IdaError::InsufficientShares));
    assert_eq!(ida.reconstruct(shares[..1].to_vec()), Err(IdaError::InsufficientShares));
    assert_eq!(ida.reconstruct(shares[..2].to_vec()), Err(IdaError::InsufficientShares));
    assert!(ida.reconstruct(shares[..3].to_vec()).is_ok());
}

#[test]
fn too_few_inconsistent_shares_are_insufficient() {
    let ida = scheme(5, 3);
    let a = RabinShare { id: 0, length: 1, body: vec![] };
    let b = RabinShare { id: 0, length: 2, body: vec![1] };
    assert_eq!(ida.reconstruct(vec![a, b]), Err(IdaError::InsufficientShares));
}

#[test]
fn differing_lengths_are_inconsistent() {
    let ida = scheme(5, 2);
    let mut shares = ida.share(sample(12));
    shares[1].length = 11;
    assert_eq!(ida.reconstruct(shares), Err(IdaError::InconsistentShares));
}

#[test]
fn differing_body_lengths_are_inconsistent() {
    let ida = scheme(5, 2);
    let mut shares = ida.share(sample(12));
    shares[1].body.pop();
    assert_eq!(ida.reconstruct(shares), Err(IdaError::InconsistentShares));
}

#[test]
fn inconsistency_beyond_the_threshold_is_found() {
    let ida = scheme(5, 2);
    let mut shares = ida.share(sample(12));
    shares[4].length = 13;
    assert_eq!(ida.reconstruct(shares), Err(IdaError::InconsistentShares));
}

#[test]
fn identifiers_outside_the_scheme_are_inconsistent() {
    let ida = scheme(5, 2);
    let shares = ida.share(sample(12));
    let mut zero = shares.clone();
    zero[0].id = 0;
    assert_eq!(ida.reconstruct(zero), Err(IdaError::InconsistentShares));
    let mut high = shares;
    high[1].id = 6;
    assert_eq!(ida.reconstruct(high), Err(IdaError::InconsistentShares));
}

#[test]
fn repeated_identifiers_are_singular() {
    let ida = scheme(5, 3);
    let shares = ida.share(sample(12));
    let given = vec![shares[0].clone(), shares[1].clone(), shares[0].clone()];
    assert_eq!(ida.reconstruct(given), Err(IdaError::SingularMatrix));
    let given = vec![shares[2].clone(), shares[2].clone(), shares[2].clone(), shares[1].clone()];
    assert_eq!(ida.reconstruct(given), Err(IdaError::SingularMatrix));
}

#[test]
fn repetition_beyond_the_threshold_is_ignored() {
    let data = sample(12);
    let ida = scheme(5, 3);
    let shares = ida.share(data.clone());
    let given = vec![
        shares[0].clone(),
        shares[1].clone(),
        shares[4].clone(),
        shares[0].clone(),
    ];
    assert_eq!(ida.reconstruct(given), Ok(data));
}

#[test]
fn bodies_shorter_than_the_length_leave_zeros() {
    let ida = scheme(3, 2);
    let a = RabinShare { id: 1, length: 5, body: vec![3] };
    let b = RabinShare { id: 2, length: 5, body: vec![0] };
    // the polynomial through (1, 3) and (2, 0) is 2 + x
    assert_eq!(ida.reconstruct(vec![a, b]), Ok(vec![2, 1, 0, 0, 0]));
}

#[test]
fn bodies_longer_than_the_length_are_cut() {
    let ida = scheme(3, 2);
    let a = RabinShare { id: 1, length: 1, body: vec![3, 9, 9] };
    let b = RabinShare { id: 2, length: 1, body: vec![0, 9, 9] };
    assert_eq!(ida.reconstruct(vec![a, b]), Ok(vec![2]));
}

#[test]
fn all_255_shares_reconstruct() {
    let data = sample(300);
    let ida = scheme(255, 255);
    let shares = ida.share(data.clone());
    assert_eq!(shares[254].id, 255);
    assert_eq!(shares[0].body.len(), 2);
    assert_eq!(ida.reconstruct(shares), Ok(data));
}

#[test]
fn blank_share_has_a_zero_body() {
    let blank = RabinShare::with_size(4);
    assert_eq!(blank.id, 0);
    assert_eq!(blank.length, 0);
    assert_eq!(blank.size(), 0);
    assert_eq!(blank.body, vec![0u8; 4]);
    assert!(RabinShare::with_size(0).body.is_empty());
}

#[test]
fn size_is_the_data_length() {
    let share = RabinShare { id: 3, length: 77, body: vec![1, 2] };
    assert_eq!(share.size(), 77);
}
