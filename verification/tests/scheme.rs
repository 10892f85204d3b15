use hadamard_sss::error::SchemeError;
use hadamard_sss::hadamard_matrix::HadamardMatrix;
use hadamard_sss::matrix::Matrix;
use hadamard_sss::scheme_impl::{Part, HSS};
use hadamard_sss::scheme_traits::SharingScheme;
use hadamard_sss::HadamardSSS;

const ROW_MASKS: [u32; 7] = [
    0xa54a952a, 0x93264c99, 0xc993264c, 0x70e1c387, 0x2a54a952, 0x1c3870e1, 0x468d1a34,
];

fn matrix(rows: &[&[i32]]) -> Matrix {
    let rows: Vec<Vec<i32>> = rows.iter().map(|r| r.to_vec()).collect();
    Matrix::from_rows(&rows).unwrap()
}

fn order_8() -> Matrix {
    matrix(&[
        &[1, 1, 1, 1, 1, 1, 1, 1],
        &[1, -1, 1, -1, 1, -1, 1, -1],
        &[1, 1, -1, -1, 1, 1, -1, -1],
        &[1, -1, -1, 1, 1, -1, -1, 1],
        &[1, 1, 1, 1, -1, -1, -1, -1],
        &[1, -1, 1, -1, -1, 1, -1, 1],
        &[1, 1, -1, -1, -1, -1, 1, 1],
        &[1, -1, -1, 1, -1, 1, 1, -1],
    ])
}

fn incidence_7() -> Matrix {
    HadamardMatrix::from(&order_8()).unwrap().normalize().get_incidence()
}

fn five_of_seven() -> Vec<Vec<usize>> {
    let mut subsets = Vec::new();
    for pattern in 0u32..128 {
        if pattern.count_ones() == 5 {
            subsets.push((0..7).filter(|i| pattern & (1 << i) != 0).collect());
        }
    }
    subsets
}

#[test]
fn test_reconstruction() {
    let h_mtx = incidence_7();
    let hss = HSS::from(&h_mtx);
    for secret in 0..100 {
        let res = hss.share(secret).unwrap();
        let secret_res = hss.reconstruct(res[0..5].to_vec()).unwrap();
        assert_eq!(secret, secret_res);
    }
}

#[test]
fn test_validate() {
    let h_mtx = incidence_7();
    let hss = HSS::from(&h_mtx);
    for secret in 0..100 {
        let res = hss.share(secret).unwrap();
        let valid = hss.validate(res[0..5].to_vec()).unwrap().is_empty();
        let secret_res = hss.reconstruct(res[0..5].to_vec()).unwrap();
        println!("secret {}, secret_res {}", secret, secret_res);
        assert_eq!(valid, (secret == secret_res));
    }
    for secret in 0..100 {
        let mut res = hss.share(secret).unwrap();
        res[0] = Part::from(res[0].number(), res[0].data() ^ 43);
        let valid = hss.validate(res[0..5].to_vec()).unwrap().is_empty();
        let secret_res = hss.reconstruct(res[0..5].to_vec()).unwrap();
        assert_eq!(valid, (secret == secret_res));
    }
}

#[test]
fn test_secret_reconstruction() {
    let h_mtx = order_8();
    let hsss = HadamardSSS::from(&h_mtx).unwrap();
    for secret in 0..100 {
        let res = hsss.share(secret).unwrap();
        let secret_res = hsss.reconstruct(res[0..5].to_vec()).unwrap();
        assert_eq!(secret, secret_res);
    }
}

#[test]
fn test_hsss_validate() {
    let h_mtx = order_8();
    let hsss = HadamardSSS::from(&h_mtx).unwrap();
    for secret in 0..100 {
        let res = hsss.share(secret).unwrap();
        let valid = hsss.validate(res[0..5].to_vec()).unwrap().is_empty();
        let secret_res = hsss.reconstruct(res[0..5].to_vec()).unwrap();
        assert_eq!(valid, (secret == secret_res));
    }
    for secret in 0..100 {
        let mut res = hsss.share(secret).unwrap();
        res[0] = Part::from(res[0].number(), res[0].data() ^ 43);
        let valid = hsss.validate(res[0..5].to_vec()).unwrap().is_empty();
        let secret_res = hsss.reconstruct(res[0..5].to_vec()).unwrap();
        assert_eq!(valid, (secret == secret_res));
    }
}

#[test]
fn part_keeps_number_and_data() {
    let part = Part::from(3, 0xdead_beef);
    assert_eq!(part.number(), 3);
    assert_eq!(part.data(), 0xdead_beef);
    let copy = part;
    assert_eq!(copy.number(), part.number());
    assert_eq!(copy.data(), part.data());
}

#[test]
fn threshold_of_order_eight_is_five() {
    assert_eq!(HadamardSSS::get_threshold(&incidence_7()), 5);
    assert_eq!(HadamardSSS::from(&order_8()).unwrap().threshold(), 5);
}

#[test]
fn threshold_follows_the_formula() {
    let one = HadamardMatrix::from(&matrix(&[&[1]])).unwrap().get_incidence();
    assert_eq!(HadamardSSS::get_threshold(&one), 1);
    let two = HadamardMatrix::from(&matrix(&[&[1, 1], &[1, -1]])).unwrap().get_incidence();
    assert_eq!(HadamardSSS::get_threshold(&two), 2);
    let four = matrix(&[&[1, 1, 1, 1], &[1, -1, 1, -1], &[1, 1, -1, -1], &[1, -1, -1, 1]]);
    assert_eq!(HadamardSSS::from(&four).unwrap().threshold(), 3);
    assert_eq!(HadamardSSS::get_threshold(&matrix(&[&[0, 0], &[0, 0]])), 2);
}

#[test]
fn mtx_len_counts_the_entries() {
    assert_eq!(HSS::from(&incidence_7()).mtx_len(), 49);
    let none: Vec<Vec<i32>> = Vec::new();
    assert_eq!(HSS::from(&Matrix::from_rows(&none).unwrap()).mtx_len(), 0);
}

#[test]
fn scheme_refuses_what_is_not_hadamard() {
    assert_eq!(
        HadamardSSS::from(&matrix(&[&[1, 1], &[1, 1]])).err(),
        Some(SchemeError::InvalidMatrix)
    );
    assert_eq!(HadamardSSS::from(&matrix(&[&[1, 2], &[3, 4]])).err(), Some(SchemeError::InvalidMatrix));
    assert_eq!(HadamardSSS::from(&matrix(&[&[1, 1, 1]])).err(), Some(SchemeError::InvalidMatrix));
}

#[test]
fn scheme_normalizes_before_it_derives() {
    let scrambled = matrix(&[&[-1, 1, -1, -1], &[1, 1, 1, -1], &[-1, 1, 1, 1], &[1, 1, -1, 1]]);
    let scheme = HadamardSSS::from(&scrambled).unwrap();
    let shares = scheme.share(u32::MAX).unwrap();
    assert_eq!(shares.len(), 3);
    // The incidence matrix is [[0, 1, 0], [1, 0, 0], [0, 0, 1]].
    let masks: [u32; 3] = [0x92492492, 0x49249249, 0x24924924];
    for (i, share) in shares.iter().enumerate() {
        assert_eq!(share.number(), i);
        assert_eq!(share.data() & masks[i], masks[i]);
    }
    assert_eq!(scheme.reconstruct(shares).unwrap(), u32::MAX);
}

#[test]
fn share_row_takes_secret_and_noise_by_the_row() {
    let hss = HSS::from(&incidence_7());
    for row in 0..7 {
        let all_secret = hss.share_row(row, u32::MAX, 0).unwrap();
        assert_eq!(all_secret.number(), row);
        assert_eq!(all_secret.data(), ROW_MASKS[row]);
        let all_noise = hss.share_row(row, 0, u32::MAX).unwrap();
        assert_eq!(all_noise.data(), !ROW_MASKS[row]);
        let mixed = hss.share_row(row, 0x1234_5678, 0x9abc_def0).unwrap();
        assert_eq!(
            mixed.data(),
            (0x1234_5678 & ROW_MASKS[row]) | (0x9abc_def0 & !ROW_MASKS[row])
        );
    }
}

#[test]
fn share_row_refuses_an_unknown_row() {
    let hss = HSS::from(&incidence_7());
    assert_eq!(hss.share_row(7, 1, 0).err(), Some(SchemeError::InvalidShare));
    assert_eq!(hss.share_row(usize::MAX, 1, 0).err(), Some(SchemeError::InvalidShare));
}

#[test]
fn share_gives_one_share_for_each_row() {
    let hss = HSS::from(&incidence_7());
    for secret in [0u32, 1, 43, 0x8000_0000, 0xdead_beef, u32::MAX] {
        let shares = hss.share(secret).unwrap();
        assert_eq!(shares.len(), 7);
        for (i, share) in shares.iter().enumerate() {
            assert_eq!(share.number(), i);
            assert_eq!(share.data() & ROW_MASKS[i], secret & ROW_MASKS[i]);
        }
    }
}

#[test]
fn share_masks_with_changing_noise() {
    let hss = HSS::from(&incidence_7());
    let mut seen_set = 0u32;
    let mut seen_clear = 0u32;
    for _ in 0..200 {
        let shares = hss.share(0).unwrap();
        seen_set |= shares[0].data();
        seen_clear |= !shares[0].data();
    }
    assert_eq!(seen_set, !ROW_MASKS[0]);
    assert_eq!(seen_clear, u32::MAX);
}

#[test]
fn any_five_of_seven_reconstruct() {
    let scheme = HadamardSSS::from(&order_8()).unwrap();
    let subsets = five_of_seven();
    assert_eq!(subsets.len(), 21);
    let mut secrets: Vec<u32> = (0..100).collect();
    secrets.extend([0x8000_0000, 0xdead_beef, 0x7fff_ffff, u32::MAX]);
    for secret in secrets {
        let shares = scheme.share(secret).unwrap();
        for subset in subsets.iter() {
            let chosen: Vec<Part> = subset.iter().map(|i| shares[*i]).collect();
            assert_eq!(scheme.reconstruct(chosen.clone()).unwrap(), secret);
            assert_eq!(scheme.validate(chosen).unwrap(), Vec::<usize>::new());
            let backwards: Vec<Part> = subset.iter().rev().map(|i| shares[*i]).collect();
            assert_eq!(scheme.reconstruct(backwards).unwrap(), secret);
        }
        assert_eq!(scheme.reconstruct(shares.clone()).unwrap(), secret);
        assert!(scheme.is_valid(shares));
    }
}

#[test]
fn all_three_of_order_four_reconstruct() {
    let four = matrix(&[&[1, 1, 1, 1], &[1, -1, 1, -1], &[1, 1, -1, -1], &[1, -1, -1, 1]]);
    let scheme = HadamardSSS::from(&four).unwrap();
    for secret in [0u32, 5, 0xffff_0000, u32::MAX] {
        let shares = scheme.share(secret).unwrap();
        assert_eq!(shares.len(), 3);
        assert_eq!(scheme.reconstruct(shares).unwrap(), secret);
    }
}

#[test]
fn reconstruct_below_threshold_is_refused() {
    let scheme = HadamardSSS::from(&order_8()).unwrap();
    let shares = scheme.share(77).unwrap();
    assert_eq!(scheme.reconstruct(shares[0..4].to_vec()).err(), Some(SchemeError::BelowThreshold));
    assert_eq!(scheme.reconstruct(Vec::new()).err(), Some(SchemeError::BelowThreshold));
    assert!(scheme.reconstruct(shares[0..5].to_vec()).is_ok());
}

#[test]
fn reconstruct_below_threshold_comes_before_the_row_check() {
    let scheme = HadamardSSS::from(&order_8()).unwrap();
    let bad = vec![Part::from(9, 0)];
    assert_eq!(scheme.reconstruct(bad).err(), Some(SchemeError::BelowThreshold));
}

#[test]
fn unknown_row_is_refused() {
    let scheme = HadamardSSS::from(&order_8()).unwrap();
    let mut shares = scheme.share(77).unwrap();
    shares[6] = Part::from(7, shares[6].data());
    assert_eq!(scheme.reconstruct(shares.clone()).err(), Some(SchemeError::InvalidShare));
    assert_eq!(scheme.validate(shares.clone()).err(), Some(SchemeError::InvalidShare));
    assert!(!scheme.is_valid(shares.clone()));
    let hss = HSS::from(&incidence_7());
    assert_eq!(hss.reconstruct(shares.clone()).err(), Some(SchemeError::InvalidShare));
    assert_eq!(hss.validate(shares).err(), Some(SchemeError::InvalidShare));
    assert_eq!(hss.reconstruct(vec![Part::from(usize::MAX, 0)]).err(), Some(SchemeError::InvalidShare));
}

#[test]
fn engine_reconstructs_without_a_threshold() {
    let hss = HSS::from(&incidence_7());
    assert_eq!(hss.reconstruct(Vec::new()).unwrap(), 0);
    let one = hss.share_row(0, u32::MAX, 0).unwrap();
    assert_eq!(hss.reconstruct(vec![one]).unwrap(), ROW_MASKS[0]);
    let noisy = Part::from(0, u32::MAX);
    assert_eq!(hss.reconstruct(vec![noisy]).unwrap(), ROW_MASKS[0]);
    let two = vec![Part::from(0, 0x0000_ffff), Part::from(3, 0xffff_0000)];
    assert_eq!(
        hss.reconstruct(two).unwrap(),
        (0x0000_ffff & ROW_MASKS[0]) | (0xffff_0000 & ROW_MASKS[3])
    );
}

#[test]
fn order_one_has_no_shares() {
    let scheme = HadamardSSS::from(&matrix(&[&[1]])).unwrap();
    assert_eq!(scheme.threshold(), 1);
    assert_eq!(scheme.share(5).unwrap().len(), 0);
    assert_eq!(scheme.reconstruct(Vec::new()).err(), Some(SchemeError::BelowThreshold));
    assert_eq!(scheme.reconstruct(vec![Part::from(0, 5)]).err(), Some(SchemeError::InvalidShare));
    assert_eq!(scheme.validate(Vec::new()).unwrap(), Vec::<usize>::new());
    assert!(scheme.is_valid(Vec::new()));
}

#[test]
fn order_two_has_one_share_that_carries_nothing() {
    let scheme = HadamardSSS::from(&matrix(&[&[1, 1], &[1, -1]])).unwrap();
    assert_eq!(scheme.threshold(), 2);
    let shares = scheme.share(5).unwrap();
    assert_eq!(shares.len(), 1);
    assert_eq!(shares[0].number(), 0);
    assert_eq!(scheme.reconstruct(shares.clone()).err(), Some(SchemeError::BelowThreshold));
    let twice = vec![shares[0], shares[0]];
    assert_eq!(scheme.reconstruct(twice).unwrap(), 0);
}

#[test]
fn validate_is_empty_on_agreeing_shares() {
    let hss = HSS::from(&incidence_7());
    assert_eq!(hss.validate(Vec::new()).unwrap(), Vec::<usize>::new());
    let shares: Vec<Part> =
        (0..7).map(|row| hss.share_row(row, 0xcafe_f00d, 0x0123_4567).unwrap()).collect();
    assert_eq!(hss.validate(shares).unwrap(), Vec::<usize>::new());
}

#[test]
fn validate_flags_the_smaller_side() {
    let hss = HSS::from(&incidence_7());
    // Rows 0, 1 and 2 carry bit 3.
    let two_ones = vec![Part::from(0, 8), Part::from(1, 8), Part::from(2, 0)];
    assert_eq!(hss.validate(two_ones).unwrap(), vec![2]);
    let two_zeros = vec![Part::from(0, 0), Part::from(1, 8), Part::from(2, 0)];
    assert_eq!(hss.validate(two_zeros).unwrap(), vec![1]);
}

#[test]
fn validate_flags_the_zero_side_on_a_tie() {
    let hss = HSS::from(&incidence_7());
    let tie = vec![Part::from(0, 8), Part::from(1, 0)];
    assert_eq!(hss.validate(tie).unwrap(), vec![1]);
    let tie_swapped = vec![Part::from(1, 8), Part::from(0, 0)];
    assert_eq!(hss.validate(tie_swapped).unwrap(), vec![0]);
}

#[test]
fn validate_lists_rows_in_ascending_order_once() {
    let hss = HSS::from(&incidence_7());
    // Bit 0 is carried by rows 1, 3 and 5; bit 3 by rows 0, 1 and 2; bit 7 by rows 1, 3 and 5.
    let shares = vec![
        Part::from(5, 0x81),
        Part::from(3, 0x00),
        Part::from(1, 0x00),
        Part::from(2, 0x08),
        Part::from(0, 0x00),
    ];
    assert_eq!(hss.validate(shares).unwrap(), vec![2, 5]);
}

#[test]
fn validate_ignores_bits_that_a_row_does_not_carry() {
    let hss = HSS::from(&incidence_7());
    let shares: Vec<Part> = (0..7)
        .map(|row| Part::from(row, (0x5555_aaaa & ROW_MASKS[row]) | (0xffff_ffff & !ROW_MASKS[row])))
        .collect();
    assert_eq!(hss.validate(shares.clone()).unwrap(), Vec::<usize>::new());
    assert_eq!(hss.reconstruct(shares).unwrap(), 0x5555_aaaa);
}

#[test]
fn flipping_a_carried_bit_is_noticed() {
    let scheme = HadamardSSS::from(&order_8()).unwrap();
    for secret in [0u32, 43, 0xdead_beef, u32::MAX] {
        let shares = scheme.share(secret).unwrap();
        assert!(scheme.is_valid(shares.clone()));
        for row in 0..7 {
            for p in 0..32 {
                let mut changed = shares.clone();
                changed[row] = Part::from(row, shares[row].data() ^ (1 << p));
                let suspects = scheme.validate(changed.clone()).unwrap();
                if ROW_MASKS[row] & (1 << p) != 0 {
                    assert_eq!(suspects, vec![row]);
                    assert!(!scheme.is_valid(changed.clone()));
                    let rebuilt = scheme.reconstruct(changed).unwrap();
                    assert_eq!(rebuilt, secret | (1 << p));
                } else {
                    assert_eq!(suspects, Vec::<usize>::new());
                    assert_eq!(scheme.reconstruct(changed).unwrap(), secret);
                }
            }
        }
    }
}

#[test]
fn is_valid_agrees_with_validate() {
    let scheme = HadamardSSS::from(&order_8()).unwrap();
    let good = vec![Part::from(0, 8), Part::from(1, 8)];
    assert!(scheme.is_valid(good));
    let bad = vec![Part::from(0, 8), Part::from(1, 0)];
    assert!(!scheme.is_valid(bad));
}

#[test]
fn errors_describe_themselves() {
    assert_eq!(SchemeError::InvalidMatrix.message(), "something wrong with that matrix");
    assert_eq!(SchemeError::BelowThreshold.message(), "less than threshold parties");
    assert_eq!(SchemeError::InvalidShare.message(), "share of an unknown party");
    assert_ne!(SchemeError::InvalidMatrix, SchemeError::InvalidShare);
}
