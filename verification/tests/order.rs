use std::cmp::Ordering;
use vecnorm::{check_matching_dim, ord_float_cmp, score_gt, score_key, VecNormError, NAN_KEY};

#[test]
fn cosine_dim_mismatch() {
    // a = [1, 0], b = [1, 0, 1]
    assert!(check_matching_dim(2, 3, vec![2], vec![3]).is_err());
}

#[test]
fn dot_product_dim_mismatch() {
    // a = [1, 0], b = [1]
    assert!(check_matching_dim(2, 1, vec![2], vec![1]).is_err());
}

#[test]
fn cosine_distances_dim_mismatch() {
    // a: zeros (4, 3), b: zeros (4, 5); the column counts differ.
    assert!(check_matching_dim(3, 5, vec![4, 3], vec![4, 5]).is_err());
}

#[test]
fn dim_check_reports_both_shapes() {
    match check_matching_dim(3, 5, vec![4, 3], vec![4, 5]) {
        Err(VecNormError::DimensionMismatch { a, b }) => {
            assert_eq!(a, vec![4, 3]);
            assert_eq!(b, vec![4, 5]);
        }
        _ => panic!("expected a dimension mismatch"),
    }
    assert!(check_matching_dim(7, 7, vec![7], vec![2, 7]).is_ok());
}

#[test]
fn score_keys_follow_float_order() {
    let vals = [f32::NEG_INFINITY, -3.5, -1.0, -0.0, 0.0, 1e-40, 2.0, f32::INFINITY];
    for w in vals.windows(2) {
        assert!(score_key(w[0].to_bits()) <= score_key(w[1].to_bits()));
    }
    assert_eq!(score_key((-0.0_f32).to_bits()), score_key(0.0_f32.to_bits()));
    assert_eq!(score_key(1.0_f32.to_bits()), 0x3f80_0000);
    assert_eq!(score_key((-1.0_f32).to_bits()), -0x3f80_0000);
    assert_eq!(score_key(f32::NAN.to_bits()), NAN_KEY);
    assert_eq!(score_key((-f32::NAN).to_bits()), NAN_KEY);
    assert!(NAN_KEY < score_key(f32::NEG_INFINITY.to_bits()));
}

#[test]
fn ord_float_cmp_matches_float_cmp_and_puts_nan_lowest() {
    let nan = f32::NAN.to_bits();
    assert_eq!(ord_float_cmp(1.0_f32.to_bits(), 2.0_f32.to_bits()), Ordering::Less);
    assert_eq!(ord_float_cmp(2.0_f32.to_bits(), 1.0_f32.to_bits()), Ordering::Greater);
    assert_eq!(ord_float_cmp((-0.0_f32).to_bits(), 0.0_f32.to_bits()), Ordering::Equal);
    assert_eq!(ord_float_cmp(nan, f32::NEG_INFINITY.to_bits()), Ordering::Less);
    assert_eq!(ord_float_cmp(f32::NEG_INFINITY.to_bits(), nan), Ordering::Greater);
    assert_eq!(ord_float_cmp(nan, (-f32::NAN).to_bits()), Ordering::Equal);
}

#[test]
fn score_gt_is_ieee_greater() {
    let nan = f32::NAN.to_bits();
    assert!(score_gt(2.0_f32.to_bits(), 1.0_f32.to_bits()));
    assert!(!score_gt(1.0_f32.to_bits(), 1.0_f32.to_bits()));
    assert!(!score_gt(0.0_f32.to_bits(), (-0.0_f32).to_bits()));
    assert!(!score_gt(nan, 1.0_f32.to_bits()));
    assert!(!score_gt(1.0_f32.to_bits(), nan));
    assert!(score_gt((-1.0_f32).to_bits(), f32::NEG_INFINITY.to_bits()));
}
