use vecnorm::{argmax, batch_top_k_argmax, top_k_argmax, ScoreMatrix, VecNormError};

fn bits(v: &[f32]) -> Vec<u32> {
    v.iter().map(|x| x.to_bits()).collect()
}

fn floats(r: Vec<(usize, u32)>) -> Vec<(usize, f32)> {
    r.into_iter().map(|(i, b)| (i, f32::from_bits(b))).collect()
}

#[test]
fn argmax_picks_largest() {
    let s = bits(&[1.0_f32, 5.0, 3.0, 4.0, 2.0]);
    let (i, v) = argmax(&s).unwrap();
    assert_eq!(i, 1);
    assert!((f32::from_bits(v) - 5.0).abs() < 1e-6);
}

#[test]
fn argmax_ties_pick_lowest_index() {
    let s = bits(&[3.0_f32, 3.0, 3.0]);
    assert_eq!(argmax(&s).unwrap().0, 0);
}

#[test]
fn argmax_empty_rejected() {
    let s: Vec<u32> = bits(&[]);
    assert!(argmax(&s).is_err());
}

#[test]
fn top_k_correct_order() {
    let s = bits(&[1.0, 5.0, 3.0, 4.0, 2.0]);
    let r = floats(top_k_argmax(&s, 3).unwrap());
    assert_eq!(r, vec![(1, 5.0), (3, 4.0), (2, 3.0)]);
}

#[test]
fn top_k_full_length_returns_full_sort() {
    let s = bits(&[1.0, 5.0, 3.0]);
    let r = floats(top_k_argmax(&s, 3).unwrap());
    assert_eq!(r, vec![(1, 5.0), (2, 3.0), (0, 1.0)]);
}

#[test]
fn top_k_ties_broken_by_lower_index() {
    let s = bits(&[1.0, 1.0, 1.0]);
    let r = floats(top_k_argmax(&s, 2).unwrap());
    assert_eq!(r, vec![(0, 1.0), (1, 1.0)]);
}

#[test]
fn top_k_zero_rejected() {
    let s = bits(&[1.0, 2.0]);
    assert!(top_k_argmax(&s, 0).is_err());
}

#[test]
fn top_k_too_large_rejected() {
    let s = bits(&[1.0, 2.0]);
    assert!(top_k_argmax(&s, 3).is_err());
}

#[test]
fn batch_top_k_serial_and_parallel_match() {
    let rows: Vec<Vec<u32>> = (0..10)
        .map(|i| (0..50).map(|j| ((i * 50 + j) as f32).to_bits()).collect())
        .collect();
    let m = ScoreMatrix::new(50, rows).unwrap();
    let s: Vec<Vec<(usize, f32)>> = batch_top_k_argmax(&m, 5, false)
        .unwrap()
        .into_iter()
        .map(floats)
        .collect();
    let p: Vec<Vec<(usize, f32)>> = batch_top_k_argmax(&m, 5, true)
        .unwrap()
        .into_iter()
        .map(floats)
        .collect();
    assert_eq!(s, p);
    assert_eq!(s.len(), 10);
    // First row: top-5 of [0..50) is [49, 48, 47, 46, 45].
    assert_eq!(s[0][0], (49, 49.0));
}

#[test]
fn nan_in_top_k_does_not_panic() {
    let s = bits(&[1.0_f32, f32::NAN, 3.0]);
    // We don't promise NaN handling, but we promise no panic.
    let r = top_k_argmax(&s, 2);
    assert!(r.is_ok());
}

#[test]
fn top_k_nan_ranks_lowest() {
    let s = bits(&[1.0_f32, f32::NAN, 3.0]);
    let r = floats(top_k_argmax(&s, 2).unwrap());
    assert_eq!(r, vec![(2, 3.0), (0, 1.0)]);
    let all = top_k_argmax(&s, 3).unwrap();
    assert_eq!(all[2].0, 1);
    assert!(f32::from_bits(all[2].1).is_nan());
}

#[test]
fn top_k_signed_zeros_tie_by_index() {
    let s = bits(&[0.0_f32, -0.0, -1.0, f32::INFINITY, f32::NEG_INFINITY]);
    let r = top_k_argmax(&s, 5).unwrap();
    let idx: Vec<usize> = r.iter().map(|e| e.0).collect();
    assert_eq!(idx, vec![3, 0, 1, 2, 4]);
    assert_eq!(r[2].1, (-0.0_f32).to_bits());
}

#[test]
fn top_k_error_variants() {
    let s = bits(&[1.0, 2.0]);
    assert!(matches!(top_k_argmax(&s, 0), Err(VecNormError::KZero)));
    assert!(matches!(
        top_k_argmax(&s, 3),
        Err(VecNormError::KTooLarge { k: 3, len: 2 })
    ));
}

#[test]
fn top_k_heap_keeps_best_across_many() {
    let v: Vec<f32> = (0..200).map(|i| ((i * 37) % 101) as f32).collect();
    let r = top_k_argmax(&bits(&v), 4).unwrap();
    let idx: Vec<usize> = r.iter().map(|e| e.0).collect();
    // 100.0 occurs at i = 30 and 131; 99.0 at 60 and 161.
    assert_eq!(idx, vec![30, 131, 60, 161]);
}

#[test]
fn top_k_smaller_k_is_prefix() {
    let s = bits(&[2.0, 7.0, -1.0, 7.0, 0.5, 3.0]);
    let big = top_k_argmax(&s, 5).unwrap();
    for k in 1..5 {
        let small = top_k_argmax(&s, k).unwrap();
        assert_eq!(small[..], big[..k]);
    }
}

#[test]
fn argmax_matches_top_one_without_nan() {
    let s = bits(&[2.0, 7.0, -1.0, 7.0, 0.5]);
    let a = argmax(&s).unwrap();
    let t = top_k_argmax(&s, 1).unwrap();
    assert_eq!(a, t[0]);
    assert_eq!(a.0, 1);
}

#[test]
fn argmax_nan_first_is_kept() {
    let s = bits(&[f32::NAN, 1.0, 2.0]);
    assert_eq!(argmax(&s).unwrap().0, 0);
    let t = top_k_argmax(&s, 1).unwrap();
    assert_eq!(t[0].0, 2);
}

#[test]
fn argmax_skips_later_nan() {
    let s = bits(&[1.0, f32::NAN, 0.5, 4.0, f32::NAN]);
    let (i, v) = argmax(&s).unwrap();
    assert_eq!(i, 3);
    assert_eq!(f32::from_bits(v), 4.0);
}

#[test]
fn argmax_negative_zero_ties_with_zero() {
    let s = bits(&[-0.0, 0.0]);
    assert_eq!(argmax(&s).unwrap().0, 0);
}

#[test]
fn batch_errors_and_empty() {
    let m = ScoreMatrix::new(3, vec![bits(&[1.0, 2.0, 3.0])]).unwrap();
    assert!(matches!(batch_top_k_argmax(&m, 0, true), Err(VecNormError::KZero)));
    assert!(matches!(
        batch_top_k_argmax(&m, 4, false),
        Err(VecNormError::KTooLarge { k: 4, len: 3 })
    ));
    let empty = ScoreMatrix::new(3, vec![]).unwrap();
    assert_eq!(empty.nrows(), 0);
    assert_eq!(empty.ncols(), 3);
    assert!(batch_top_k_argmax(&empty, 2, true).unwrap().is_empty());
    assert!(matches!(
        batch_top_k_argmax(&empty, 4, true),
        Err(VecNormError::KTooLarge { k: 4, len: 3 })
    ));
}

#[test]
fn batch_parallel_rows_are_each_top_k() {
    let rows = vec![bits(&[3.0, 1.0, 2.0]), bits(&[0.0, 9.0, 9.0]), bits(&[-5.0, -4.0, -6.0])];
    let m = ScoreMatrix::new(3, rows).unwrap();
    let p: Vec<Vec<usize>> = batch_top_k_argmax(&m, 2, true)
        .unwrap()
        .iter()
        .map(|r| r.iter().map(|e| e.0).collect())
        .collect();
    assert_eq!(p, vec![vec![0, 2], vec![1, 2], vec![1, 0]]);
}

#[test]
fn score_matrix_rejects_ragged_rows() {
    assert!(ScoreMatrix::new(2, vec![bits(&[1.0, 2.0]), bits(&[1.0])]).is_none());
}
