use packed_sparse::{PackedError, PackedVec};

fn sample_x() -> Vec<i64> {
    vec![
        0, 0, 0, 0, 0, //
        0, 1, 0, 0, 2, //
        0, 0, 3, 0, 0, //
        0, 0, 0, 1, 0,
    ]
}

fn sample_y() -> Vec<i64> {
    vec![
        0, 1, 0, 0, 0, //
        0, 1, 0, 7, 2, //
        0, 0, 2, 0, 0, //
        0, 1, 0, 0, 0,
    ]
}

#[test]
fn test_packed_vector() {
    let x = sample_x();

    let mut packed_x = PackedVec::gather(&x);
    assert_eq!(packed_x.full_length(), x.len());
    assert_eq!(packed_x.data(), [1, 2, 3, 1]);
    assert_eq!(packed_x.index(), [6, 9, 12, 18]);
    assert!(!packed_x.is_empty());
    assert_eq!(packed_x.len(), 4);

    let y = sample_y();

    let packed_y = PackedVec::gather(&y);

    let inner_product = packed_x.clone().dot(&packed_y.clone());
    assert_eq!(inner_product, Ok(11));

    assert_eq!(packed_x.mul_add(&packed_y, 32), Ok(()));
    // The merge keeps the positions ascending: 1, 6, 8, 9, 12, 16, 18.
    assert_eq!(
        packed_x.data(),
        [
            1 * 32,
            1 + 1 * 32,
            7 * 32,
            2 + 2 * 32,
            3 + 2 * 32,
            1 * 32,
            1,
        ]
    );

    let scatter_back = packed_y.scatter();
    assert_eq!(y, scatter_back);
}

#[test]
fn gather_lists_nonzero_positions_of_y() {
    let p = PackedVec::gather(&sample_y());
    assert_eq!(p.index(), [1, 6, 8, 9, 12, 16]);
    assert_eq!(p.data(), [1, 1, 7, 2, 2, 1]);
    assert_eq!(p.full_length(), 20);
}

#[test]
fn mul_add_merges_positions_in_order() {
    let mut px = PackedVec::gather(&sample_x());
    let py = PackedVec::gather(&sample_y());
    px.mul_add(&py, 32).unwrap();
    assert_eq!(px.index(), [1, 6, 8, 9, 12, 16, 18]);
    assert_eq!(px.data(), [32, 33, 224, 66, 67, 32, 1]);
    assert_eq!(px.full_length(), 20);
}

#[test]
fn round_trip_gives_the_array_back() {
    for v in [
        sample_x(),
        sample_y(),
        vec![],
        vec![0, 0, 0],
        vec![5, -3, 0, i64::MAX, i64::MIN],
    ] {
        assert_eq!(PackedVec::gather(&v).scatter(), v);
    }
}

#[test]
fn gather_counts_nonzero_entries() {
    let v = vec![0, 4, 0, -1, 9, 0];
    let p = PackedVec::gather(&v);
    assert_eq!(p.len(), 3);
    assert!(!p.is_empty());
}

#[test]
fn gather_of_empty_array_is_empty() {
    let p = PackedVec::gather(&[]);
    assert_eq!(p.len(), 0);
    assert!(p.is_empty());
    assert_eq!(p.full_length(), 0);
    assert_eq!(p.scatter(), Vec::<i64>::new());
}

#[test]
fn gather_of_zero_array_keeps_its_length() {
    let p = PackedVec::gather(&[0, 0, 0, 0]);
    assert!(p.is_empty());
    assert_eq!(p.full_length(), 4);
    assert_eq!(p.scatter(), vec![0, 0, 0, 0]);
}

#[test]
fn new_and_default_are_empty() {
    let a = PackedVec::new();
    let b = PackedVec::default();
    assert!(a.is_empty() && b.is_empty());
    assert_eq!(a.full_length(), 0);
    assert_eq!(b.full_length(), 0);
}

#[test]
fn density_advisory_threshold() {
    assert!(!PackedVec::gather(&sample_x()).is_dense());
    assert!(PackedVec::gather(&[1, 0, 2, 0]).is_dense());
    assert!(!PackedVec::gather(&[1, 0, 0, 0]).is_dense());
    assert!(PackedVec::gather(&[]).is_dense());
}

#[test]
fn accumulate_matches_elementwise_formula() {
    let a = vec![3, 0, -2, 0, 0, 8];
    let b = vec![0, 5, 2, 0, -1, 1];
    let alpha = -3;
    let mut pa = PackedVec::gather(&a);
    let pb = PackedVec::gather(&b);
    pa.mul_add(&pb, alpha).unwrap();
    let expected: Vec<i64> = a.iter().zip(&b).map(|(x, y)| x + alpha * y).collect();
    assert_eq!(pa.scatter(), expected);
    assert_eq!(pa.index(), [0, 1, 2, 4, 5]);
}

#[test]
fn accumulate_may_store_cancelled_entries() {
    let mut pa = PackedVec::gather(&[2, 0, 1]);
    let pb = PackedVec::gather(&[1, 0, 0]);
    pa.mul_add(&pb, -2).unwrap();
    assert_eq!(pa.index(), [0, 2]);
    assert_eq!(pa.data(), [0, 1]);
    assert_eq!(pa.scatter(), vec![0, 0, 1]);
}

#[test]
fn dot_matches_elementwise_sum() {
    let a = vec![3, 0, -2, 0, 0, 8];
    let b = vec![0, 5, 2, 0, -1, 1];
    let pa = PackedVec::gather(&a);
    let pb = PackedVec::gather(&b);
    assert_eq!(pa.dot(&pb), Ok(-4 + 8));
    assert_eq!(pb.dot(&pa), Ok(4));
}

#[test]
fn dot_without_common_positions_is_zero() {
    let pa = PackedVec::gather(&[1, 0, 2, 0]);
    let pb = PackedVec::gather(&[0, 3, 0, 4]);
    assert_eq!(pa.dot(&pb), Ok(0));
    let e = PackedVec::gather(&[]);
    assert_eq!(e.dot(&PackedVec::new()), Ok(0));
}

#[test]
fn zero_alpha_leaves_the_array_unchanged() {
    let mut px = PackedVec::gather(&sample_x());
    let py = PackedVec::gather(&sample_y());
    px.mul_add(&py, 0).unwrap();
    assert_eq!(px.scatter(), sample_x());
    assert_eq!(px.index(), [1, 6, 8, 9, 12, 16, 18]);
    assert_eq!(px.data(), [0, 1, 0, 2, 3, 0, 1]);
}

#[test]
fn mul_add_refuses_different_lengths() {
    let mut pa = PackedVec::gather(&[1, 2, 3]);
    let pb = PackedVec::gather(&[1, 2]);
    assert_eq!(pa.mul_add(&pb, 1), Err(PackedError::LengthMismatch));
    assert_eq!(pa.scatter(), vec![1, 2, 3]);
}

#[test]
fn dot_refuses_different_lengths() {
    let pa = PackedVec::gather(&[1, 2, 3]);
    let pb = PackedVec::gather(&[1, 2]);
    assert_eq!(pa.dot(&pb), Err(PackedError::LengthMismatch));
}

#[test]
fn mul_add_reports_overflow_and_keeps_the_vector() {
    let mut pa = PackedVec::gather(&[i64::MAX, 0, 1]);
    let pb = PackedVec::gather(&[1, 0, 0]);
    assert_eq!(pa.mul_add(&pb, 1), Err(PackedError::Overflow));
    assert_eq!(pa.scatter(), vec![i64::MAX, 0, 1]);
    assert_eq!(pa.index(), [0, 2]);

    let pc = PackedVec::gather(&[0, i64::MAX, 0]);
    assert_eq!(pa.mul_add(&pc, 2), Err(PackedError::Overflow));
    assert_eq!(pa.scatter(), vec![i64::MAX, 0, 1]);
}

#[test]
fn dot_reports_overflow_of_a_partial_sum() {
    let pa = PackedVec::gather(&[i64::MAX, 1]);
    let pb = PackedVec::gather(&[2, 1]);
    assert_eq!(pa.dot(&pb), Err(PackedError::Overflow));
    let pc = PackedVec::gather(&[i64::MAX, -1]);
    let pd = PackedVec::gather(&[1, 1]);
    assert_eq!(pc.dot(&pd), Ok(i64::MAX - 1));
}
