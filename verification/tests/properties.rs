use rustgpt::bands::{assemble_bands, plan_parallel};
use rustgpt::matmul::{matmul, matmul_blocked, matmul_naive, matmul_row_band};
use rustgpt::order::scalar_max;
use rustgpt::shape::shape_numel;
use rustgpt::tensor::{ShapeError, Tensor, broadcast_shapes, contiguous_strides, unravel_index};

/// A matrix of small integers, different in every entry.
fn int_matrix(m: usize, n: usize, seed: i64) -> Tensor<i64> {
    let data: Vec<i64> = (0..(m * n) as i64).map(|i| (i * 7 + seed) % 11 - 5).collect();
    Tensor::from_vec(data, &[m, n])
}

/// The split product with its bands run one after another.
fn split_product(a: &Tensor<i64>, b: &Tensor<i64>, block: usize, threads: usize) -> Tensor<i64> {
    let plan = plan_parallel(a, b, block, threads).expect("plan");
    let mut parts: Vec<Vec<i64>> = Vec::new();
    for &(start, end) in &plan.bands {
        parts.push(matmul_row_band(&plan.a_data, &plan.b_data, plan.k, plan.n, plan.block, start, end));
    }
    assemble_bands(&plan, parts)
}

#[test]
fn exact_products_agree_on_integers() {
    // With exact arithmetic every product kernel gives the same matrix.
    for &(m, k, n) in &[(1usize, 1usize, 1usize), (5, 7, 3), (17, 9, 13), (33, 1, 4)] {
        let a = int_matrix(m, k, 3);
        let b = int_matrix(k, n, 8);
        let want = matmul_naive(&a, &b).unwrap().to_vec();
        for &block in &[1usize, 2, 5, 64] {
            assert_eq!(matmul_blocked(&a, &b, block).unwrap().to_vec(), want);
            for &threads in &[1usize, 2, 3, 16] {
                assert_eq!(split_product(&a, &b, block, threads).to_vec(), want);
            }
        }
        assert_eq!(matmul(&a, &b).unwrap().to_vec(), want);
    }
}

#[test]
fn integer_product_by_hand() {
    let a = Tensor::from_vec(vec![1i64, 2, 3, 4, 5, 6], &[2, 3]);
    let b = Tensor::from_vec(vec![7i64, 8, 9, 10, 11, 12], &[3, 2]);
    assert_eq!(matmul_naive(&a, &b).unwrap().to_vec(), vec![58, 64, 139, 154]);
    // A strided operand reads through its strides.
    let at = Tensor::from_vec(vec![1i64, 4, 2, 5, 3, 6], &[3, 2]).transpose(0, 1).unwrap();
    assert!(!at.is_contiguous());
    assert_eq!(matmul_blocked(&at, &b, 2).unwrap().to_vec(), vec![58, 64, 139, 154]);
    assert_eq!(split_product(&at, &b, 1, 2).to_vec(), vec![58, 64, 139, 154]);
}

#[test]
fn batched_product_picks_each_batch() {
    // Batch 0 is the identity, batch 1 is twice the identity.
    let a = Tensor::from_vec(vec![1i64, 0, 0, 1, 2, 0, 0, 2], &[2, 2, 2]);
    let b = Tensor::from_vec(vec![1i64, 2, 3, 4], &[2, 2]);
    let c = matmul(&a, &b).unwrap();
    assert_eq!(c.shape(), &[2, 2, 2]);
    assert_eq!(c.to_vec(), vec![1, 2, 3, 4, 2, 4, 6, 8]);
    // An inner dimension of 0 gives zeros.
    let p: Tensor<i64> = Tensor::zeros(&[2, 0]);
    let q: Tensor<i64> = Tensor::zeros(&[0, 3]);
    assert_eq!(matmul(&p, &q).unwrap().to_vec(), vec![0; 6]);
    assert_eq!(matmul_naive(&p, &q).unwrap().to_vec(), vec![0; 6]);
}

#[test]
fn keepdim_changes_only_the_shape() {
    let t = Tensor::from_vec((0..24).map(|i| (i * 5 % 7) as i64 - 3).collect(), &[2, 3, 4]);
    for axis in 0..3 {
        let kept = t.sum_axis(axis, true).unwrap();
        let dropped = t.sum_axis(axis, false).unwrap();
        assert_eq!(kept.to_vec(), dropped.to_vec());
        assert_eq!(kept.shape()[axis], 1);
        assert_eq!(kept.shape().len(), 3);
        assert_eq!(dropped.shape().len(), 2);
        let mk = t.max_axis(axis, true).unwrap();
        let md = t.max_axis(axis, false).unwrap();
        assert_eq!(mk.to_vec(), md.to_vec());
    }
    assert_eq!(t.sum_axis(2, false).unwrap().to_vec(), vec![-3, 0, 3, -1, 2, -2]);
    assert_eq!(t.max_axis(2, false).unwrap().to_vec(), vec![2, 3, 3, 2, 3, 2]);
}

#[test]
fn every_error_variant() {
    let t = Tensor::from_vec((0..6).map(|i| i as i64).collect(), &[2, 3]);

    // NotContiguous: a reshape of a strided view.
    let tt = t.transpose(0, 1).unwrap();
    assert!(matches!(tt.reshape(&[6]), Err(ShapeError::NotContiguous)));

    // BadRank carries the rank that came and the rank that was wanted.
    assert!(matches!(t.permute(&[0]), Err(ShapeError::BadRank { got: 1, want: 2 })));
    let v: Tensor<i64> = Tensor::zeros(&[3]);
    assert!(matches!(matmul_naive(&v, &t), Err(ShapeError::BadRank { got: 1, want: 2 })));
    assert!(matches!(matmul_naive(&t, &v), Err(ShapeError::BadRank { got: 1, want: 2 })));
    assert!(matches!(matmul(&v, &t), Err(ShapeError::BadRank { got: 1, want: 2 })));

    // SizeMismatch: element counts, broadcasting, matrix dims, a tile of 0.
    assert!(matches!(t.reshape(&[4]), Err(ShapeError::SizeMismatch)));
    assert!(matches!(t.broadcast_to(&[3]), Err(ShapeError::SizeMismatch)));
    assert!(matches!(broadcast_shapes(&[2], &[3]), Err(ShapeError::SizeMismatch)));
    assert!(matches!(matmul_naive(&t, &t), Err(ShapeError::SizeMismatch)));
    let sq = Tensor::from_vec(vec![1i64, 2, 3, 4], &[2, 2]);
    assert!(matches!(matmul_blocked(&sq, &sq, 0), Err(ShapeError::SizeMismatch)));
    assert!(matches!(plan_parallel(&sq, &sq, 0, 2), Err(ShapeError::SizeMismatch)));
    assert!(matches!(plan_parallel(&sq, &sq, 4, 0), Err(ShapeError::SizeMismatch)));

    // OutOfBounds: an axis or a range outside the shape.
    assert!(matches!(t.transpose(0, 2), Err(ShapeError::OutOfBounds)));
    assert!(matches!(t.slice(2, 0, 1), Err(ShapeError::OutOfBounds)));
    assert!(matches!(t.slice(1, 2, 4), Err(ShapeError::OutOfBounds)));
    assert!(matches!(t.sum_axis(2, true), Err(ShapeError::OutOfBounds)));
    assert!(matches!(t.max_axis(5, false), Err(ShapeError::OutOfBounds)));

    // InvalidPermutation: a repeated or out-of-range axis.
    assert!(matches!(t.permute(&[1, 1]), Err(ShapeError::InvalidPermutation)));
    assert!(matches!(t.permute(&[0, 2]), Err(ShapeError::InvalidPermutation)));
}

#[test]
fn unravel_is_row_major_counting() {
    assert_eq!(unravel_index(0, &[2, 3, 4]), vec![0, 0, 0]);
    assert_eq!(unravel_index(23, &[2, 3, 4]), vec![1, 2, 3]);
    assert_eq!(unravel_index(14, &[2, 3, 4]), vec![1, 0, 2]);
    assert_eq!(unravel_index(0, &[]), Vec::<usize>::new());
    // Unravel then ravel with the row-major strides gives the position back.
    let shape = [3usize, 1, 5, 2];
    let strides = contiguous_strides(&shape);
    for flat in 0..30 {
        let idx = unravel_index(flat, &shape);
        let back: usize = idx.iter().zip(strides.iter()).map(|(i, s)| i * s).sum();
        assert_eq!(back, flat);
    }
}

#[test]
fn bands_split_the_rows() {
    let a = Tensor::from_vec((0..60).map(|i| i as i64).collect(), &[10, 6]);
    let b: Tensor<i64> = Tensor::zeros(&[6, 9]);

    // ceil(10 / 4) = 3 rows per band; the last band is short.
    let p = plan_parallel(&a, &b, 8, 4).unwrap();
    assert_eq!(p.bands, vec![(0, 3), (3, 6), (6, 9), (9, 10)]);
    assert_eq!((p.m, p.k, p.n, p.block), (10, 6, 9, 8));
    assert_eq!(p.a_data, a.to_vec());

    assert_eq!(plan_parallel(&a, &b, 8, 1).unwrap().bands, vec![(0, 10)]);
    // More workers than rows: one row each.
    let many = plan_parallel(&a, &b, 8, 16).unwrap().bands;
    assert_eq!(many.len(), 10);
    assert!(many.iter().enumerate().all(|(i, &(s, e))| s == i && e == i + 1));

    // 97 rows among 7 workers: ceil = 14, so 7 bands, the last of 13 rows.
    let tall: Tensor<i64> = Tensor::zeros(&[97, 5]);
    let w: Tensor<i64> = Tensor::zeros(&[5, 11]);
    let bands = plan_parallel(&tall, &w, 16, 7).unwrap().bands;
    assert_eq!(bands.len(), 7);
    assert_eq!(bands[0], (0, 14));
    assert_eq!(bands[6], (84, 97));

    // A strided operand is handed over as its logical values.
    let at = a.transpose(0, 1).unwrap();
    let c: Tensor<i64> = Tensor::zeros(&[10, 2]);
    let ps = plan_parallel(&at, &c, 4, 2).unwrap();
    assert_eq!(ps.a_data, at.to_vec());
}

#[test]
fn one_band_of_the_product() {
    let a = vec![1i64, 2, 3, 4, 5, 6];
    let b = vec![7i64, 8, 9, 10, 11, 12];
    // Row 1 of [[1,2,3],[4,5,6]] times [[7,8],[9,10],[11,12]].
    assert_eq!(matmul_row_band(&a, &b, 3, 2, 2, 1, 2), vec![139, 154]);
    assert_eq!(matmul_row_band(&a, &b, 3, 2, 1, 0, 2), vec![58, 64, 139, 154]);
    assert_eq!(matmul_row_band(&a, &b, 3, 2, 7, 1, 1), Vec::<i64>::new());
}

#[test]
fn joined_bands_make_the_matrix() {
    let a: Tensor<i64> = Tensor::zeros(&[3, 2]);
    let b: Tensor<i64> = Tensor::zeros(&[2, 2]);
    let plan = plan_parallel(&a, &b, 4, 2).unwrap();
    assert_eq!(plan.bands, vec![(0, 2), (2, 3)]);
    let c = assemble_bands(&plan, vec![vec![1, 2, 3, 4], vec![5, 6]]);
    assert_eq!(c.shape(), &[3, 2]);
    assert!(c.is_contiguous());
    assert_eq!(c.to_vec(), vec![1, 2, 3, 4, 5, 6]);
}

#[test]
fn nan_loses_every_max() {
    assert_eq!(scalar_max(f64::NAN, 1.0), 1.0);
    assert_eq!(scalar_max(1.0, f64::NAN), 1.0);
    assert_eq!(scalar_max(-3.0, -1.0), -1.0);
    assert_eq!(scalar_max(2i64, 2i64), 2);

    let t = Tensor::from_vec(vec![f64::NAN, 1.0, 2.0, 5.0, f64::NAN, -1.0], &[2, 3]);
    assert_eq!(t.max_axis(1, false).unwrap().to_vec(), vec![2.0, 5.0]);
    let r = Tensor::from_vec(vec![f64::NAN, -1.0, 3.0], &[3]).relu();
    assert_eq!(r.to_vec(), vec![0.0, 0.0, 3.0]);
}

#[test]
fn views_share_and_copies_do_not() {
    let t = Tensor::from_vec((0..6).map(|i| i as i64).collect(), &[2, 3]);
    let u = Tensor::from_vec((0..6).map(|i| i as i64).collect(), &[2, 3]);
    assert!(!t.shares_storage_with(&u), "equal values, two buffers");
    assert!(t.clone().shares_storage_with(&t));
    assert!(t.reshape(&[3, 2]).unwrap().shares_storage_with(&t));
    assert!(t.broadcast_to(&[4, 2, 3]).unwrap().shares_storage_with(&t));
    assert!(t.slice(1, 0, 2).unwrap().shares_storage_with(&t));
    // `contiguous` of a contiguous tensor hands back the same buffer.
    assert!(t.contiguous().shares_storage_with(&t));
    // Fresh results own fresh buffers.
    assert!(!t.map(|x| x).shares_storage_with(&t));
    assert!(!t.add(&t).unwrap().shares_storage_with(&t));
    assert_eq!(t.as_slice(), &[0, 1, 2, 3, 4, 5]);
}

#[test]
fn integer_elementwise_and_sums() {
    let a = Tensor::from_vec(vec![1i64, -2, 3, -4], &[2, 2]);
    let b = Tensor::from_vec(vec![10i64, 20], &[2]);
    assert_eq!(a.add(&b).unwrap().to_vec(), vec![11, 18, 13, 16]);
    assert_eq!(a.sub(&b).unwrap().to_vec(), vec![-9, -22, -7, -24]);
    assert_eq!(a.mul(&b).unwrap().to_vec(), vec![10, -40, 30, -80]);
    assert_eq!(b.div(&a).unwrap().to_vec(), vec![10, -10, 3, -5]);
    assert_eq!(a.neg().to_vec(), vec![-1, 2, -3, 4]);
    assert_eq!(a.relu().to_vec(), vec![1, 0, 3, 0]);
    assert_eq!(a.sum_all(), -2);

    // Pairwise summation past one block of 64 entries.
    let long = Tensor::from_vec((1..=1000).map(|i| i as i64).collect(), &[10, 100]);
    assert_eq!(long.sum_all(), 500_500);
    assert_eq!(long.transpose(0, 1).unwrap().sum_all(), 500_500);
    let zeros: Tensor<i64> = Tensor::zeros(&[4, 0]);
    assert_eq!(zeros.sum_all(), 0);
    assert_eq!(zeros.sum_axis(1, false).unwrap().to_vec(), vec![0, 0, 0, 0]);
}

#[test]
fn element_count_is_the_shape_product() {
    assert_eq!(shape_numel(&[2, 3, 4]), 24);
    assert_eq!(shape_numel(&[]), 1);
    assert_eq!(shape_numel(&[5, 0, 7]), 0);
    assert_eq!(shape_numel(&[1, 1, 9]), 9);
}

#[test]
fn slices_compose() {
    let t = Tensor::from_vec((0..60).map(|i| i as i64).collect(), &[3, 4, 5]);
    let twice = t.slice(2, 1, 5).unwrap().slice(2, 1, 3).unwrap();
    let once = t.slice(2, 2, 4).unwrap();
    assert_eq!(twice.shape(), once.shape());
    assert_eq!(twice.strides(), once.strides());
    assert_eq!(twice.to_vec(), once.to_vec());
    assert!(twice.shares_storage_with(&t));
    assert_eq!(twice.get(&[2, 3, 1]), t.get(&[2, 3, 3]));
}

#[test]
fn empty_products_have_no_band() {
    let a: Tensor<i64> = Tensor::zeros(&[0, 3]);
    let b: Tensor<i64> = Tensor::zeros(&[3, 2]);
    let plan = plan_parallel(&a, &b, 8, 2).expect("an empty product is planned");
    assert!(plan.bands.is_empty());
    let c = assemble_bands(&plan, Vec::new());
    assert_eq!(c.shape(), &[0, 2]);
    assert_eq!(c.numel(), 0);
    assert_eq!(c.to_vec(), matmul_blocked(&a, &b, 8).unwrap().to_vec());

    let p = int_matrix(2, 3, 1);
    let q: Tensor<i64> = Tensor::zeros(&[3, 0]);
    let empty = split_product(&p, &q, 4, 3);
    assert_eq!(empty.shape(), &[2, 0]);
    assert_eq!(empty.numel(), 0);
}
