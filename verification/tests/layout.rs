use rustgpt::tensor::{ShapeError, Tensor, contiguous_strides};

/// The row-major rule: the stride of an axis is the product of the shape
/// entries after it, and the last axis always has stride 1.
#[test]
fn strides_row_major() {
    assert_eq!(contiguous_strides(&[2, 3, 4]), vec![12, 4, 1]);
    assert_eq!(contiguous_strides(&[3, 4]), vec![4, 1]);
    assert_eq!(contiguous_strides(&[5]), vec![1]);

    assert_eq!(contiguous_strides(&[2, 3, 4, 5]), vec![60, 20, 5, 1]);

    // Rank 0 has no axes, so it has no strides.
    assert_eq!(contiguous_strides(&[]), Vec::<usize>::new());

    // A zero entry is not a special case. The product rule carries the 0 left.
    assert_eq!(contiguous_strides(&[2, 0, 4]), vec![0, 4, 1]);

    let t: Tensor<f64> = Tensor::zeros(&[2, 3, 4]);
    assert!(t.is_contiguous());
}

/// The index formula: `offset + sum(index[i] * stride[i])`. The buffer holds
/// `data[i] == i`, so `get` reports the buffer position.
#[test]
fn phys_index_matches_manual() {
    let data: Vec<f64> = (0..24).map(|i| i as f64).collect();
    let t = Tensor::from_vec(data, &[2, 3, 4]);

    assert_eq!(t.get(&[0, 0, 0]), 0.0);
    assert_eq!(t.get(&[1, 2, 3]), 23.0);
    assert_eq!(t.get(&[1, 0, 2]), 14.0);

    for i in 0..2 {
        for j in 0..3 {
            for k in 0..4 {
                let want = (i * 12 + j * 4 + k) as f64;
                assert_eq!(t.get(&[i, j, k]), want, "get([{i}, {j}, {k}])");
            }
        }
    }

    let v = Tensor::from_vec(vec![10.0f64, 11.0, 12.0], &[3]);
    assert_eq!(v.get(&[2]), 12.0);

    let m = Tensor::from_vec((0..6).map(|i| i as f32).collect(), &[2, 3]);
    assert_eq!(m.get(&[1, 2]), 5.0);
    assert_eq!(m.get(&[0, 1]), 1.0);
}

/// `numel` is the product of the shape. The empty product is 1, and a zero
/// entry gives 0.
#[test]
fn numel_is_shape_product() {
    let a: Tensor<f64> = Tensor::zeros(&[2, 3, 4]);
    assert_eq!(a.numel(), 24);
    assert_eq!(a.shape(), &[2, 3, 4]);

    let b: Tensor<f32> = Tensor::zeros(&[5]);
    assert_eq!(b.numel(), 5);
    assert_eq!(b.shape(), &[5]);

    let c: Tensor<f64> = Tensor::zeros(&[2, 0, 4]);
    assert_eq!(c.numel(), 0);

    let d: Tensor<f64> = Tensor::zeros(&[2, 2]);
    assert_eq!(d.get(&[0, 0]), 0.0);
    assert_eq!(d.get(&[1, 1]), 0.0);

    let s: Tensor<f64> = Tensor::zeros(&[]);
    assert_eq!(s.numel(), 1);
    assert!(s.shape().is_empty());
    assert_eq!(s.get(&[]), 0.0);
}

/// A permutation and its inverse give back the original view, in shape,
/// in strides and in logical order.
#[test]
fn permute_roundtrip() {
    let t = Tensor::from_vec((0..24).map(|i| i as f64).collect(), &[2, 3, 4]);
    assert_eq!(t.strides(), &[12, 4, 1]);

    let p = t.permute(&[2, 0, 1]).expect("permute [2,0,1]");
    assert_eq!(p.shape(), &[4, 2, 3]);
    assert_eq!(p.strides(), &[1, 12, 4]);
    assert!(p.shares_storage_with(&t), "permute must copy nothing");

    let back = p.permute(&[1, 2, 0]).expect("permute back");
    assert_eq!(back.shape(), t.shape());
    assert_eq!(back.strides(), t.strides());
    assert_eq!(back.to_vec(), t.to_vec());

    for i in 0..2 {
        for j in 0..3 {
            for k in 0..4 {
                assert_eq!(p.get(&[k, i, j]), t.get(&[i, j, k]), "[{i},{j},{k}]");
            }
        }
    }

    let same = t.permute(&[0, 1, 2]).expect("identity permute");
    assert_eq!(same.strides(), t.strides());

    let wrong_len = t.permute(&[0, 1]);
    assert!(
        matches!(wrong_len, Err(ShapeError::BadRank { .. })),
        "a rank 2 order on a rank 3 tensor"
    );

    assert!(t.permute(&[0, 0, 1]).is_err(), "axis 0 used twice");
    assert!(t.permute(&[0, 1, 3]).is_err(), "axis 3 on a rank 3 tensor");
}

/// A transpose swaps two entries of `shape` and two entries of `strides`,
/// and touches no data.
#[test]
fn transpose_is_zero_copy() {
    let t = Tensor::from_vec((0..6).map(|i| i as f64).collect(), &[2, 3]);
    let tt = t.transpose(0, 1).expect("transpose(0, 1)");

    assert_eq!(tt.shape(), &[3, 2]);
    assert_eq!(tt.strides(), &[1, 3]);
    assert!(tt.shares_storage_with(&t), "transpose copied the buffer");

    assert!(t.is_contiguous());
    assert!(!tt.is_contiguous());

    for i in 0..2 {
        for j in 0..3 {
            assert_eq!(tt.get(&[j, i]), t.get(&[i, j]), "[{i},{j}]");
        }
    }

    assert_eq!(t.to_vec(), vec![0.0, 1.0, 2.0, 3.0, 4.0, 5.0]);
    assert_eq!(tt.to_vec(), vec![0.0, 3.0, 1.0, 4.0, 2.0, 5.0]);

    let back = tt.transpose(0, 1).expect("transpose back");
    assert_eq!(back.shape(), t.shape());
    assert_eq!(back.strides(), t.strides());

    let noop = t.transpose(1, 1).expect("transpose(1, 1)");
    assert_eq!(noop.strides(), t.strides());

    assert!(t.transpose(0, 2).is_err());

    let u = Tensor::from_vec((0..24).map(|i| i as f64).collect(), &[2, 3, 4]);
    let ut = u.transpose(1, 2).expect("transpose(1, 2)");
    assert_eq!(ut.shape(), &[2, 4, 3]);
    assert_eq!(ut.strides(), &[12, 1, 4]);
    assert_eq!(ut.get(&[1, 3, 2]), u.get(&[1, 2, 3]));
}

/// `reshape` on a non-contiguous view must refuse.
#[test]
fn reshape_noncontiguous_errors() {
    let t = Tensor::from_vec((0..6).map(|i| i as f64).collect(), &[2, 3]);

    let r = t.reshape(&[3, 2]).expect("reshape a contiguous tensor");
    assert_eq!(r.shape(), &[3, 2]);
    assert_eq!(r.strides(), &[2, 1]);
    assert!(r.shares_storage_with(&t), "a contiguous reshape must not copy");
    assert_eq!(r.to_vec(), t.to_vec(), "reshape keeps the reading order");

    let flat = t.reshape(&[6]).expect("reshape to rank 1");
    assert_eq!(flat.strides(), &[1]);

    let tt = t.transpose(0, 1).expect("transpose");
    assert!(
        matches!(tt.reshape(&[6]), Err(ShapeError::NotContiguous)),
        "reshape of a strided view"
    );

    assert!(
        matches!(t.reshape(&[2, 4]), Err(ShapeError::SizeMismatch)),
        "6 elements into [2,4]"
    );
}

/// After `contiguous`, the reshape that failed above succeeds, and the values
/// are unchanged.
#[test]
fn contiguous_then_reshape_ok() {
    let t = Tensor::from_vec((0..6).map(|i| i as f64).collect(), &[2, 3]);
    let tt = t.transpose(0, 1).expect("transpose");

    let c = tt.contiguous();
    assert!(c.is_contiguous());
    assert_eq!(c.shape(), tt.shape());
    assert_eq!(c.strides(), &[2, 1]);
    assert_eq!(c.to_vec(), tt.to_vec(), "contiguous must keep logical order");
    assert!(
        !c.shares_storage_with(&tt),
        "contiguous on a strided view must build a new buffer"
    );

    let flat = c.reshape(&[6]).expect("reshape after contiguous");
    assert_eq!(flat.shape(), &[6]);
    assert_eq!(flat.to_vec(), vec![0.0, 3.0, 1.0, 4.0, 2.0, 5.0]);

    let again = t.contiguous();
    assert_eq!(again.to_vec(), t.to_vec());
    assert!(again.is_contiguous());
}

/// A slice narrows one axis. It changes `shape` and `offset`, and never
/// `strides`.
#[test]
fn slice_bounds() {
    let t = Tensor::from_vec((0..24).map(|i| i as f64).collect(), &[2, 3, 4]);

    let s = t.slice(1, 1, 3).expect("slice axis 1, 1..3");
    assert_eq!(s.shape(), &[2, 2, 4]);
    assert_eq!(s.strides(), t.strides(), "a slice never changes the strides");
    assert!(s.shares_storage_with(&t), "a slice must copy nothing");
    assert_eq!(s.get(&[0, 0, 0]), t.get(&[0, 1, 0]));
    assert_eq!(s.get(&[1, 1, 3]), t.get(&[1, 2, 3]));

    let plane = t.slice(0, 1, 2).expect("slice axis 0, 1..2");
    assert_eq!(plane.shape(), &[1, 3, 4]);
    assert_eq!(plane.get(&[0, 0, 0]), 12.0);
    assert_eq!(plane.to_vec(), (12..24).map(|i| i as f64).collect::<Vec<f64>>());

    let inner = plane.slice(2, 2, 4).expect("slice a slice");
    assert_eq!(inner.shape(), &[1, 3, 2]);
    assert_eq!(inner.get(&[0, 0, 0]), 14.0);
    assert_eq!(inner.get(&[0, 2, 1]), 23.0);

    assert!(t.slice(0, 2, 1).is_err());
    assert!(t.slice(1, 0, 4).is_err());
    assert!(t.slice(3, 0, 1).is_err());

    let empty = t.slice(0, 1, 1).expect("start == end is legal");
    assert_eq!(empty.shape(), &[0, 3, 4]);
    assert_eq!(empty.numel(), 0);
    assert_eq!(empty.to_vec(), Vec::<f64>::new());
}
