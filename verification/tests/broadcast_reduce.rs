use rustgpt::tensor::{ShapeError, Tensor, broadcast_shapes};

// The float maps of a tensor, written as `map` calls.
fn exp(t: &Tensor<f64>) -> Tensor<f64> {
    t.map(|x| x.exp())
}

fn ln(t: &Tensor<f64>) -> Tensor<f64> {
    t.map(|x| x.ln())
}

fn sqrt(t: &Tensor<f64>) -> Tensor<f64> {
    t.map(|x| x.sqrt())
}

fn tanh(t: &Tensor<f64>) -> Tensor<f64> {
    t.map(|x| x.tanh())
}

/// `sum_axis`, then every element divided by the length of the axis.
fn mean_axis(t: &Tensor<f64>, axis: usize, keepdim: bool) -> Result<Tensor<f64>, ShapeError> {
    let sum = t.sum_axis(axis, keepdim)?;
    let n = t.shape()[axis] as f64;
    Ok(sum.map(|x| x / n))
}

/// The plain sum of the logical values.
fn total(t: &Tensor<f64>) -> f64 {
    t.to_vec().iter().sum()
}

/// Align the shapes from the trailing axis; each pair must be equal, or one
/// of the two must be 1. A missing axis counts as 1.
#[test]
fn broadcast_shapes_table() {
    assert_eq!(broadcast_shapes(&[3, 1], &[1, 4]).unwrap(), vec![3, 4]);

    assert_eq!(broadcast_shapes(&[5], &[3, 5]).unwrap(), vec![3, 5]);
    assert_eq!(broadcast_shapes(&[3, 5], &[5]).unwrap(), vec![3, 5]);

    assert_eq!(broadcast_shapes(&[2, 3], &[2, 3]).unwrap(), vec![2, 3]);

    assert_eq!(broadcast_shapes(&[], &[2, 3]).unwrap(), vec![2, 3]);
    assert_eq!(broadcast_shapes(&[], &[]).unwrap(), Vec::<usize>::new());

    assert_eq!(broadcast_shapes(&[4, 1, 5], &[3, 1]).unwrap(), vec![4, 3, 5]);
    assert_eq!(broadcast_shapes(&[1, 3, 1], &[2, 1, 4]).unwrap(), vec![2, 3, 4]);

    assert!(broadcast_shapes(&[2, 3], &[3, 2]).is_err());
    assert!(broadcast_shapes(&[2, 3], &[4]).is_err());
    assert!(broadcast_shapes(&[5, 2], &[3, 2, 4]).is_err());
}

/// Broadcast duplicates no data: the stretched axis gets stride 0.
#[test]
fn broadcast_uses_stride_zero() {
    let row = Tensor::from_vec(vec![1.0f64, 2.0, 3.0, 4.0], &[1, 4]);
    let big = row.broadcast_to(&[3, 4]).expect("broadcast [1,4] to [3,4]");

    assert_eq!(big.shape(), &[3, 4]);
    assert_eq!(big.strides(), &[0, 1], "the stretched axis must have stride 0");
    assert!(big.shares_storage_with(&row), "broadcast must copy nothing");
    assert_eq!(big.numel(), 12);

    for i in 0..3 {
        for j in 0..4 {
            assert_eq!(big.get(&[i, j]), row.get(&[0, j]), "[{i},{j}]");
        }
    }

    let v = Tensor::from_vec(vec![10.0f64, 20.0], &[2]);
    let vb = v.broadcast_to(&[3, 2]).expect("broadcast [2] to [3,2]");
    assert_eq!(vb.shape(), &[3, 2]);
    assert_eq!(vb.strides(), &[0, 1]);
    assert_eq!(vb.get(&[2, 1]), 20.0);

    let m = Tensor::from_vec(vec![1.0f64, 2.0, 3.0, 4.0, 5.0, 6.0], &[2, 1, 3]);
    let mb = m.broadcast_to(&[2, 4, 3]).expect("broadcast [2,1,3] to [2,4,3]");
    assert_eq!(mb.strides(), &[3, 0, 1]);
    assert_eq!(mb.get(&[1, 3, 2]), 6.0);
    assert_eq!(mb.get(&[1, 0, 2]), 6.0);

    assert_eq!(mb.numel(), 24);
    assert_eq!(m.numel(), 6);

    assert!(v.broadcast_to(&[3, 3]).is_err());
    assert!(big.broadcast_to(&[3, 2]).is_err());
    assert!(big.broadcast_to(&[4]).is_err());
}

/// A broadcast view holds real elements when you read it.
#[test]
fn broadcast_sum_scales() {
    let a = Tensor::from_vec(vec![1.0f64, 2.0, 3.0, 4.0], &[1, 4]);
    let b = a.broadcast_to(&[3, 4]).expect("broadcast");

    assert_eq!(b.to_vec().len(), 12, "to_vec must report numel, not buffer len");

    let want = total(&a) * 3.0;
    let got = total(&b);
    assert!((got - want).abs() < 1e-12, "sum was {got}, want {want}");

    assert_eq!(
        b.to_vec(),
        vec![1.0, 2.0, 3.0, 4.0, 1.0, 2.0, 3.0, 4.0, 1.0, 2.0, 3.0, 4.0]
    );

    let col = Tensor::from_vec(vec![7.0f64, 8.0], &[2, 1]);
    let cb = col.broadcast_to(&[2, 3]).expect("broadcast [2,1] to [2,3]");
    assert_eq!(cb.to_vec(), vec![7.0, 7.0, 7.0, 8.0, 8.0, 8.0]);
    assert!((total(&cb) - total(&col) * 3.0).abs() < 1e-12);
}

/// The elementwise ops, against values computed by hand.
#[test]
fn elementwise_against_manual() {
    let a = Tensor::from_vec(vec![1.0f64, 2.0, 3.0, 4.0, 5.0, 6.0], &[2, 3]);
    let b = Tensor::from_vec(vec![10.0f64, 20.0, 30.0, 40.0, 50.0, 60.0], &[2, 3]);

    let s = a.add(&b).expect("add");
    assert_eq!(s.shape(), &[2, 3]);
    assert!(s.is_contiguous(), "a fresh result is contiguous");
    assert_eq!(s.to_vec(), vec![11.0, 22.0, 33.0, 44.0, 55.0, 66.0]);

    assert_eq!(b.sub(&a).unwrap().to_vec(), vec![9.0, 18.0, 27.0, 36.0, 45.0, 54.0]);
    assert_eq!(a.mul(&b).unwrap().to_vec(), vec![10.0, 40.0, 90.0, 160.0, 250.0, 360.0]);
    assert_eq!(b.div(&a).unwrap().to_vec(), vec![10.0; 6]);
    assert_eq!(a.neg().to_vec(), vec![-1.0, -2.0, -3.0, -4.0, -5.0, -6.0]);

    assert_eq!(a.map(|x| x * x).to_vec(), vec![1.0, 4.0, 9.0, 16.0, 25.0, 36.0]);

    let z = a.zip_with(&b, |x, y| y - x).expect("zip_with");
    assert_eq!(z.to_vec(), b.sub(&a).unwrap().to_vec());

    let n = Tensor::from_vec(vec![-2.0f64, -0.5, 0.0, 0.5, 2.0], &[5]);
    assert_eq!(n.relu().to_vec(), vec![0.0, 0.0, 0.0, 0.5, 2.0]);

    assert!((exp(&n).get(&[4]) - std::f64::consts::E.powi(2)).abs() < 1e-12);
    assert!(exp(&n).get(&[2]) == 1.0, "exp(0) is exactly 1");

    let sq = Tensor::from_vec(vec![1.0f64, 4.0, 9.0, 16.0], &[4]);
    assert_eq!(sqrt(&sq).to_vec(), vec![1.0, 2.0, 3.0, 4.0]);

    let pos = Tensor::from_vec(vec![1.0f64, std::f64::consts::E], &[2]);
    assert!(ln(&pos).get(&[0]).abs() < 1e-12, "ln(1) is 0");
    assert!((ln(&pos).get(&[1]) - 1.0).abs() < 1e-12, "ln(e) is 1");
    assert!((exp(&ln(&sq)).get(&[3]) - 16.0).abs() < 1e-12);

    assert!(tanh(&n).get(&[2]).abs() < 1e-12, "tanh(0) is 0");
    assert!(tanh(&n).get(&[4]) < 1.0, "tanh is bounded above by 1");
    assert!(tanh(&n).get(&[0]) > -1.0, "tanh is bounded below by -1");
    assert!((tanh(&n).get(&[0]) + tanh(&n).get(&[4])).abs() < 1e-12);

    let x = Tensor::from_vec(vec![1.0f64, 2.0, 3.0, 4.0, 5.0, 6.0], &[2, 3]);
    let bias = Tensor::from_vec(vec![100.0f64, 200.0, 300.0], &[3]);
    let y = x.add(&bias).expect("[2,3] + [3] must broadcast");
    assert_eq!(y.shape(), &[2, 3]);
    assert_eq!(y.to_vec(), vec![101.0, 202.0, 303.0, 104.0, 205.0, 306.0]);

    let col = Tensor::from_vec(vec![10.0f64, 20.0], &[2, 1]);
    assert_eq!(x.add(&col).unwrap().to_vec(), vec![11.0, 12.0, 13.0, 24.0, 25.0, 26.0]);

    let r = Tensor::from_vec(vec![1.0f64, 2.0, 3.0], &[1, 3]);
    let out = col.add(&r).expect("[2,1] + [1,3]");
    assert_eq!(out.shape(), &[2, 3]);
    assert_eq!(out.to_vec(), vec![11.0, 12.0, 13.0, 21.0, 22.0, 23.0]);

    let bad = Tensor::from_vec(vec![0.0f64; 2], &[2]);
    assert!(x.add(&bad).is_err());
    assert!(x.zip_with(&bad, |p, q| p + q).is_err());

    let xt = x.transpose(0, 1).expect("transpose");
    assert_eq!(xt.shape(), &[3, 2]);
    assert_eq!(xt.map(|v| v * 2.0).to_vec(), vec![2.0, 8.0, 4.0, 10.0, 6.0, 12.0]);
    assert_eq!(xt.add(&xt).unwrap().to_vec(), vec![2.0, 8.0, 4.0, 10.0, 6.0, 12.0]);

    let f = Tensor::from_vec(vec![1.5f32, 2.5], &[2]);
    assert_eq!(f.add(&f).unwrap().to_vec(), vec![3.0f32, 5.0]);
}

/// `keepdim` decides whether the reduced axis disappears or stays as size 1.
#[test]
fn sum_axis_shapes() {
    let t: Tensor<f64> = Tensor::zeros(&[2, 3, 4]);

    assert_eq!(t.sum_axis(1, false).unwrap().shape(), &[2, 4]);
    assert_eq!(t.sum_axis(1, true).unwrap().shape(), &[2, 1, 4]);
    assert_eq!(t.sum_axis(0, false).unwrap().shape(), &[3, 4]);
    assert_eq!(t.sum_axis(0, true).unwrap().shape(), &[1, 3, 4]);
    assert_eq!(t.sum_axis(2, false).unwrap().shape(), &[2, 3]);
    assert_eq!(t.sum_axis(2, true).unwrap().shape(), &[2, 3, 1]);

    assert_eq!(mean_axis(&t, 0, true).unwrap().shape(), &[1, 3, 4]);
    assert_eq!(mean_axis(&t, 0, false).unwrap().shape(), &[3, 4]);
    assert_eq!(t.max_axis(2, false).unwrap().shape(), &[2, 3]);
    assert_eq!(t.max_axis(2, true).unwrap().shape(), &[2, 3, 1]);

    assert!(t.sum_axis(1, true).unwrap().is_contiguous());

    assert!(t.sum_axis(3, false).is_err());
    assert!(mean_axis(&t, 9, false).is_err());
    assert!(t.max_axis(3, true).is_err());

    let v: Tensor<f64> = Tensor::zeros(&[5]);
    assert!(v.sum_axis(0, false).unwrap().shape().is_empty());
    assert_eq!(v.sum_axis(0, false).unwrap().numel(), 1);
    assert_eq!(v.sum_axis(0, true).unwrap().shape(), &[1]);
}

/// Values computed by hand, on both axes, at rank 2 and at rank 3.
#[test]
fn sum_axis_values() {
    let t = Tensor::from_vec(vec![1.0f64, 2.0, 3.0, 4.0, 5.0, 6.0], &[2, 3]);

    assert_eq!(t.sum_axis(0, false).unwrap().to_vec(), vec![5.0, 7.0, 9.0]);
    assert_eq!(t.sum_axis(1, false).unwrap().to_vec(), vec![6.0, 15.0]);
    assert_eq!(t.sum_axis(1, true).unwrap().to_vec(), vec![6.0, 15.0]);
    assert_eq!(t.sum_axis(1, true).unwrap().shape(), &[2, 1]);

    assert_eq!(mean_axis(&t, 0, false).unwrap().to_vec(), vec![2.5, 3.5, 4.5]);
    assert_eq!(mean_axis(&t, 1, false).unwrap().to_vec(), vec![2.0, 5.0]);
    assert_eq!(t.max_axis(0, false).unwrap().to_vec(), vec![4.0, 5.0, 6.0]);
    assert_eq!(t.max_axis(1, false).unwrap().to_vec(), vec![3.0, 6.0]);

    assert_eq!(t.sum_all(), 21.0);

    let u = Tensor::from_vec((0..24).map(|i| i as f64).collect(), &[2, 3, 4]);

    let s2 = u.sum_axis(2, false).unwrap();
    assert_eq!(s2.shape(), &[2, 3]);
    assert_eq!(s2.to_vec(), vec![6.0, 22.0, 38.0, 54.0, 70.0, 86.0]);

    let s1 = u.sum_axis(1, false).unwrap();
    assert_eq!(s1.shape(), &[2, 4]);
    assert_eq!(s1.to_vec(), vec![12.0, 15.0, 18.0, 21.0, 48.0, 51.0, 54.0, 57.0]);

    let s0 = u.sum_axis(0, false).unwrap();
    assert_eq!(s0.shape(), &[3, 4]);
    assert_eq!(
        s0.to_vec(),
        (0..12).map(|i| (12 + 2 * i) as f64).collect::<Vec<f64>>()
    );

    assert_eq!(u.sum_all(), (0..24).map(|i| i as f64).sum::<f64>());
    assert_eq!(mean_axis(&u, 2, false).unwrap().to_vec()[0], 1.5);

    let tt = t.transpose(0, 1).unwrap();
    assert_eq!(tt.shape(), &[3, 2]);
    assert_eq!(tt.sum_axis(0, false).unwrap().to_vec(), vec![6.0, 15.0]);
    assert_eq!(tt.sum_axis(1, false).unwrap().to_vec(), vec![5.0, 7.0, 9.0]);
    assert_eq!(tt.sum_all(), 21.0);

    let row = Tensor::from_vec(vec![1.0f64, 2.0, 3.0], &[1, 3]);
    let wide = row.broadcast_to(&[4, 3]).unwrap();
    assert_eq!(wide.sum_axis(0, false).unwrap().to_vec(), vec![4.0, 8.0, 12.0]);
    assert_eq!(wide.sum_all(), 24.0);
}

/// A left fold over 100 million `f32` ones stops at 2^24; the pairwise sum
/// does not.
#[test]
fn sum_all_precision() {
    const N: usize = 100_000_000;

    let mut sequential = 0.0f32;
    for _ in 0..N {
        sequential += 1.0;
    }
    assert_eq!(
        sequential, 16_777_216.0,
        "a left fold in f32 must stop dead at 2^24"
    );

    let t = Tensor::from_vec(vec![1.0f32; N], &[N]);
    let pairwise: f32 = t.sum_all();

    assert!(
        (pairwise - 1.0e8f32).abs() <= 8.0,
        "pairwise sum was {pairwise}, want 1e8 inside one step (8.0). \
         The left fold gives {sequential}, which is {} short.",
        1.0e8f32 - sequential
    );

    let d = Tensor::from_vec(vec![1.0f64; 1_000_000], &[1_000_000]);
    assert_eq!(d.sum_all(), 1_000_000.0f64);

    let odd = Tensor::from_vec((1..=7).map(|i| i as f64).collect(), &[7]);
    assert_eq!(odd.sum_all(), 28.0);
    let one = Tensor::from_vec(vec![42.0f64], &[1]);
    assert_eq!(one.sum_all(), 42.0);
    let none: Tensor<f64> = Tensor::zeros(&[0]);
    assert_eq!(none.sum_all(), 0.0, "the sum of nothing is 0");
}

/// A max seeded with zero returns 0 on all-negative input.
#[test]
fn max_axis_handles_negatives() {
    let t = Tensor::from_vec(vec![-5.0f64, -1.0, -9.0, -2.0, -7.0, -3.0], &[2, 3]);

    assert_eq!(t.max_axis(1, false).unwrap().to_vec(), vec![-1.0, -2.0]);
    assert_eq!(t.max_axis(0, false).unwrap().to_vec(), vec![-2.0, -1.0, -3.0]);
    assert_eq!(t.max_axis(1, true).unwrap().shape(), &[2, 1]);

    let one = Tensor::from_vec(vec![-3.0f64], &[1, 1]);
    assert_eq!(one.max_axis(0, false).unwrap().to_vec(), vec![-3.0]);
    assert_eq!(one.max_axis(1, false).unwrap().to_vec(), vec![-3.0]);

    let flat = Tensor::from_vec(vec![-4.0f64; 6], &[2, 3]);
    assert_eq!(flat.max_axis(1, false).unwrap().to_vec(), vec![-4.0, -4.0]);

    let logits = Tensor::from_vec(vec![1000.0f64, 1001.0, 1002.0], &[1, 3]);
    let m = logits.max_axis(1, true).unwrap();
    assert_eq!(m.shape(), &[1, 1], "keepdim exists so the max broadcasts back");
    assert_eq!(m.to_vec(), vec![1002.0]);

    let shifted = logits.sub(&m).expect("[1,3] - [1,1] must broadcast");
    assert_eq!(shifted.to_vec(), vec![-2.0, -1.0, 0.0]);

    for v in exp(&logits).to_vec() {
        assert!(v.is_infinite(), "exp(1000) overflows f64, and that is the point");
    }
    for v in exp(&shifted).to_vec() {
        assert!(v.is_finite() && v > 0.0);
    }
    let denom: f64 = exp(&shifted).to_vec().iter().sum();
    assert!((exp(&shifted).get(&[0, 2]) / denom - 0.665_240_955_774_821_8).abs() < 1e-9);
}
