use rustgpt::bands::{assemble_bands, plan_parallel};
use rustgpt::matmul::{matmul, matmul_blocked, matmul_naive, matmul_row_band};
use rustgpt::rng::Rng;
use rustgpt::tensor::{ShapeError, Tensor};

// ---------------------------------------------------------------------------
// Helpers: normal draws, identity matrices, a mixed tolerance, and the row
// band product run one band after another.
// ---------------------------------------------------------------------------

/// A uniform draw in `[0, 1)` from the top 53 bits of the next output.
fn uniform(rng: &mut Rng) -> f64 {
    rng.next_bits53() as f64 / 9_007_199_254_740_992.0
}

/// A standard normal draw (Box-Muller), the second value of each pair kept in
/// the generator's cache.
fn normal(rng: &mut Rng) -> f64 {
    if let Some(bits) = rng.take_cached() {
        return f64::from_bits(bits);
    }
    let mut u1 = uniform(rng);
    while u1 == 0.0 {
        u1 = uniform(rng);
    }
    let u2 = uniform(rng);
    let r = (-2.0 * u1.ln()).sqrt();
    let theta = 2.0 * std::f64::consts::PI * u2;
    rng.set_cached((r * theta.sin()).to_bits());
    r * theta.cos()
}

fn randn64(rng: &mut Rng, shape: &[usize]) -> Tensor<f64> {
    let n: usize = shape.iter().product();
    let data: Vec<f64> = (0..n).map(|_| normal(rng)).collect();
    Tensor::from_vec(data, shape)
}

fn randn32(rng: &mut Rng, shape: &[usize]) -> Tensor<f32> {
    let n: usize = shape.iter().product();
    let data: Vec<f32> = (0..n).map(|_| normal(rng) as f32).collect();
    Tensor::from_vec(data, shape)
}

fn identity64(n: usize) -> Tensor<f64> {
    let mut data = vec![0.0f64; n * n];
    for i in 0..n {
        data[i * n + i] = 1.0;
    }
    Tensor::from_vec(data, &[n, n])
}

fn identity32(n: usize) -> Tensor<f32> {
    let mut data = vec![0.0f32; n * n];
    for i in 0..n {
        data[i * n + i] = 1.0;
    }
    Tensor::from_vec(data, &[n, n])
}

/// Compare two tensors with the limit `tol * (1 + |want|)`.
fn assert_all_close<T: Copy + Into<f64>>(got: &Tensor<T>, want: &Tensor<T>, tol: f64, what: &str) {
    assert_eq!(got.shape(), want.shape(), "{what}: shape");
    let g = got.to_vec();
    let w = want.to_vec();
    for (i, (gi, wi)) in g.into_iter().zip(w).enumerate() {
        let (gi, wi): (f64, f64) = (gi.into(), wi.into());
        let limit = tol * (1.0 + wi.abs());
        assert!(
            (gi - wi).abs() <= limit,
            "{what}: element {i} was {gi}, want {wi}, limit {limit:e}"
        );
    }
}

/// The row-partitioned product, with the bands run one after another: the
/// plan, one `matmul_row_band` call per band, and the join in band order.
fn matmul_parallel<T>(a: &Tensor<T>, b: &Tensor<T>, block: usize, threads: usize) -> Result<Tensor<T>, ShapeError>
where
    T: Copy + Default + std::ops::Add<Output = T> + std::ops::Mul<Output = T>,
{
    let plan = plan_parallel(a, b, block, threads)?;
    let mut parts: Vec<Vec<T>> = Vec::new();
    for &(start, end) in &plan.bands {
        parts.push(matmul_row_band(&plan.a_data, &plan.b_data, plan.k, plan.n, plan.block, start, end));
    }
    Ok(assemble_bands(&plan, parts))
}

// ---------------------------------------------------------------------------
// The reference product and the batched product
// ---------------------------------------------------------------------------

#[test]
fn matmul_2x3_3x2_by_hand() {
    let a = Tensor::from_vec(vec![1.0f64, 2.0, 3.0, 4.0, 5.0, 6.0], &[2, 3]);
    let b = Tensor::from_vec(vec![7.0f64, 8.0, 9.0, 10.0, 11.0, 12.0], &[3, 2]);

    let c = matmul_naive(&a, &b).expect("2x3 times 3x2");
    assert_eq!(c.shape(), &[2, 2]);
    assert_eq!(c.to_vec(), vec![58.0, 64.0, 139.0, 154.0]);
    assert!(c.is_contiguous(), "a fresh result is contiguous");

    assert_eq!(matmul(&a, &b).unwrap().to_vec(), c.to_vec());

    let p = Tensor::from_vec(vec![3.0f64], &[1, 1]);
    let q = Tensor::from_vec(vec![5.0f64], &[1, 1]);
    assert_eq!(matmul_naive(&p, &q).unwrap().to_vec(), vec![15.0]);

    let row = Tensor::from_vec(vec![1.0f64, 2.0, 3.0], &[1, 3]);
    let col = Tensor::from_vec(vec![4.0f64, 5.0, 6.0], &[3, 1]);

    let inner = matmul_naive(&row, &col).unwrap();
    assert_eq!(inner.shape(), &[1, 1]);
    assert_eq!(inner.to_vec(), vec![32.0]);

    let outer = matmul_naive(&col, &row).unwrap();
    assert_eq!(outer.shape(), &[3, 3]);
    assert_eq!(
        outer.to_vec(),
        vec![4.0, 8.0, 12.0, 5.0, 10.0, 15.0, 6.0, 12.0, 18.0]
    );
}

#[test]
fn matmul_identity() {
    let mut rng = Rng::seed(2);
    let a = randn64(&mut rng, &[5, 4]);

    let right = matmul_naive(&a, &identity64(4)).expect("A times I");
    assert_eq!(right.shape(), &[5, 4]);
    assert_eq!(right.to_vec(), a.to_vec(), "A * I must be A, exactly");

    let left = matmul_naive(&identity64(5), &a).expect("I times A");
    assert_eq!(left.to_vec(), a.to_vec(), "I * A must be A, exactly");

    let mut rng32 = Rng::seed(3);
    let f = randn32(&mut rng32, &[3, 6]);
    assert_eq!(matmul_naive(&f, &identity32(6)).unwrap().to_vec(), f.to_vec());
}

#[test]
fn matmul_transpose_identity() {
    let mut rng = Rng::seed(4);
    let a = randn32(&mut rng, &[6, 4]);
    let b = randn32(&mut rng, &[4, 5]);

    let ab_t = matmul_naive(&a, &b).unwrap().transpose(0, 1).unwrap();
    let bt = b.transpose(0, 1).unwrap();
    let at = a.transpose(0, 1).unwrap();
    let bt_at = matmul_naive(&bt, &at).expect("B^T times A^T");

    assert_eq!(ab_t.shape(), &[5, 6]);
    assert_eq!(bt_at.shape(), &[5, 6]);
    assert_all_close(&bt_at, &ab_t, 1e-5, "(A*B)^T == B^T * A^T");

    let at_copy = at.contiguous();
    let d = randn32(&mut rng, &[6, 3]);
    assert!(!at.is_contiguous() && at_copy.is_contiguous());
    assert_all_close(
        &matmul_naive(&at, &d).unwrap(),
        &matmul_naive(&at_copy, &d).unwrap(),
        1e-6,
        "a strided view and its copy give the same product",
    );
}

#[test]
fn matmul_associative() {
    let mut rng = Rng::seed(5);
    let a = randn32(&mut rng, &[8, 8]);
    let b = randn32(&mut rng, &[8, 8]);
    let c = randn32(&mut rng, &[8, 8]);

    let left = matmul_naive(&matmul_naive(&a, &b).unwrap(), &c).unwrap();
    let right = matmul_naive(&a, &matmul_naive(&b, &c).unwrap()).unwrap();
    assert_all_close(&left, &right, 1e-4, "(A*B)*C == A*(B*C)");

    let p = randn64(&mut rng, &[3, 5]);
    let q = randn64(&mut rng, &[5, 7]);
    let r = randn64(&mut rng, &[7, 2]);
    let l2 = matmul_naive(&matmul_naive(&p, &q).unwrap(), &r).unwrap();
    let r2 = matmul_naive(&p, &matmul_naive(&q, &r).unwrap()).unwrap();
    assert_eq!(l2.shape(), &[3, 2]);
    assert_all_close(&l2, &r2, 1e-12, "(P*Q)*R == P*(Q*R) in f64");
}

#[test]
fn matmul_batched_shapes() {
    let mut rng = Rng::seed(6);
    let a = randn64(&mut rng, &[2, 3, 4]);
    let b = randn64(&mut rng, &[2, 4, 5]);

    let c = matmul(&a, &b).expect("batched [2,3,4] times [2,4,5]");
    assert_eq!(c.shape(), &[2, 3, 5]);

    for n in 0..2 {
        let an = a.slice(0, n, n + 1).unwrap().contiguous().reshape(&[3, 4]).unwrap();
        let bn = b.slice(0, n, n + 1).unwrap().contiguous().reshape(&[4, 5]).unwrap();
        let cn = c.slice(0, n, n + 1).unwrap().contiguous().reshape(&[3, 5]).unwrap();
        assert_all_close(&matmul_naive(&an, &bn).unwrap(), &cn, 1e-12, &format!("batch {n}"));
    }

    let a1 = randn64(&mut rng, &[1, 3, 4]);
    let c2 = matmul(&a1, &b).expect("[1,3,4] times [2,4,5]");
    assert_eq!(c2.shape(), &[2, 3, 5]);

    let a_flat = a1.contiguous().reshape(&[3, 4]).unwrap();
    for n in 0..2 {
        let bn = b.slice(0, n, n + 1).unwrap().contiguous().reshape(&[4, 5]).unwrap();
        let cn = c2.slice(0, n, n + 1).unwrap().contiguous().reshape(&[3, 5]).unwrap();
        assert_all_close(
            &matmul_naive(&a_flat, &bn).unwrap(),
            &cn,
            1e-12,
            &format!("broadcast batch {n}"),
        );
    }

    let x = randn64(&mut rng, &[2, 1, 3, 4]);
    let y = randn64(&mut rng, &[1, 5, 4, 6]);
    assert_eq!(matmul(&x, &y).unwrap().shape(), &[2, 5, 3, 6]);

    let p = randn64(&mut rng, &[3, 4]);
    let q = randn64(&mut rng, &[4, 2]);
    assert_eq!(matmul(&p, &q).unwrap().shape(), &[3, 2]);
    assert_all_close(
        &matmul(&p, &q).unwrap(),
        &matmul_naive(&p, &q).unwrap(),
        1e-12,
        "matmul must agree with the oracle at rank 2",
    );
}

#[test]
fn matmul_dim_mismatch_errors() {
    let a: Tensor<f64> = Tensor::zeros(&[2, 3]);
    let b: Tensor<f64> = Tensor::zeros(&[4, 5]);

    assert!(matmul_naive(&a, &b).is_err());
    assert!(matmul(&a, &b).is_err());

    let v: Tensor<f64> = Tensor::zeros(&[3]);
    assert!(matmul_naive(&v, &a).is_err());
    assert!(matmul(&v, &a).is_err());
    assert!(matmul(&a, &v).is_err());

    let p: Tensor<f64> = Tensor::zeros(&[2, 3, 4]);
    let q: Tensor<f64> = Tensor::zeros(&[2, 4, 5]);
    assert!(matmul_naive(&p, &q).is_err(), "the oracle stays rank 2");

    let r: Tensor<f64> = Tensor::zeros(&[3, 4, 5]);
    assert!(matmul(&p, &r).is_err());
}

// ---------------------------------------------------------------------------
// The blocked kernel
// ---------------------------------------------------------------------------

const CASES: [(usize, usize, usize); 6] = [
    (1, 1, 1),
    (7, 13, 5),
    (64, 64, 64),
    (129, 257, 63),
    (16, 1, 16),
    (33, 8, 1),
];

const BLOCKS: [usize; 5] = [8, 16, 32, 64, 128];

#[test]
fn blocked_matches_naive() {
    let mut rng = Rng::seed(21);

    for &(m, k, n) in &CASES {
        let a = randn32(&mut rng, &[m, k]);
        let b = randn32(&mut rng, &[k, n]);
        let want = matmul_naive(&a, &b).expect("the oracle");

        for &block in &BLOCKS {
            let got = matmul_blocked(&a, &b, block).expect("blocked");
            assert_eq!(got.shape(), want.shape(), "{m}x{k}x{n} block {block}");
            assert_all_close(&got, &want, 1e-4, &format!("{m}x{k}x{n} block {block}"));
        }
    }

    let a = randn32(&mut rng, &[13, 7]);
    let at = a.transpose(0, 1).unwrap();
    let b = randn32(&mut rng, &[13, 5]);
    assert!(!at.is_contiguous());
    let want = matmul_naive(&at, &b).unwrap();
    for &block in &BLOCKS {
        assert_all_close(
            &matmul_blocked(&at, &b, block).unwrap(),
            &want,
            1e-4,
            &format!("strided A, block {block}"),
        );
    }

    let p: Tensor<f32> = Tensor::zeros(&[2, 3]);
    let q: Tensor<f32> = Tensor::zeros(&[4, 5]);
    assert!(matmul_blocked(&p, &q, 16).is_err());
}

#[test]
fn blocked_matches_naive_f64() {
    let mut rng = Rng::seed(22);

    for &(m, k, n) in &CASES {
        let a = randn64(&mut rng, &[m, k]);
        let b = randn64(&mut rng, &[k, n]);
        let want = matmul_naive(&a, &b).expect("the oracle");

        for &block in &BLOCKS {
            let got = matmul_blocked(&a, &b, block).expect("blocked");
            assert_all_close(&got, &want, 1e-10, &format!("f64 {m}x{k}x{n} block {block}"));
        }
    }

    let a = randn64(&mut rng, &[65, 129]);
    let b = randn64(&mut rng, &[129, 33]);
    let b16 = matmul_blocked(&a, &b, 16).unwrap();
    let b64 = matmul_blocked(&a, &b, 64).unwrap();
    assert_all_close(&b16, &b64, 1e-10, "block 16 against block 64");
}

// ---------------------------------------------------------------------------
// The row-band split
// ---------------------------------------------------------------------------

#[test]
fn parallel_matches_blocked() {
    let mut rng = Rng::seed(80_808);

    let shapes = [(1, 1, 1), (7, 13, 5), (64, 64, 64), (129, 257, 63), (10, 3, 7)];

    for &(m, k, n) in &shapes {
        let a = randn32(&mut rng, &[m, k]);
        let b = randn32(&mut rng, &[k, n]);

        for &block in &[8usize, 16, 32] {
            let want = matmul_blocked(&a, &b, block).expect("blocked reference");

            for &threads in &[1usize, 2, 4, 8] {
                let got = matmul_parallel(&a, &b, block, threads).unwrap_or_else(|e| {
                    panic!("parallel {m}x{k}x{n} block {block} threads {threads}: {e:?}")
                });

                assert_eq!(
                    got.shape(),
                    want.shape(),
                    "shape at {m}x{k}x{n}, block {block}, threads {threads}"
                );
                assert_eq!(
                    got.to_vec(),
                    want.to_vec(),
                    "not bit-identical at {m}x{k}x{n}, block {block}, threads {threads}"
                );
            }
        }
    }

    let base = randn32(&mut rng, &[13, 7]);
    let a_t = base.transpose(0, 1).expect("transpose");
    let b = randn32(&mut rng, &[13, 5]);
    let want = matmul_blocked(&a_t, &b, 16).expect("blocked on a strided input");
    let got = matmul_parallel(&a_t, &b, 16, 4).expect("parallel on a strided input");
    assert_eq!(got.to_vec(), want.to_vec(), "strided input, 4 threads");

    let bad = randn32(&mut rng, &[3, 3]);
    let good = randn32(&mut rng, &[4, 4]);
    assert!(
        matmul_parallel(&bad, &good, 8, 4).is_err(),
        "3x3 times 4x4 must be a shape error"
    );
}

#[test]
fn parallel_thread_count_invariant() {
    let mut rng = Rng::seed(1_008);

    let a = randn64(&mut rng, &[10, 6]);
    let b = randn64(&mut rng, &[6, 9]);

    let reference = matmul_parallel(&a, &b, 8, 1).expect("one thread");

    for &threads in &[1usize, 2, 4, 8, 10, 16] {
        let got = matmul_parallel(&a, &b, 8, threads)
            .unwrap_or_else(|e| panic!("threads {threads}: {e:?}"));

        assert_eq!(got.shape(), &[10, 9], "shape at threads {threads}");
        assert_eq!(got.to_vec(), reference.to_vec(), "output changed at threads {threads}");

        assert!(
            got.to_vec().iter().all(|v| *v != 0.0),
            "an output element is exactly 0.0 at threads {threads}: a row band was dropped"
        );
    }

    let a2 = randn64(&mut rng, &[97, 5]);
    let b2 = randn64(&mut rng, &[5, 11]);
    let r2 = matmul_parallel(&a2, &b2, 16, 1).expect("one thread, 97 rows");
    for &threads in &[2usize, 3, 4, 7, 8] {
        let got = matmul_parallel(&a2, &b2, 16, threads).expect("97 rows");
        assert_eq!(got.to_vec(), r2.to_vec(), "97 rows at threads {threads}");
    }
}

#[test]
fn parallel_empty_product() {
    let a: Tensor<f64> = Tensor::zeros(&[0, 3]);
    let b: Tensor<f64> = Tensor::zeros(&[3, 2]);
    let c = matmul_parallel(&a, &b, 8, 2).expect("an empty product is not an error");
    assert_eq!(c.shape(), &[0, 2]);
    assert_eq!(c.numel(), 0);
    assert_eq!(c.to_vec(), matmul_blocked(&a, &b, 8).unwrap().to_vec());
    assert!(matmul_parallel(&a, &b, 0, 2).is_err());
    assert!(matmul_parallel(&a, &b, 8, 0).is_err());
}
