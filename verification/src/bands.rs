//! The row-band split behind the parallel product.
//!
//! The rows of `C = A * B` are cut into consecutive bands of
//! `ceil(M / threads)` rows, the last band possibly shorter. Each band is one
//! call of `matmul_row_band` on shared read-only buffers, so the bands can
//! run on separate workers, and joining their outputs in band order gives
//! the product. A band computes every entry it owns in the inner-axis order
//! of the single-threaded kernel, so the split changes no result.
use vstd::prelude::*;
use vstd::arithmetic::div_mod::{lemma_fundamental_div_mod, lemma_fundamental_div_mod_converse};
use core::ops::{Add, Mul};
use crate::shape::{ShapeError, shape_fits};
use crate::tensor::Tensor;
use crate::matmul::{
    band_result,
    flat_row,
    flat_col,
    dot_rel,
    is_matmul,
    matmul_shapes_ok,
    matmul_shape_error,
    lemma_prod2,
};

verus! {

/// What the workers of a row-partitioned product share: both operands as
/// row-major buffers, the dimensions `[m, k] x [k, n]`, the tile side, and
/// the row bands, one per worker.
pub struct ParallelPlan<T> {
    pub a_data: Vec<T>,
    pub b_data: Vec<T>,
    pub m: usize,
    pub k: usize,
    pub n: usize,
    pub block: usize,
    pub bands: Vec<(usize, usize)>,
}

/// Rows per band when `m` rows are shared among `threads` workers:
/// `ceil(m / threads)`.
pub open spec fn rows_per_band(m: nat, threads: nat) -> nat {
    ((m + threads - 1) as int / threads as int) as nat
}

/// `bands` cuts the rows `0..m` into consecutive non-empty bands, in order.
pub open spec fn covers_rows(bands: Seq<(usize, usize)>, m: nat) -> bool {
    &&& bands.len() > 0
    &&& bands[0].0 == 0
    &&& bands.last().1 == m
    &&& forall|c: int| 0 <= c < bands.len() ==> #[trigger] bands[c].0 < bands[c].1
    &&& forall|c: int| 0 <= c < bands.len() - 1 ==> #[trigger] bands[c].1 == bands[c + 1].0
}

/// The bands of the parallel product: band `c` starts at row `c * rp` and
/// holds `rp` rows, except the last, which ends at row `m`.
pub open spec fn is_band_split(bands: Seq<(usize, usize)>, m: nat, rp: nat) -> bool {
    &&& covers_rows(bands, m)
    &&& forall|c: int| 0 <= c < bands.len() ==> #[trigger] bands[c].0 == c * rp
    &&& forall|c: int| 0 <= c < bands.len() ==> #[trigger] bands[c].1 <= bands[c].0 + rp
    &&& forall|c: int| 0 <= c < bands.len() - 1 ==> #[trigger] bands[c].1 == bands[c].0 + rp
}

/// The buffer an operand hands to the workers: its storage when it is
/// contiguous, its logical values otherwise.
pub open spec fn worker_buffer<T>(a: Tensor<T>) -> Seq<T> {
    if a.contiguous_layout() {
        a.storage()
    } else {
        a.values()
    }
}

/// `p` is the plan of the product of `a` and `b` with tile side `block`
/// shared among `threads` workers.
pub open spec fn is_plan_for<T>(
    a: Tensor<T>,
    b: Tensor<T>,
    block: usize,
    threads: usize,
    p: ParallelPlan<T>,
) -> bool {
    &&& matmul_shapes_ok(a, b)
    &&& block > 0
    &&& threads > 0
    &&& p.m == a.shape_view()[0]
    &&& p.k == a.shape_view()[1]
    &&& p.n == b.shape_view()[1]
    &&& p.block == block
    &&& shape_fits(seq![p.m, p.n])
    &&& p.a_data@ == worker_buffer(a)
    &&& p.b_data@ == worker_buffer(b)
    &&& if p.m > 0 && p.n > 0 {
        is_band_split(p.bands@, p.m as nat, rows_per_band(p.m as nat, threads as nat))
    } else {
        p.bands@.len() == 0
    }
}

/// The bands of an `m` by `n` output: consecutive non-empty bands covering
/// every row when the output has entries, and no band when it has none.
pub open spec fn splits_output(bands: Seq<(usize, usize)>, m: nat, n: nat) -> bool {
    if m > 0 && n > 0 {
        covers_rows(bands, m)
    } else {
        bands.len() == 0
    }
}

/// The outputs of the bands joined in band order.
pub open spec fn join_parts<T>(parts: Seq<Seq<T>>) -> Seq<T>
    decreases parts.len(),
{
    if parts.len() == 0 {
        Seq::empty()
    } else {
        join_parts(parts.drop_last()) + parts.last()
    }
}

/// The contents of each band output.
pub open spec fn part_views<T>(parts: Seq<Vec<T>>) -> Seq<Seq<T>> {
    parts.map_values(|v: Vec<T>| v@)
}

proof fn lemma_rows_per(m: int, t: int, q: int, r: int)
    requires
        m > 0,
        t > 0,
        q == m / t,
        r == m % t,
    ensures
        0 <= r < t,
        0 <= q,
        r > 0 ==> q < m,
        (if r == 0 { q } else { q + 1 }) == (m + t - 1) / t,
        0 < (if r == 0 { q } else { q + 1 }) <= m,
{
    lemma_fundamental_div_mod(m, t);
    vstd::arithmetic::div_mod::lemma_mod_pos_bound(m, t);
    assert(t * q == q * t) by (nonlinear_arith);
    assert(0 <= q) by (nonlinear_arith)
        requires
            m == q * t + r,
            0 <= r < t,
            m > 0,
            t > 0,
    ;
    assert(q <= q * t) by (nonlinear_arith)
        requires
            0 <= q,
            t >= 1,
    ;
    if r == 0 {
        lemma_fundamental_div_mod_converse(m + t - 1, t, q, t - 1);
        assert(q > 0) by (nonlinear_arith)
            requires
                m == q * t,
                m > 0,
                q >= 0,
        ;
    } else {
        assert((q + 1) * t == q * t + t) by (nonlinear_arith);
        lemma_fundamental_div_mod_converse(m + t - 1, t, q + 1, r - 1);
    }
}

/// `ceil(m / threads)`, computed without overflow.
fn rows_per(m: usize, threads: usize) -> (rp: usize)
    requires
        m > 0,
        threads > 0,
    ensures
        rp == rows_per_band(m as nat, threads as nat),
        0 < rp <= m,
{
    let q = m / threads;
    let r = m % threads;
    proof {
        lemma_rows_per(m as int, threads as int, q as int, r as int);
    }
    if r == 0 {
        q
    } else {
        q + 1
    }
}

/// Cut the rows `0..m` into bands of `rp` rows, the last one possibly shorter.
fn split_rows(m: usize, rp: usize) -> (bands: Vec<(usize, usize)>)
    requires
        0 < rp <= m,
    ensures
        is_band_split(bands@, m as nat, rp as nat),
{
    let mut bands: Vec<(usize, usize)> = Vec::new();
    let mut start: usize = 0;
    proof {
        assert(0 * (rp as int) == 0) by (nonlinear_arith);
    }
    while start < m
        invariant
            0 < rp <= m,
            start <= m,
            start < m ==> start as int == bands@.len() * rp,
            bands@.len() == 0 ==> start == 0,
            bands@.len() > 0 ==> bands@.last().1 == start,
            bands@.len() > 0 ==> bands@[0].0 == 0,
            bands@.len() > 0 && start < m ==> bands@.last().1 == bands@.last().0 + rp,
            forall|c: int|
                0 <= c < bands@.len() ==> #[trigger] bands@[c].0 == c * rp && bands@[c].0
                    < bands@[c].1 && bands@[c].1 <= bands@[c].0 + rp,
            forall|c: int|
                0 <= c < bands@.len() - 1 ==> #[trigger] bands@[c].1 == bands@[c + 1].0
                    && bands@[c].1 == bands@[c].0 + rp,
        decreases m - start,
    {
        let end = if rp < m - start {
            start + rp
        } else {
            m
        };
        let ghost len = bands@.len() as int;
        let ghost old_bands = bands@;
        bands.push((start, end));
        proof {
            assert((len + 1) * rp == len * rp + rp) by (nonlinear_arith);
            assert forall|c: int| 0 <= c < bands@.len() - 1 implies #[trigger] bands@[c].1
                == bands@[c + 1].0 && bands@[c].1 == bands@[c].0 + rp by {
                if c < len - 1 {
                    assert(bands@[c] == old_bands[c]);
                    assert(bands@[c + 1] == old_bands[c + 1]);
                } else {
                    assert(c == len - 1);
                    assert(bands@[c] == old_bands.last());
                }
            }
        }
        start = end;
    }
    bands
}

/// A copy of a buffer.
fn copy_values<T: Copy>(s: &[T]) -> (v: Vec<T>)
    ensures
        v@ == s@,
{
    let mut v: Vec<T> = Vec::new();
    let mut i: usize = 0;
    while i < s.len()
        invariant
            i <= s@.len(),
            v@ == s@.take(i as int),
        decreases s.len() - i,
    {
        v.push(s[i]);
        i = i + 1;
        assert(v@ =~= s@.take(i as int));
    }
    assert(s@.take(s@.len() as int) =~= s@);
    v
}

/// Plan the row-partitioned product `[M, K] x [K, N] -> [M, N]` for
/// `threads` workers.
///
/// The rows of the output go to bands of `ceil(M / threads)` rows, so
/// fewer bands than `threads` are made when `M` is small. Each operand is
/// handed over as its buffer when it is contiguous, and as its logical
/// values when it is a strided view.
///
/// The shape checks are those of `matmul_blocked`, then `threads == 0`
/// returns `SizeMismatch`; every other input is planned. An empty output
/// (`M == 0` or `N == 0`) gets no band, and joining no band outputs gives
/// the empty `[M, N]` product.
pub fn plan_parallel<T: Copy>(a: &Tensor<T>, b: &Tensor<T>, block: usize, threads: usize) -> (r:
    Result<ParallelPlan<T>, ShapeError>)
    requires
        a.wf(),
        b.wf(),
        matmul_shapes_ok(*a, *b) ==> shape_fits(seq![a.shape_view()[0], b.shape_view()[1]]),
    ensures
        match r {
            Ok(p) => is_plan_for(*a, *b, block, threads, p),
            Err(e) => {
                ||| !matmul_shapes_ok(*a, *b) && matmul_shape_error(*a, *b, e)
                ||| matmul_shapes_ok(*a, *b) && block == 0 && e == ShapeError::SizeMismatch
                ||| matmul_shapes_ok(*a, *b) && block > 0 && threads == 0 && e
                    == ShapeError::SizeMismatch
            },
        },
{
    if a.shape().len() != 2 {
        return Err(ShapeError::BadRank { got: a.shape().len(), want: 2 });
    }
    if b.shape().len() != 2 {
        return Err(ShapeError::BadRank { got: b.shape().len(), want: 2 });
    }
    if a.shape()[1] != b.shape()[0] {
        return Err(ShapeError::SizeMismatch);
    }
    if block == 0 {
        return Err(ShapeError::SizeMismatch);
    }
    if threads == 0 {
        return Err(ShapeError::SizeMismatch);
    }
    let m = a.shape()[0];
    let k = a.shape()[1];
    let n = b.shape()[1];
    let a_data = if a.is_contiguous() {
        copy_values(a.as_slice())
    } else {
        a.to_vec()
    };
    let b_data = if b.is_contiguous() {
        copy_values(b.as_slice())
    } else {
        b.to_vec()
    };
    let bands = if m > 0 && n > 0 {
        let rp = rows_per(m, threads);
        split_rows(m, rp)
    } else {
        Vec::new()
    };
    Ok(ParallelPlan { a_data, b_data, m, k, n, block, bands })
}

/// Join the outputs of the row bands, in band order, into the `[m, n]`
/// product tensor. `parts[c]` holds the rows of band `c`, row-major.
pub fn assemble_bands<T: Copy>(plan: &ParallelPlan<T>, parts: Vec<Vec<T>>) -> (c: Tensor<T>)
    requires
        shape_fits(seq![plan.m, plan.n]),
        splits_output(plan.bands@, plan.m as nat, plan.n as nat),
        parts@.len() == plan.bands@.len(),
        forall|i: int|
            0 <= i < parts@.len() ==> (#[trigger] parts@[i])@.len() == (plan.bands@[i].1
                - plan.bands@[i].0) * plan.n,
    ensures
        c.wf(),
        c.shape_view() == seq![plan.m, plan.n],
        c.contiguous_layout(),
        c.storage() == join_parts(part_views(parts@)),
{
    let ghost views = part_views(parts@);
    let ghost bands = plan.bands@;
    let ghost n = plan.n as int;
    let nparts = parts.len();
    if nparts == 0 {
        // No band: the output has no entries.
        let empty: Vec<T> = Vec::new();
        proof {
            lemma_prod2(plan.m, plan.n);
            assert(plan.m == 0 || plan.n == 0);
            assert(plan.m as int * plan.n as int == 0) by (nonlinear_arith)
                requires
                    plan.m == 0 || plan.n == 0,
            ;
            assert(views =~= Seq::<Seq<T>>::empty());
            assert(join_parts(views) =~= empty@);
        }
        let shape = crate::matmul::index2(plan.m, plan.n);
        return Tensor::from_vec(empty, shape.as_slice());
    }
    proof {
        assert(covers_rows(bands, plan.m as nat));
    }
    let mut out: Vec<T> = Vec::new();
    let mut c: usize = 0;
    while c < nparts
        invariant
            nparts == parts@.len(),
            nparts == bands.len(),
            bands == plan.bands@,
            n == plan.n,
            views == part_views(parts@),
            covers_rows(bands, plan.m as nat),
            forall|i: int|
                0 <= i < parts@.len() ==> (#[trigger] parts@[i])@.len() == (bands[i].1
                    - bands[i].0) * n,
            c <= nparts,
            out@ == join_parts(views.take(c as int)),
            out@.len() == (if c < nparts {
                bands[c as int].0 as int
            } else {
                plan.m as int
            }) * n,
        decreases nparts - c,
    {
        let part = &parts[c];
        let ghost before = out@;
        let mut q: usize = 0;
        while q < part.len()
            invariant
                q <= part@.len(),
                out@ == before + part@.take(q as int),
            decreases part.len() - q,
        {
            out.push(part[q]);
            q = q + 1;
            assert(out@ =~= before + part@.take(q as int));
        }
        proof {
            let ci = c as int;
            assert(part@.take(part@.len() as int) =~= part@);
            assert(views.take(ci + 1).drop_last() =~= views.take(ci));
            assert(views[ci] == part@);
            assert(views.take(ci + 1).last() == part@);
            let s = bands[ci].0 as int;
            let e = bands[ci].1 as int;
            assert(s * n + (e - s) * n == e * n) by (nonlinear_arith);
            if ci + 1 < nparts {
                assert(bands[ci].1 == bands[ci + 1].0);
            } else {
                assert(bands[ci] == bands.last());
            }
        }
        c = c + 1;
    }
    proof {
        assert(views.take(nparts as int) =~= views);
        lemma_prod2(plan.m, plan.n);
    }
    let shape = crate::matmul::index2(plan.m, plan.n);
    Tensor::from_vec(out, shape.as_slice())
}

/// Two adjacent row bands of a product make one band.
proof fn lemma_band_concat<T: Add<Output = T> + Mul<Output = T>>(
    da: Seq<T>,
    db: Seq<T>,
    k: int,
    n: int,
    s: int,
    mid: int,
    e: int,
    z: T,
    x: Seq<T>,
    y: Seq<T>,
)
    requires
        s <= mid <= e,
        n >= 0,
        band_result(da, db, k, n, s, mid, z, x),
        band_result(da, db, k, n, mid, e, z, y),
    ensures
        band_result(da, db, k, n, s, e, z, x + y),
{
    let xy = x + y;
    assert((mid - s) * n + (e - mid) * n == (e - s) * n) by (nonlinear_arith);
    assert forall|r: int, j: int| 0 <= r < e - s && 0 <= j < n implies dot_rel(
        z,
        flat_row(da, k, s + r),
        flat_col(db, k, n, j),
        #[trigger] xy[r * n + j],
    ) by {
        if r < mid - s {
            assert(r * n + j < (mid - s) * n) by (nonlinear_arith)
                requires
                    0 <= r < mid - s,
                    0 <= j < n,
            ;
            assert(r * n + j >= 0) by (nonlinear_arith)
                requires
                    0 <= r,
                    0 <= j,
                    n >= 0,
            ;
            assert(xy[r * n + j] == x[r * n + j]);
        } else {
            let r2 = r - (mid - s);
            assert(r * n + j == (mid - s) * n + (r2 * n + j)) by (nonlinear_arith)
                requires
                    r2 == r - (mid - s),
            ;
            assert(0 <= r2 * n + j < (e - mid) * n) by (nonlinear_arith)
                requires
                    0 <= r2 < e - mid,
                    0 <= j < n,
            ;
            assert(xy[r * n + j] == y[r2 * n + j]);
            assert(mid + r2 == s + r);
        }
    }
}

/// The joined outputs of the first `i` bands are the rows from 0 up to the
/// end of band `i - 1`.
proof fn lemma_join_bands<T: Add<Output = T> + Mul<Output = T>>(
    da: Seq<T>,
    db: Seq<T>,
    k: int,
    n: int,
    bands: Seq<(usize, usize)>,
    m: nat,
    z: T,
    parts: Seq<Seq<T>>,
    i: int,
)
    requires
        covers_rows(bands, m),
        parts.len() == bands.len(),
        0 <= i <= parts.len(),
        n >= 0,
        forall|x: int|
            0 <= x < parts.len() ==> band_result(
                da,
                db,
                k,
                n,
                bands[x].0 as int,
                bands[x].1 as int,
                z,
                #[trigger] parts[x],
            ),
    ensures
        band_result(
            da,
            db,
            k,
            n,
            0,
            if i == 0 {
                0
            } else {
                bands[i - 1].1 as int
            },
            z,
            join_parts(parts.take(i)),
        ),
    decreases i,
{
    if i == 0 {
        assert(parts.take(0) =~= Seq::<Seq<T>>::empty());
        assert(join_parts(parts.take(0)).len() == 0);
    } else {
        lemma_join_bands(da, db, k, n, bands, m, z, parts, i - 1);
        let prev = if i - 1 == 0 {
            0
        } else {
            bands[i - 2].1 as int
        };
        if i - 1 > 0 {
            assert(bands[i - 2].1 == bands[i - 2 + 1].0);
        }
        assert(prev == bands[i - 1].0);
        assert(parts.take(i).drop_last() =~= parts.take(i - 1));
        assert(parts.take(i).last() == parts[i - 1]);
        assert(bands[i - 1].0 < bands[i - 1].1);
        lemma_band_concat(
            da,
            db,
            k,
            n,
            0,
            prev,
            bands[i - 1].1 as int,
            z,
            join_parts(parts.take(i - 1)),
            parts[i - 1],
        );
    }
}

/// Running `matmul_row_band` on every band of a plan and joining the
/// outputs in band order gives the product of the planned operands: a row
/// partition leaves the order in which each entry sums its terms unchanged,
/// so the split product is the single-threaded one, entry for entry.
pub proof fn law_bands_make_product<T: Add<Output = T> + Mul<Output = T>>(
    a: Tensor<T>,
    b: Tensor<T>,
    block: usize,
    threads: usize,
    p: ParallelPlan<T>,
    parts: Seq<Seq<T>>,
    z: T,
    c: Tensor<T>,
)
    requires
        a.wf(),
        b.wf(),
        is_plan_for(a, b, block, threads, p),
        parts.len() == p.bands@.len(),
        forall|i: int|
            0 <= i < parts.len() ==> band_result(
                p.a_data@,
                p.b_data@,
                p.k as int,
                p.n as int,
                p.bands@[i].0 as int,
                p.bands@[i].1 as int,
                z,
                #[trigger] parts[i],
            ),
        c.wf(),
        c.contiguous_layout(),
        c.shape_view() == seq![p.m, p.n],
        c.storage() == join_parts(parts),
    ensures
        is_matmul(a, b, z, c),
{
    if a.contiguous_layout() {
        crate::matmul::lemma_contiguous_holds_matrix(a);
    } else {
        crate::matmul::lemma_values_hold_matrix(a);
    }
    if b.contiguous_layout() {
        crate::matmul::lemma_contiguous_holds_matrix(b);
    } else {
        crate::matmul::lemma_values_hold_matrix(b);
    }
    // An empty output has no entry to state; otherwise join the bands.
    if p.m > 0 && p.n > 0 {
        let bands = p.bands@;
        lemma_join_bands(
            p.a_data@,
            p.b_data@,
            p.k as int,
            p.n as int,
            bands,
            p.m as nat,
            z,
            parts,
            parts.len() as int,
        );
        assert(parts.take(parts.len() as int) =~= parts);
        assert(bands[parts.len() - 1] == bands.last());
        crate::matmul::lemma_product_from_buffer(a, b, z, p.a_data@, p.b_data@, join_parts(parts), c);
    }
}

/// With deterministic arithmetic the split product is bit-identical to any
/// other product of the same operands, the blocked kernel's among them,
/// whatever the number of workers.
pub proof fn law_parallel_matches_blocked<T: Default + Add<Output = T> + Mul<Output = T>>(
    a: Tensor<T>,
    b: Tensor<T>,
    block: usize,
    threads: usize,
    p: ParallelPlan<T>,
    parts: Seq<Seq<T>>,
    z: T,
    c: Tensor<T>,
    z2: T,
    d: Tensor<T>,
)
    requires
        crate::matmul::ops_deterministic::<T>(),
        a.wf(),
        b.wf(),
        is_plan_for(a, b, block, threads, p),
        parts.len() == p.bands@.len(),
        forall|i: int|
            0 <= i < parts.len() ==> band_result(
                p.a_data@,
                p.b_data@,
                p.k as int,
                p.n as int,
                p.bands@[i].0 as int,
                p.bands@[i].1 as int,
                z,
                #[trigger] parts[i],
            ),
        call_ensures(T::default, (), z),
        c.wf(),
        c.contiguous_layout(),
        c.shape_view() == seq![p.m, p.n],
        c.storage() == join_parts(parts),
        call_ensures(T::default, (), z2),
        is_matmul(a, b, z2, d),
    ensures
        c.shape_view() == d.shape_view(),
        c.values() == d.values(),
{
    law_bands_make_product(a, b, block, threads, p, parts, z, c);
    crate::matmul::law_matmul_unique(a, b, z, c, z2, d);
}

/// The rows per band of a plan is the ceiling of `m / threads`: with `rp`
/// the first band's row count, `rp * threads >= m` and
/// `(rp - 1) * threads < m`. Every band but the last holds `rp` rows, the
/// last at most `rp`, and no more bands are made than workers requested.
pub proof fn law_bands_rows_are_ceiling<T>(
    a: Tensor<T>,
    b: Tensor<T>,
    block: usize,
    threads: usize,
    p: ParallelPlan<T>,
)
    requires
        is_plan_for(a, b, block, threads, p),
        p.m > 0,
        p.n > 0,
    ensures
        ({
            let rp = p.bands@[0].1 - p.bands@[0].0;
            &&& rp * threads >= p.m
            &&& (rp - 1) * threads < p.m
            &&& p.bands@.len() <= threads
            &&& forall|c: int|
                0 <= c < p.bands@.len() - 1 ==> #[trigger] p.bands@[c].1 - p.bands@[c].0 == rp
            &&& forall|c: int|
                0 <= c < p.bands@.len() ==> #[trigger] p.bands@[c].1 - p.bands@[c].0 <= rp
        }),
{
    let m = p.m as int;
    let t = threads as int;
    let bands = p.bands@;
    let rp = rows_per_band(p.m as nat, threads as nat) as int;
    let q = (m + t - 1) / t;
    let r = (m + t - 1) % t;
    lemma_fundamental_div_mod(m + t - 1, t);
    vstd::arithmetic::div_mod::lemma_mod_pos_bound(m + t - 1, t);
    assert(q == rp);
    assert(t * q == q * t) by (nonlinear_arith);
    assert(q * t >= m);
    assert((q - 1) * t == q * t - t) by (nonlinear_arith);
    assert((q - 1) * t < m);
    assert(q >= 1) by (nonlinear_arith)
        requires
            q * t >= m,
            m > 0,
            t > 0,
    ;
    // The first band: rows 0 .. min(rp, m), and rp <= m.
    assert(q <= m) by (nonlinear_arith)
        requires
            (q - 1) * t < m,
            t >= 1,
            q >= 1,
    ;
    assert(bands[0].0 == 0 * rp);
    assert(0 * rp == 0) by (nonlinear_arith);
    if bands.len() > 1 {
        assert(bands[0].1 == bands[0].0 + rp);
    } else {
        assert(bands[0] == bands.last());
        assert(bands[0].1 <= bands[0].0 + rp);
    }
    let l = bands.len() as int;
    assert(bands[l - 1].0 == (l - 1) * rp);
    assert(bands[l - 1].0 < bands[l - 1].1);
    assert(bands[l - 1] == bands.last());
    assert(l <= t) by (nonlinear_arith)
        requires
            (l - 1) * rp < m,
            rp * t >= m,
            rp >= 1,
            l >= 1,
    ;
    if bands.len() == 1 {
        assert(bands[0].1 == m);
        assert(rp * t >= m);
    }
}

} // verus!
