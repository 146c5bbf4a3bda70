//! Matrix products: the reference `matmul_naive`, the batched `matmul`, and
//! the cache-blocked kernel that `matmul_blocked` and the row-band split of
//! the parallel product run.
//!
//! Every output entry `c[i, j]` is stated as the exact chain of operations
//! that produces it: starting from zero, for `t = 0, 1, ..., K-1` in order,
//! multiply `a[i, t]` by `b[t, j]` with `T::mul` and add the product with
//! `T::add` (the relation `dot_rel`). The blocked kernel visits the `K`
//! axis tile by tile, but each entry still sees its terms in that order, so
//! it satisfies the same relation as the reference.
use vstd::prelude::*;
use vstd::std_specs::ops::{AddSpec, MulSpec};
use vstd::arithmetic::div_mod::lemma_fundamental_div_mod_converse;
use core::ops::{Add, Mul};
use crate::shape::{ShapeError, prod, shape_fits, valid_index, ravel, unravel, lemma_fits_prods, dot, all_positive};
use crate::tensor::Tensor;
use crate::reduce::{add_total, add_deterministic, default_deterministic};

verus! {

/// Multiplication on `T` never fails: true of float multiplication, not of
/// the machine integers, whose multiplication can overflow.
pub open spec fn mul_total<T: Mul<Output = T>>() -> bool {
    forall|x: T, y: T| #[trigger] x.mul_req(y)
}

/// `r` is `init + xs[0]*ys[0] + xs[1]*ys[1] + ...`, each product a call of
/// `T::mul` and the products added left to right with `T::add`.
pub open spec fn dot_rel<T: Add<Output = T> + Mul<Output = T>>(
    init: T,
    xs: Seq<T>,
    ys: Seq<T>,
    r: T,
) -> bool
    decreases xs.len(),
{
    if xs.len() == 0 {
        r == init
    } else {
        exists|s: T, p: T|
            dot_rel(init, xs.drop_last(), ys.drop_last(), s) && call_ensures(
                T::mul,
                (xs.last(), ys.last()),
                p,
            ) && #[trigger] call_ensures(T::add, (s, p), r)
    }
}

/// Entry `[i, j]` of a rank-2 tensor.
pub open spec fn at2<T>(c: Tensor<T>, i: int, j: int) -> T {
    c.at(seq![i as usize, j as usize])
}

/// Row `i` of a rank-2 tensor.
pub open spec fn row_of<T>(a: Tensor<T>, i: int) -> Seq<T> {
    Seq::new(a.shape_view()[1] as nat, |t: int| a.at(seq![i as usize, t as usize]))
}

/// Column `j` of a rank-2 tensor.
pub open spec fn col_of<T>(b: Tensor<T>, j: int) -> Seq<T> {
    Seq::new(b.shape_view()[0] as nat, |t: int| b.at(seq![t as usize, j as usize]))
}

/// `c` is the matrix product of the rank-2 tensors `a` and `b`, each entry
/// accumulated from `z` in the order of the inner axis.
pub open spec fn is_matmul<T: Add<Output = T> + Mul<Output = T>>(
    a: Tensor<T>,
    b: Tensor<T>,
    z: T,
    c: Tensor<T>,
) -> bool {
    let m = a.shape_view()[0];
    let n = b.shape_view()[1];
    &&& c.shape_view() == seq![m, n]
    &&& forall|i: int, j: int|
        0 <= i < m && 0 <= j < n ==> dot_rel(z, row_of(a, i), col_of(b, j), #[trigger] at2(c, i, j))
}

/// The shape checks that every rank-2 product makes, in order: `a` has rank
/// 2, `b` has rank 2, and the inner dimensions agree.
pub open spec fn matmul_shape_error<T>(a: Tensor<T>, b: Tensor<T>, e: ShapeError) -> bool {
    ||| a.rank() != 2 && e == (ShapeError::BadRank { got: a.rank() as usize, want: 2 })
    ||| a.rank() == 2 && b.rank() != 2 && e == (ShapeError::BadRank {
        got: b.rank() as usize,
        want: 2,
    })
    ||| a.rank() == 2 && b.rank() == 2 && a.shape_view()[1] != b.shape_view()[0] && e
        == ShapeError::SizeMismatch
}

/// Both tensors are matrices with agreeing inner dimensions.
pub open spec fn matmul_shapes_ok<T>(a: Tensor<T>, b: Tensor<T>) -> bool {
    a.rank() == 2 && b.rank() == 2 && a.shape_view()[1] == b.shape_view()[0]
}

/// One more term extends a dot product.
proof fn lemma_dot_rel_step<T: Add<Output = T> + Mul<Output = T>>(
    init: T,
    xs: Seq<T>,
    ys: Seq<T>,
    t: int,
    acc: T,
    p: T,
    next: T,
)
    requires
        0 <= t < xs.len(),
        xs.len() == ys.len(),
        dot_rel(init, xs.take(t), ys.take(t), acc),
        call_ensures(T::mul, (xs[t], ys[t]), p),
        call_ensures(T::add, (acc, p), next),
    ensures
        dot_rel(init, xs.take(t + 1), ys.take(t + 1), next),
{
    let xs1 = xs.take(t + 1);
    let ys1 = ys.take(t + 1);
    assert(xs1.drop_last() =~= xs.take(t));
    assert(ys1.drop_last() =~= ys.take(t));
    assert(xs1.last() == xs[t]);
    assert(ys1.last() == ys[t]);
    assert(dot_rel(init, xs1.drop_last(), ys1.drop_last(), acc) && call_ensures(
        T::mul,
        (xs1.last(), ys1.last()),
        p,
    ) && call_ensures(T::add, (acc, p), next));
}

/// The index `[i, j]`.
pub(crate) fn index2(i: usize, j: usize) -> (v: Vec<usize>)
    ensures
        v@ == seq![i, j],
{
    let mut v: Vec<usize> = Vec::new();
    v.push(i);
    v.push(j);
    assert(v@ =~= seq![i, j]);
    v
}

/// Position `r * n + c` of an `m` by `n` row-major buffer lies inside it.
proof fn lemma_row_major_pos(r: int, c: int, m: int, n: int)
    requires
        0 <= r < m,
        0 <= c < n,
    ensures
        0 <= r * n + c < m * n,
        r * n + n <= m * n,
{
    assert(r * n >= 0) by (nonlinear_arith)
        requires
            0 <= r,
            0 <= n,
    ;
    assert((r + 1) * n <= m * n) by (nonlinear_arith)
        requires
            0 <= r + 1 <= m,
            0 <= n,
    ;
    assert((r + 1) * n == r * n + n) by (nonlinear_arith);
}

/// Different `(r, c)` pairs with `c < n` have different positions `r * n + c`.
proof fn lemma_row_major_distinct(r: int, c: int, r2: int, c2: int, n: int)
    requires
        0 <= r,
        0 <= r2,
        0 <= c < n,
        0 <= c2 < n,
        r != r2 || c != c2,
    ensures
        r * n + c != r2 * n + c2,
{
    if r * n + c == r2 * n + c2 {
        lemma_fundamental_div_mod_converse(r * n + c, n, r, c);
        lemma_fundamental_div_mod_converse(r * n + c, n, r2, c2);
    }
}

/// The element count of an `m` by `n` shape.
pub proof fn lemma_prod2(m: usize, n: usize)
    ensures
        prod(seq![m, n]) == m * n,
{
    let s = seq![m, n];
    assert(s.drop_last() =~= seq![m]);
    assert(seq![m].drop_last() =~= Seq::<usize>::empty());
    assert(seq![m].last() == m);
    assert(prod(Seq::<usize>::empty()) == 1);
    assert(prod(seq![m]) == 1 * m);
    assert(prod(s) == prod(seq![m]) * n);
}

/// The row-major position of `[i, j]`.
pub proof fn lemma_ravel2(i: usize, j: usize, sh: Seq<usize>)
    requires
        sh.len() == 2,
    ensures
        ravel(seq![i, j], sh) == i * sh[1] + j,
{
    let idx = seq![i, j];
    assert(idx.drop_last() =~= seq![i]);
    assert(sh.drop_last() =~= seq![sh[0]]);
    assert(seq![i].drop_last() =~= Seq::<usize>::empty());
    assert(seq![sh[0]].drop_last() =~= Seq::<usize>::empty());
    assert(seq![i].last() == i);
    assert(seq![sh[0]].last() == sh[0]);
    assert(ravel(Seq::<usize>::empty(), Seq::<usize>::empty()) == 0);
    assert(ravel(seq![i], seq![sh[0]]) == 0 * sh[0] + i);
    assert(0 * sh[0] == 0);
    assert(ravel(idx, sh) == ravel(seq![i], seq![sh[0]]) * sh[1] + j);
}

/// Element `[i, j]` of a contiguous `m` by `n` tensor is buffer entry `i * n + j`.
proof fn lemma_at2_contiguous<T>(c: Tensor<T>, i: int, j: int)
    requires
        c.wf(),
        c.contiguous_layout(),
        c.rank() == 2,
        0 <= i < c.shape_view()[0],
        0 <= j < c.shape_view()[1],
    ensures
        c.at(seq![i as usize, j as usize]) == c.storage()[i * c.shape_view()[1] + j],
{
    let idx = seq![i as usize, j as usize];
    let sh = c.shape_view();
    assert(valid_index(idx, sh));
    c.lemma_contiguous_values();
    lemma_ravel2(i as usize, j as usize, sh);
}

/// Reference implementation: the textbook triple loop. Rank 2 only.
///
/// `c[i, j]` starts at zero (`T::default()`) and accumulates
/// `a[i, t] * b[t, j]` for `t = 0..K` in order. Returns `Err(BadRank)` when
/// an input is not a matrix (`a` is checked first) and `Err(SizeMismatch)`
/// when the inner dimensions differ.
pub fn matmul_naive<T: Copy + Default + Add<Output = T> + Mul<Output = T>>(
    a: &Tensor<T>,
    b: &Tensor<T>,
) -> (r: Result<Tensor<T>, ShapeError>)
    requires
        a.wf(),
        b.wf(),
        add_total::<T>(),
        mul_total::<T>(),
        matmul_shapes_ok(*a, *b) ==> shape_fits(seq![a.shape_view()[0], b.shape_view()[1]]),
    ensures
        match r {
            Ok(c) => {
                &&& matmul_shapes_ok(*a, *b)
                &&& c.wf()
                &&& c.shape_view() == seq![a.shape_view()[0], b.shape_view()[1]]
                &&& c.contiguous_layout()
                &&& exists|z: T| call_ensures(T::default, (), z) && is_matmul(*a, *b, z, c)
            },
            Err(e) => !matmul_shapes_ok(*a, *b) && matmul_shape_error(*a, *b, e),
        },
{
    if a.shape().len() != 2 {
        return Err(ShapeError::BadRank { got: a.shape().len(), want: 2 });
    }
    if b.shape().len() != 2 {
        return Err(ShapeError::BadRank { got: b.shape().len(), want: 2 });
    }
    if a.shape()[1] != b.shape()[0] {
        return Err(ShapeError::SizeMismatch);
    }
    let m = a.shape()[0];
    let n = b.shape()[1];
    let k = a.shape()[1];
    let ghost out_shape = seq![m, n];
    proof {
        lemma_fits_prods(out_shape);
        lemma_prod2(m, n);
        assert(out_shape.take(2) =~= out_shape);
    }
    let zero = T::default();
    let total = m * n;
    let mut out: Vec<T> = Vec::new();
    let mut p: usize = 0;
    while p < total
        invariant
            p <= total,
            out@.len() == p,
            forall|q: int| 0 <= q < p ==> #[trigger] out@[q] == zero,
        decreases total - p,
    {
        out.push(zero);
        p = p + 1;
    }
    let mut i: usize = 0;
    while i < m
        invariant
            i <= m,
            matmul_shapes_ok(*a, *b),
            m == a.shape_view()[0],
            n == b.shape_view()[1],
            k == a.shape_view()[1],
            total == m * n,
            a.wf(),
            b.wf(),
            add_total::<T>(),
            mul_total::<T>(),
            out@.len() == total,
            forall|i2: int, j2: int|
                0 <= i2 < i && 0 <= j2 < n ==> dot_rel(
                    zero,
                    row_of(*a, i2),
                    col_of(*b, j2),
                    #[trigger] out@[i2 * n + j2],
                ),
        decreases m - i,
    {
        let mut j: usize = 0;
        while j < n
            invariant
                i < m,
                j <= n,
                matmul_shapes_ok(*a, *b),
                m == a.shape_view()[0],
                n == b.shape_view()[1],
                k == a.shape_view()[1],
                total == m * n,
                a.wf(),
                b.wf(),
                add_total::<T>(),
                mul_total::<T>(),
                out@.len() == total,
                forall|i2: int, j2: int|
                    (0 <= i2 < i && 0 <= j2 < n) || (i2 == i && 0 <= j2 < j) ==> dot_rel(
                        zero,
                        row_of(*a, i2),
                        col_of(*b, j2),
                        #[trigger] out@[i2 * n + j2],
                    ),
            decreases n - j,
        {
            let ghost row = row_of(*a, i as int);
            let ghost col = col_of(*b, j as int);
            let mut sum = zero;
            let mut kk: usize = 0;
            assert(row.take(0) =~= Seq::<T>::empty());
            assert(col.take(0) =~= Seq::<T>::empty());
            while kk < k
                invariant
                    i < m,
                    j < n,
                    kk <= k,
                    matmul_shapes_ok(*a, *b),
                    m == a.shape_view()[0],
                    n == b.shape_view()[1],
                    k == a.shape_view()[1],
                    a.wf(),
                    b.wf(),
                    add_total::<T>(),
                    mul_total::<T>(),
                    row == row_of(*a, i as int),
                    col == col_of(*b, j as int),
                    dot_rel(zero, row.take(kk as int), col.take(kk as int), sum),
                decreases k - kk,
            {
                let ia = index2(i, kk);
                let ib = index2(kk, j);
                let x = a.get(ia.as_slice());
                let y = b.get(ib.as_slice());
                let prod_xy = x * y;
                let next = sum + prod_xy;
                proof {
                    lemma_dot_rel_step(zero, row, col, kk as int, sum, prod_xy, next);
                }
                sum = next;
                kk = kk + 1;
            }
            assert(row.take(k as int) =~= row);
            assert(col.take(k as int) =~= col);
            proof {
                lemma_row_major_pos(i as int, j as int, m as int, n as int);
            }
            let pos = i * n + j;
            out.set(pos, sum);
            proof {
                assert forall|i2: int, j2: int|
                    (0 <= i2 < i && 0 <= j2 < n) || (i2 == i && 0 <= j2 < j + 1) implies dot_rel(
                        zero,
                        row_of(*a, i2),
                        col_of(*b, j2),
                        #[trigger] out@[i2 * n + j2],
                    ) by {
                    lemma_row_major_pos(i2, j2, m as int, n as int);
                    if i2 != i || j2 != j {
                        lemma_row_major_distinct(i2, j2, i as int, j as int, n as int);
                    }
                }
            }
            j = j + 1;
        }
        i = i + 1;
    }
    let shape = index2(m, n);
    let c = Tensor::from_vec(out, shape.as_slice());
    proof {
        assert forall|i2: int, j2: int|
            0 <= i2 < m && 0 <= j2 < n implies dot_rel(
                zero,
                row_of(*a, i2),
                col_of(*b, j2),
                #[trigger] at2(c, i2, j2),
            ) by {
            lemma_at2_contiguous(c, i2, j2);
            assert(c.storage()[i2 * n + j2] == out@[i2 * n + j2]);
        }
        assert(is_matmul(*a, *b, zero, c));
    }
    Ok(c)
}

// ---------------------------------------------------------------------------
// The blocked kernel over row-major buffers
// ---------------------------------------------------------------------------

/// Row `i` of a row-major buffer with `k` columns.
pub open spec fn flat_row<T>(a: Seq<T>, k: int, i: int) -> Seq<T> {
    Seq::new(k as nat, |t: int| a[i * k + t])
}

/// Column `j` of a row-major buffer with `k` rows and `n` columns.
pub open spec fn flat_col<T>(b: Seq<T>, k: int, n: int, j: int) -> Seq<T> {
    Seq::new(k as nat, |t: int| b[t * n + j])
}

/// Entry `(r, j)` of a row band starting at row `rs` holds the first `c`
/// terms of its dot product.
pub open spec fn band_entry<T: Add<Output = T> + Mul<Output = T>>(
    a: Seq<T>,
    b: Seq<T>,
    k: int,
    n: int,
    rs: int,
    z: T,
    r: int,
    j: int,
    c: int,
    v: T,
) -> bool {
    dot_rel(z, flat_row(a, k, rs + r).take(c), flat_col(b, k, n, j).take(c), v)
}

/// Advance every entry of one tile of the output band, rows `i_lo..i_hi`,
/// columns `j_lo..j_hi`, by the terms `k_lo..k_hi` of its dot product.
fn tile_update<T: Copy + Add<Output = T> + Mul<Output = T>>(
    a: &[T],
    b: &[T],
    out: &mut Vec<T>,
    k: usize,
    n: usize,
    rs: usize,
    i_lo: usize,
    i_hi: usize,
    j_lo: usize,
    j_hi: usize,
    k_lo: usize,
    k_hi: usize,
    Ghost(z): Ghost<T>,
)
    requires
        rs <= i_lo <= i_hi,
        j_lo <= j_hi <= n,
        k_lo <= k_hi <= k,
        i_hi * k <= a@.len(),
        k * n <= b@.len(),
        (i_hi - rs) * n <= old(out)@.len(),
        add_total::<T>(),
        mul_total::<T>(),
        forall|r: int, j: int|
            i_lo <= rs + r < i_hi && j_lo <= j < j_hi ==> band_entry(
                a@,
                b@,
                k as int,
                n as int,
                rs as int,
                z,
                r,
                j,
                k_lo as int,
                #[trigger] old(out)@[r * n + j],
            ),
    ensures
        final(out)@.len() == old(out)@.len(),
        forall|r: int, j: int|
            i_lo <= rs + r < i_hi && j_lo <= j < j_hi ==> band_entry(
                a@,
                b@,
                k as int,
                n as int,
                rs as int,
                z,
                r,
                j,
                k_hi as int,
                #[trigger] final(out)@[r * n + j],
            ),
        forall|r: int, j: int|
            0 <= r && 0 <= j < n && r * n + j < old(out)@.len() && !(i_lo <= rs + r < i_hi && j_lo
                <= j < j_hi) ==> #[trigger] final(out)@[r * n + j] == old(out)@[r * n + j],
{
    let ghost out0 = out@;
    let alen = a.len();
    let blen = b.len();
    let olen = out.len();
    let ghost ki = k as int;
    let ghost ni = n as int;
    let ghost rsi = rs as int;
    let mut i: usize = i_lo;
    while i < i_hi
        invariant
            i_lo <= i <= i_hi,
            rs <= i_lo,
            j_lo <= j_hi <= n,
            k_lo <= k_hi <= k,
            i_hi * k <= a@.len(),
            k * n <= b@.len(),
            (i_hi - rs) * n <= out0.len(),
            out@.len() == out0.len(),
            ki == k,
            alen == a@.len(),
            blen == b@.len(),
            olen == out0.len(),
            ni == n,
            rsi == rs,
            add_total::<T>(),
            mul_total::<T>(),
            forall|r: int, j: int|
                i_lo <= rs + r < i_hi && j_lo <= j < j_hi ==> band_entry(
                    a@,
                    b@,
                    ki,
                    ni,
                    rsi,
                    z,
                    r,
                    j,
                    if rs + r < i { k_hi as int } else { k_lo as int },
                    #[trigger] out@[r * n + j],
                ),
            forall|r: int, j: int|
                0 <= r && 0 <= j < n && r * n + j < out0.len() && !(i_lo <= rs + r < i_hi && j_lo
                    <= j < j_hi) ==> #[trigger] out@[r * n + j] == out0[r * n + j],
        decreases i_hi - i,
    {
        let mut j: usize = j_lo;
        while j < j_hi
            invariant
                i_lo <= i < i_hi,
                j_lo <= j <= j_hi,
                rs <= i_lo,
                j_hi <= n,
                k_lo <= k_hi <= k,
                i_hi * k <= a@.len(),
                k * n <= b@.len(),
                (i_hi - rs) * n <= out0.len(),
                out@.len() == out0.len(),
                ki == k,
            alen == a@.len(),
            blen == b@.len(),
            olen == out0.len(),
                alen == a@.len(),
                blen == b@.len(),
                olen == out0.len(),
                ni == n,
                rsi == rs,
                add_total::<T>(),
                mul_total::<T>(),
                forall|r: int, jj: int|
                    i_lo <= rs + r < i_hi && j_lo <= jj < j_hi ==> band_entry(
                        a@,
                        b@,
                        ki,
                        ni,
                        rsi,
                        z,
                        r,
                        jj,
                        if rs + r < i || (rs + r == i && jj < j) {
                            k_hi as int
                        } else {
                            k_lo as int
                        },
                        #[trigger] out@[r * n + jj],
                    ),
                forall|r: int, jj: int|
                    0 <= r && 0 <= jj < n && r * n + jj < out0.len() && !(i_lo <= rs + r < i_hi
                        && j_lo <= jj < j_hi) ==> #[trigger] out@[r * n + jj] == out0[r * n + jj],
            decreases j_hi - j,
        {
            let r = i - rs;
            proof {
                lemma_row_major_pos(r as int, j as int, (i_hi - rs) as int, n as int);
            }
            let pos = r * n + j;
            let ghost row = flat_row(a@, ki, i as int);
            let ghost col = flat_col(b@, ki, ni, j as int);
            let mut sum = out[pos];
            assert(band_entry(a@, b@, ki, ni, rsi, z, r as int, j as int, k_lo as int, out@[r * n + j]));
            let mut t: usize = k_lo;
            while t < k_hi
                invariant
                    k_lo <= t <= k_hi,
                    k_hi <= k,
                    i < i_hi,
                    j < n,
                    i_hi * k <= a@.len(),
                    k * n <= b@.len(),
                    ki == k,
                    alen == a@.len(),
                    blen == b@.len(),
            alen == a@.len(),
            blen == b@.len(),
            olen == out0.len(),
                alen == a@.len(),
                blen == b@.len(),
                olen == out0.len(),
                    ni == n,
                    add_total::<T>(),
                    mul_total::<T>(),
                    row == flat_row(a@, ki, i as int),
                    col == flat_col(b@, ki, ni, j as int),
                    dot_rel(z, row.take(t as int), col.take(t as int), sum),
                decreases k_hi - t,
            {
                proof {
                    lemma_row_major_pos(i as int, t as int, i_hi as int, k as int);
                    lemma_row_major_pos(t as int, j as int, k as int, n as int);
                }
                let x = a[i * k + t];
                let y = b[t * n + j];
                assert(x == row[t as int]);
                assert(y == col[t as int]);
                let p = x * y;
                let next = sum + p;
                proof {
                    lemma_dot_rel_step(z, row, col, t as int, sum, p, next);
                }
                sum = next;
                t = t + 1;
            }
            let ghost before = out@;
            out.set(pos, sum);
            proof {
                assert forall|r2: int, jj: int|
                    i_lo <= rs + r2 < i_hi && j_lo <= jj < j_hi implies band_entry(
                        a@,
                        b@,
                        ki,
                        ni,
                        rsi,
                        z,
                        r2,
                        jj,
                        if rs + r2 < i || (rs + r2 == i && jj < j + 1) {
                            k_hi as int
                        } else {
                            k_lo as int
                        },
                        #[trigger] out@[r2 * n + jj],
                    ) by {
                    lemma_row_major_pos(r2, jj, (i_hi - rs) as int, n as int);
                    if r2 != r || jj != j {
                        lemma_row_major_distinct(r2, jj, r as int, j as int, n as int);
                        assert(out@[r2 * n + jj] == before[r2 * n + jj]);
                    }
                }
                assert forall|r2: int, jj: int|
                    0 <= r2 && 0 <= jj < n && r2 * n + jj < out0.len() && !(i_lo <= rs + r2 < i_hi
                        && j_lo <= jj < j_hi) implies #[trigger] out@[r2 * n + jj] == out0[r2 * n
                    + jj] by {
                    lemma_row_major_distinct(r2, jj, r as int, j as int, n as int);
                }
            }
            j = j + 1;
        }
        i = i + 1;
    }
}

/// `out` holds rows `row_start..row_end` of the product of the row-major
/// buffers `a` (`k` columns) and `b` (`k` rows, `n` columns), each entry the
/// dot product accumulated from `z` in inner-axis order.
pub open spec fn band_result<T: Add<Output = T> + Mul<Output = T>>(
    a: Seq<T>,
    b: Seq<T>,
    k: int,
    n: int,
    row_start: int,
    row_end: int,
    z: T,
    out: Seq<T>,
) -> bool {
    &&& out.len() == (row_end - row_start) * n
    &&& forall|r: int, j: int|
        0 <= r < row_end - row_start && 0 <= j < n ==> dot_rel(
            z,
            flat_row(a, k, row_start + r),
            flat_col(b, k, n, j),
            #[trigger] out[r * n + j],
        )
}

/// One band of output rows of the cache-blocked product: rows
/// `row_start..row_end` of `A * B`, where `a` holds `A` row-major with `k`
/// columns and `b` holds `B` row-major with `k` rows and `n` columns.
///
/// The band is walked in `block` by `block` tiles: tile rows, then tile
/// columns, then tiles of the inner axis. Entry `(r, j)` of the result is
/// output entry `(row_start + r, j)`, at position `r * n + j`; it starts at
/// zero (`T::default()`) and accumulates `a[i, t] * b[t, j]` in the order
/// `t = 0..k`, exactly as the reference product does.
pub fn matmul_row_band<T: Copy + Default + Add<Output = T> + Mul<Output = T>>(
    a: &[T],
    b: &[T],
    k: usize,
    n: usize,
    block: usize,
    row_start: usize,
    row_end: usize,
) -> (out: Vec<T>)
    requires
        row_start <= row_end,
        block > 0,
        row_end * k <= a@.len(),
        k * n <= b@.len(),
        (row_end - row_start) * n <= usize::MAX,
        add_total::<T>(),
        mul_total::<T>(),
    ensures
        out@.len() == (row_end - row_start) * n,
        exists|z: T|
            call_ensures(T::default, (), z) && band_result(
                a@,
                b@,
                k as int,
                n as int,
                row_start as int,
                row_end as int,
                z,
                out@,
            ),
{
    let ghost ki = k as int;
    let ghost ni = n as int;
    let ghost rsi = row_start as int;
    let zero = T::default();
    let total = (row_end - row_start) * n;
    let mut out: Vec<T> = Vec::new();
    let mut p: usize = 0;
    while p < total
        invariant
            p <= total,
            out@.len() == p,
            forall|q: int| 0 <= q < p ==> #[trigger] out@[q] == zero,
        decreases total - p,
    {
        out.push(zero);
        p = p + 1;
    }
    proof {
        assert forall|r: int, j: int|
            row_start <= row_start + r < row_end && 0 <= j < n implies band_entry(
                a@,
                b@,
                ki,
                ni,
                rsi,
                zero,
                r,
                j,
                0,
                #[trigger] out@[r * n + j],
            ) by {
            lemma_row_major_pos(r, j, (row_end - row_start) as int, n as int);
            assert(flat_row(a@, ki, rsi + r).take(0) =~= Seq::<T>::empty());
            assert(flat_col(b@, ki, ni, j).take(0) =~= Seq::<T>::empty());
        }
    }
    let mut ii: usize = row_start;
    while ii < row_end
        invariant
            row_start <= ii <= row_end,
            block > 0,
            row_end * k <= a@.len(),
            k * n <= b@.len(),
            out@.len() == total,
            total == (row_end - row_start) * n,
            ki == k,
            ni == n,
            rsi == row_start,
            add_total::<T>(),
            mul_total::<T>(),
            forall|r: int, j: int|
                row_start <= row_start + r < row_end && 0 <= j < n ==> band_entry(
                    a@,
                    b@,
                    ki,
                    ni,
                    rsi,
                    zero,
                    r,
                    j,
                    if row_start + r < ii { ki } else { 0 },
                    #[trigger] out@[r * n + j],
                ),
        decreases row_end - ii,
    {
        let i_max = if block < row_end - ii { ii + block } else { row_end };
        let mut jj: usize = 0;
        while jj < n
            invariant
                row_start <= ii < i_max <= row_end,
                jj <= n,
                block > 0,
                row_end * k <= a@.len(),
                k * n <= b@.len(),
                out@.len() == total,
                total == (row_end - row_start) * n,
                ki == k,
                ni == n,
                rsi == row_start,
                add_total::<T>(),
                mul_total::<T>(),
                forall|r: int, j: int|
                    row_start <= row_start + r < row_end && 0 <= j < n ==> band_entry(
                        a@,
                        b@,
                        ki,
                        ni,
                        rsi,
                        zero,
                        r,
                        j,
                        if row_start + r < ii || (row_start + r < i_max && j < jj) {
                            ki
                        } else {
                            0
                        },
                        #[trigger] out@[r * n + j],
                    ),
            decreases n - jj,
        {
            let j_max = if block < n - jj { jj + block } else { n };
            let mut kk: usize = 0;
            while kk < k
                invariant
                    row_start <= ii < i_max <= row_end,
                    jj < j_max <= n,
                    kk <= k,
                    block > 0,
                    row_end * k <= a@.len(),
                    k * n <= b@.len(),
                    out@.len() == total,
                    total == (row_end - row_start) * n,
                    ki == k,
                    ni == n,
                    rsi == row_start,
                    add_total::<T>(),
                    mul_total::<T>(),
                    forall|r: int, j: int|
                        row_start <= row_start + r < row_end && 0 <= j < n ==> band_entry(
                            a@,
                            b@,
                            ki,
                            ni,
                            rsi,
                            zero,
                            r,
                            j,
                            if row_start + r < ii || (row_start + r < i_max && j < jj) {
                                ki
                            } else if row_start + r < i_max && j < j_max {
                                kk as int
                            } else {
                                0
                            },
                            #[trigger] out@[r * n + j],
                        ),
                decreases k - kk,
            {
                let k_max = if block < k - kk { kk + block } else { k };
                proof {
                    lemma_mul_mono(i_max as int, row_end as int, k as int);
                    lemma_mul_mono((i_max - row_start) as int, (row_end - row_start) as int, n as int);
                }
                let ghost before = out@;
                tile_update(a, b, &mut out, k, n, row_start, ii, i_max, jj, j_max, kk, k_max, Ghost(zero));
                proof {
                    assert forall|r: int, j: int|
                        row_start <= row_start + r < row_end && 0 <= j < n implies band_entry(
                            a@,
                            b@,
                            ki,
                            ni,
                            rsi,
                            zero,
                            r,
                            j,
                            if row_start + r < ii || (row_start + r < i_max && j < jj) {
                                ki
                            } else if row_start + r < i_max && j < j_max {
                                k_max as int
                            } else {
                                0
                            },
                            #[trigger] out@[r * n + j],
                        ) by {
                        lemma_row_major_pos(r, j, (row_end - row_start) as int, n as int);
                        if !(ii <= row_start + r < i_max && jj <= j < j_max) {
                            assert(out@[r * n + j] == before[r * n + j]);
                        }
                    }
                }
                kk = k_max;
            }
            proof {
                assert forall|r: int, j: int|
                    row_start <= row_start + r < row_end && 0 <= j < n implies band_entry(
                        a@,
                        b@,
                        ki,
                        ni,
                        rsi,
                        zero,
                        r,
                        j,
                        if row_start + r < ii || (row_start + r < i_max && j < j_max) {
                            ki
                        } else {
                            0
                        },
                        #[trigger] out@[r * n + j],
                    ) by {
                    if row_start + r < i_max && jj <= j < j_max && !(row_start + r < ii) {
                        assert(band_entry(a@, b@, ki, ni, rsi, zero, r, j, kk as int, out@[r * n + j]));
                    }
                }
            }
            jj = j_max;
        }
        ii = i_max;
    }
    proof {
        assert forall|r: int, j: int|
            0 <= r < row_end - row_start && 0 <= j < n implies dot_rel(
                zero,
                flat_row(a@, ki, row_start + r),
                flat_col(b@, ki, ni, j),
                #[trigger] out@[r * n + j],
            ) by {
            assert(band_entry(a@, b@, ki, ni, rsi, zero, r, j, ki, out@[r * n + j]));
            assert(flat_row(a@, ki, rsi + r).take(ki) =~= flat_row(a@, ki, rsi + r));
            assert(flat_col(b@, ki, ni, j).take(ki) =~= flat_col(b@, ki, ni, j));
        }
        assert(band_result(a@, b@, ki, ni, rsi, row_end as int, zero, out@));
    }
    out
}

proof fn lemma_mul_mono(x: int, y: int, z: int)
    requires
        0 <= x <= y,
        0 <= z,
    ensures
        x * z <= y * z,
{
    assert(x * z <= y * z) by (nonlinear_arith)
        requires
            0 <= x <= y,
            0 <= z,
    ;
}

/// A buffer that holds the matrix `a` row-major: entry `[i, t]` at `i * k + t`.
pub open spec fn holds_matrix<T>(a: Tensor<T>, d: Seq<T>) -> bool {
    let m = a.shape_view()[0] as int;
    let k = a.shape_view()[1] as int;
    &&& m * k <= d.len()
    &&& forall|i: int, t: int| 0 <= i < m && 0 <= t < k ==> #[trigger] d[i * k + t] == at2(a, i, t)
}

/// The rows and columns of a matrix read the same from a buffer that holds it.
proof fn lemma_holds_matrix_rows_cols<T>(a: Tensor<T>, d: Seq<T>)
    requires
        a.rank() == 2,
        holds_matrix(a, d),
    ensures
        forall|i: int|
            0 <= i < a.shape_view()[0] ==> #[trigger] flat_row(d, a.shape_view()[1] as int, i)
                == row_of(a, i),
        forall|j: int|
            0 <= j < a.shape_view()[1] ==> #[trigger] flat_col(
                d,
                a.shape_view()[0] as int,
                a.shape_view()[1] as int,
                j,
            ) == col_of(a, j),
{
    let m = a.shape_view()[0] as int;
    let k = a.shape_view()[1] as int;
    assert forall|i: int| 0 <= i < m implies #[trigger] flat_row(d, k, i) == row_of(a, i) by {
        assert(flat_row(d, k, i) =~= row_of(a, i)) by {
            assert forall|t: int| 0 <= t < k implies flat_row(d, k, i)[t] == row_of(a, i)[t] by {
                assert(d[i * k + t] == at2(a, i, t));
            }
        }
    }
    assert forall|j: int| 0 <= j < k implies #[trigger] flat_col(d, m, k, j) == col_of(a, j) by {
        assert(flat_col(d, m, k, j) =~= col_of(a, j)) by {
            assert forall|t: int| 0 <= t < m implies flat_col(d, m, k, j)[t] == col_of(a, j)[t] by {
                assert(d[t * k + j] == at2(a, t, j));
            }
        }
    }
}

/// A contiguous matrix holds itself in its buffer.
pub(crate) proof fn lemma_contiguous_holds_matrix<T>(a: Tensor<T>)
    requires
        a.wf(),
        a.rank() == 2,
        a.contiguous_layout(),
    ensures
        holds_matrix(a, a.storage()),
{
    a.lemma_contiguous_values();
    lemma_prod2(a.shape_view()[0], a.shape_view()[1]);
    assert(a.shape_view() =~= seq![a.shape_view()[0], a.shape_view()[1]]);
    let k = a.shape_view()[1] as int;
    assert forall|i: int, t: int|
        0 <= i < a.shape_view()[0] && 0 <= t < k implies #[trigger] a.storage()[i * k + t] == at2(
            a,
            i,
            t,
        ) by {
        lemma_at2_contiguous(a, i, t);
    }
}

/// The logical values of a matrix hold it.
pub(crate) proof fn lemma_values_hold_matrix<T>(a: Tensor<T>)
    requires
        a.wf(),
        a.rank() == 2,
    ensures
        holds_matrix(a, a.values()),
{
    let sh = a.shape_view();
    lemma_prod2(sh[0], sh[1]);
    assert(sh =~= seq![sh[0], sh[1]]);
    let k = sh[1] as int;
    assert forall|i: int, t: int| 0 <= i < sh[0] && 0 <= t < k implies #[trigger] a.values()[i * k + t]
        == at2(a, i, t) by {
        let idx = seq![i as usize, t as usize];
        assert(valid_index(idx, sh));
        crate::shape::lemma_ravel_unravel(idx, sh);
        lemma_ravel2(i as usize, t as usize, sh);
    }
}

/// Wrap a row-major `m` by `n` buffer whose entries are the dot products of
/// the rows of `a` and the columns of `b` as the product tensor.
pub(crate) proof fn lemma_product_from_buffer<T: Add<Output = T> + Mul<Output = T>>(
    a: Tensor<T>,
    b: Tensor<T>,
    z: T,
    da: Seq<T>,
    db: Seq<T>,
    out: Seq<T>,
    c: Tensor<T>,
)
    requires
        matmul_shapes_ok(a, b),
        holds_matrix(a, da),
        holds_matrix(b, db),
        c.wf(),
        c.contiguous_layout(),
        c.shape_view() == seq![a.shape_view()[0], b.shape_view()[1]],
        c.storage() == out,
        band_result(
            da,
            db,
            a.shape_view()[1] as int,
            b.shape_view()[1] as int,
            0,
            a.shape_view()[0] as int,
            z,
            out,
        ),
    ensures
        is_matmul(a, b, z, c),
{
    lemma_holds_matrix_rows_cols(a, da);
    lemma_holds_matrix_rows_cols(b, db);
    let n = b.shape_view()[1] as int;
    assert forall|i: int, j: int| 0 <= i < a.shape_view()[0] && 0 <= j < n implies dot_rel(
        z,
        row_of(a, i),
        col_of(b, j),
        #[trigger] at2(c, i, j),
    ) by {
        lemma_at2_contiguous(c, i, j);
        assert(flat_row(da, a.shape_view()[1] as int, i) == row_of(a, i));
        assert(flat_col(db, b.shape_view()[0] as int, n, j) == col_of(b, j));
        assert(out[i * n + j] == c.storage()[i * n + j]);
        assert(dot_rel(
            z,
            flat_row(da, a.shape_view()[1] as int, 0 + i),
            flat_col(db, a.shape_view()[1] as int, n, j),
            out[i * n + j],
        ));
        assert(0 + i == i);
    }
}

/// Cache-blocked matmul: `[M, K] x [K, N] -> [M, N]`.
///
/// Same arithmetic as `matmul_naive`, but memory is visited in
/// `block` by `block` tiles. Each output entry still accumulates its terms
/// in inner-axis order, so it satisfies the same relation as the reference.
/// When both inputs are contiguous the kernel reads their buffers directly;
/// otherwise it reads their logical values.
///
/// `block == 0` returns `SizeMismatch`: there is no tile of side 0.
/// Rank 2 only, with the shape errors of the reference.
#[verifier::spinoff_prover]
#[verifier::rlimit(40)]
pub fn matmul_blocked<T: Copy + Default + Add<Output = T> + Mul<Output = T>>(
    a: &Tensor<T>,
    b: &Tensor<T>,
    block: usize,
) -> (r: Result<Tensor<T>, ShapeError>)
    requires
        a.wf(),
        b.wf(),
        add_total::<T>(),
        mul_total::<T>(),
        matmul_shapes_ok(*a, *b) ==> shape_fits(seq![a.shape_view()[0], b.shape_view()[1]]),
    ensures
        match r {
            Ok(c) => {
                &&& matmul_shapes_ok(*a, *b)
                &&& block > 0
                &&& c.wf()
                &&& c.shape_view() == seq![a.shape_view()[0], b.shape_view()[1]]
                &&& c.contiguous_layout()
                &&& exists|z: T| call_ensures(T::default, (), z) && is_matmul(*a, *b, z, c)
            },
            Err(e) => {
                ||| !matmul_shapes_ok(*a, *b) && matmul_shape_error(*a, *b, e)
                ||| matmul_shapes_ok(*a, *b) && block == 0 && e == ShapeError::SizeMismatch
            },
        },
{
    if a.shape().len() != 2 {
        return Err(ShapeError::BadRank { got: a.shape().len(), want: 2 });
    }
    if b.shape().len() != 2 {
        return Err(ShapeError::BadRank { got: b.shape().len(), want: 2 });
    }
    if a.shape()[1] != b.shape()[0] {
        return Err(ShapeError::SizeMismatch);
    }
    if block == 0 {
        return Err(ShapeError::SizeMismatch);
    }
    let m = a.shape()[0];
    let k = a.shape()[1];
    let n = b.shape()[1];
    proof {
        lemma_fits_prods(seq![m, n]);
        lemma_prod2(m, n);
        assert(seq![m, n].take(2) =~= seq![m, n]);
        lemma_prod2(m, k);
        lemma_prod2(k, n);
        a.lemma_wf();
        b.lemma_wf();
        assert(a.shape_view() =~= seq![m, k]);
        assert(b.shape_view() =~= seq![k, n]);
    }
    if a.is_contiguous() && b.is_contiguous() {
        proof {
            lemma_contiguous_holds_matrix(*a);
            lemma_contiguous_holds_matrix(*b);
        }
        let out = matmul_row_band(a.as_slice(), b.as_slice(), k, n, block, 0, m);
        let c = product_from_band(a, b, a.as_slice(), b.as_slice(), out);
        assert(c.wf());
        assert(exists|z: T| call_ensures(T::default, (), z) && is_matmul(*a, *b, z, c));
        assert(matmul_shapes_ok(*a, *b));
        assert(block > 0);
        assert(c.contiguous_layout());
        Ok(c)
    } else {
        let a_vals = a.to_vec();
        let b_vals = b.to_vec();
        proof {
            lemma_values_hold_matrix(*a);
            lemma_values_hold_matrix(*b);
        }
        let out = matmul_row_band(a_vals.as_slice(), b_vals.as_slice(), k, n, block, 0, m);
        let c = product_from_band(a, b, a_vals.as_slice(), b_vals.as_slice(), out);
        assert(c.wf());
        assert(exists|z: T| call_ensures(T::default, (), z) && is_matmul(*a, *b, z, c));
        assert(matmul_shapes_ok(*a, *b));
        assert(block > 0);
        assert(c.contiguous_layout());
        Ok(c)
    }
}

/// Wrap the full row band of a product as the product tensor.
fn product_from_band<T: Copy + Default + Add<Output = T> + Mul<Output = T>>(
    a: &Tensor<T>,
    b: &Tensor<T>,
    da: &[T],
    db: &[T],
    out: Vec<T>,
) -> (c: Tensor<T>)
    requires
        a.wf(),
        b.wf(),
        matmul_shapes_ok(*a, *b),
        shape_fits(seq![a.shape_view()[0], b.shape_view()[1]]),
        holds_matrix(*a, da@),
        holds_matrix(*b, db@),
        exists|z: T|
            call_ensures(T::default, (), z) && band_result(
                da@,
                db@,
                a.shape_view()[1] as int,
                b.shape_view()[1] as int,
                0,
                a.shape_view()[0] as int,
                z,
                out@,
            ),
    ensures
        c.wf(),
        c.shape_view() == seq![a.shape_view()[0], b.shape_view()[1]],
        c.contiguous_layout(),
        exists|z: T| call_ensures(T::default, (), z) && is_matmul(*a, *b, z, c),
{
    let m = a.shape()[0];
    let n = b.shape()[1];
    let ghost k = a.shape_view()[1] as int;
    let ghost outv = out@;
    proof {
        lemma_prod2(m, n);
    }
    let shape = index2(m, n);
    let c = Tensor::from_vec(out, shape.as_slice());
    proof {
        let z = choose|z: T|
            call_ensures(T::default, (), z) && band_result(da@, db@, k, n as int, 0, m as int, z, outv);
        lemma_product_from_buffer(*a, *b, z, da@, db@, outv, c);
        assert(call_ensures(T::default, (), z) && is_matmul(*a, *b, z, c));
    }
    c
}

// ---------------------------------------------------------------------------
// Batched product
// ---------------------------------------------------------------------------

/// The batch axes of a shape: all but the last two.
pub open spec fn batch_dims(s: Seq<usize>) -> Seq<usize> {
    s.take(s.len() - 2)
}

/// The index into an operand's batch axes that the common batch index `bi`
/// reads: aligned from the right, and 0 on an axis of length 1.
pub open spec fn batch_source(bi: Seq<usize>, ab: Seq<usize>) -> Seq<usize> {
    let pad = bi.len() - ab.len();
    Seq::new(ab.len(), |x: int| if ab[x] == 1 { 0usize } else { bi[x + pad] })
}

/// `idx` with its first `n` entries replaced by those of `ks`.
pub open spec fn replace_prefix(idx: Seq<usize>, ks: Seq<usize>, n: int) -> Seq<usize> {
    Seq::new(idx.len(), |x: int| if x < n { ks[x] } else { idx[x] })
}

/// `n` copies of `v`.
pub open spec fn repeat(v: usize, n: nat) -> Seq<usize> {
    Seq::new(n, |x: int| v)
}

/// The view of `a` that fixes its first `ks.len()` axes at `ks`: those axes
/// have length 1, and every entry reads the entry of `a` with the prefix
/// replaced by `ks`.
pub open spec fn fixes_prefix<T>(v: Tensor<T>, a: Tensor<T>, ks: Seq<usize>, n: int) -> bool {
    &&& v.wf()
    &&& v.rank() == a.rank()
    &&& forall|x: int|
        0 <= x < a.rank() ==> #[trigger] v.shape_view()[x] == if x < n {
            1usize
        } else {
            a.shape_view()[x]
        }
    &&& forall|idx: Seq<usize>|
        valid_index(idx, v.shape_view()) ==> #[trigger] v.at(idx) == a.at(replace_prefix(idx, ks, n))
}

/// `dot` of an index that is zero everywhere but at `axis`.
proof fn lemma_dot_single(st: Seq<usize>, axis: int, k: usize)
    requires
        0 <= axis < st.len(),
    ensures
        dot(repeat(0, st.len()).update(axis, k), st) == (k as nat) * (st[axis] as nat),
{
    let z = repeat(0, st.len());
    crate::shape::lemma_dot_zero_strides(st, z);
    assert forall|x: int| 0 <= x < st.len() implies (#[trigger] z[x] as nat) * (st[x] as nat) == (
    st[x] as nat) * (z[x] as nat) by {
        assert((z[x] as nat) * (st[x] as nat) == 0 * (st[x] as nat));
    }
    crate::shape::lemma_dot_termwise(z, st, st, z);
    crate::shape::lemma_dot_update(z, st, axis, k);
    assert((z[axis] as nat) * (st[axis] as nat) == 0);
}

/// Fix the first `ks.len()` axes of `a` at the indices `ks`, one slice per
/// axis.
fn slice_prefix<T>(a: &Tensor<T>, ks: &Vec<usize>) -> (v: Tensor<T>)
    requires
        a.wf(),
        ks@.len() <= a.rank(),
        all_positive(a.shape_view()),
        forall|x: int| 0 <= x < ks@.len() ==> #[trigger] ks@[x] < a.shape_view()[x],
    ensures
        fixes_prefix(v, *a, ks@, ks@.len() as int),
{
    let mut v = a.clone();
    let mut axis: usize = 0;
    proof {
        assert forall|idx: Seq<usize>| valid_index(idx, v.shape_view()) implies #[trigger] v.at(idx)
            == a.at(replace_prefix(idx, ks@, 0)) by {
            assert(replace_prefix(idx, ks@, 0) =~= idx);
        }
    }
    while axis < ks.len()
        invariant
            axis <= ks@.len(),
            ks@.len() <= a.rank(),
            a.wf(),
            all_positive(a.shape_view()),
            forall|x: int| 0 <= x < ks@.len() ==> #[trigger] ks@[x] < a.shape_view()[x],
            fixes_prefix(v, *a, ks@, axis as int),
        decreases ks@.len() - axis,
    {
        let k = ks[axis];
        proof {
            v.lemma_wf();
            assert(all_positive(v.shape_view())) by {
                assert forall|x: int| 0 <= x < v.rank() implies #[trigger] v.shape_view()[x] > 0 by {
                    assert(a.shape_view()[x] > 0);
                }
            }
            let z = repeat(0, v.rank()).update(axis as int, k);
            assert(valid_index(z, v.shape_view())) by {
                assert forall|x: int| 0 <= x < v.rank() implies #[trigger] z[x] < v.shape_view()[x] by {
                    assert(v.shape_view()[x] > 0);
                }
            }
            lemma_dot_single(v.strides_view(), axis as int, k);
        }
        let r = v.slice(axis, k, k + 1);
        let next = match r {
            Ok(t) => t,
            Err(_) => {
                assert(false);
                v
            },
        };
        proof {
            assert forall|x: int| 0 <= x < a.rank() implies #[trigger] next.shape_view()[x] == if x
                < axis + 1 {
                1usize
            } else {
                a.shape_view()[x]
            } by {}
            assert forall|idx: Seq<usize>| valid_index(idx, next.shape_view()) implies #[trigger] next.at(
                idx,
            ) == a.at(replace_prefix(idx, ks@, axis + 1)) by {
                let up = idx.update(axis as int, (idx[axis as int] + k) as usize);
                assert(valid_index(up, v.shape_view())) by {
                    assert forall|x: int| 0 <= x < v.rank() implies #[trigger] up[x] < v.shape_view()[x] by {
                        if x == axis {
                            assert(idx[x] < 1);
                        } else {
                            assert(idx[x] < next.shape_view()[x]);
                        }
                    }
                }
                assert(idx[axis as int] == 0) by {
                    assert(idx[axis as int] < next.shape_view()[axis as int]);
                }
                assert(replace_prefix(up, ks@, axis as int) =~= replace_prefix(idx, ks@, axis + 1));
            }
        }
        v = next;
        axis = axis + 1;
    }
    v
}

/// A prefix of length-1 axes before a matrix does not change the counts.
proof fn lemma_prod_ones_matrix(bl: nat, r: usize, c: usize)
    ensures
        prod(repeat(1, bl) + seq![r, c]) == r * c,
        crate::shape::nz_prod(repeat(1, bl) + seq![r, c]) == crate::shape::nz_prod(seq![r, c]),
    decreases bl,
{
    let s = repeat(1, bl) + seq![r, c];
    assert(s.drop_last() =~= repeat(1, bl) + seq![r]);
    assert(s.drop_last().drop_last() =~= repeat(1, bl));
    lemma_prod_ones(bl);
    lemma_prod2(r, c);
    assert(seq![r, c].drop_last() =~= seq![r]);
    assert(seq![r].drop_last() =~= Seq::<usize>::empty());
    assert(prod(repeat(1, bl) + seq![r]) == 1 * r);
    assert(crate::shape::nz_prod(repeat(1, bl) + seq![r]) == crate::shape::nz_prod(repeat(1, bl)) * (
    if r == 0 { 1nat } else { r as nat }));
    assert(crate::shape::nz_prod(seq![r]) == crate::shape::nz_prod(Seq::<usize>::empty()) * (
    if r == 0 { 1nat } else { r as nat }));
}

proof fn lemma_prod_ones(bl: nat)
    ensures
        prod(repeat(1, bl)) == 1,
        crate::shape::nz_prod(repeat(1, bl)) == 1,
    decreases bl,
{
    if bl > 0 {
        assert(repeat(1, bl).drop_last() =~= repeat(1, (bl - 1) as nat));
        assert(repeat(1, bl).last() == 1);
        lemma_prod_ones((bl - 1) as nat);
    } else {
        assert(repeat(1, bl) =~= Seq::<usize>::empty());
    }
}

/// Inside `[1, ..., 1, r, c]`, the entry `[0, ..., 0, i, t]` sits at `i * c + t`.
proof fn lemma_ravel_ones(bl: nat, i: usize, t: usize, r: usize, c: usize)
    ensures
        ravel(repeat(0, bl) + seq![i, t], repeat(1, bl) + seq![r, c]) == i * c + t,
    decreases bl,
{
    let x = repeat(0, bl) + seq![i, t];
    let s = repeat(1, bl) + seq![r, c];
    assert(x.drop_last() =~= repeat(0, bl) + seq![i]);
    assert(s.drop_last() =~= repeat(1, bl) + seq![r]);
    assert((repeat(0, bl) + seq![i]).drop_last() =~= repeat(0, bl));
    assert((repeat(1, bl) + seq![r]).drop_last() =~= repeat(1, bl));
    lemma_ravel_zeros(bl);
    assert(ravel(repeat(0, bl) + seq![i], repeat(1, bl) + seq![r]) == 0 * r + i);
    assert(0 * r == 0);
}

proof fn lemma_ravel_zeros(bl: nat)
    ensures
        ravel(repeat(0, bl), repeat(1, bl)) == 0,
    decreases bl,
{
    if bl > 0 {
        assert(repeat(0, bl).drop_last() =~= repeat(0, (bl - 1) as nat));
        assert(repeat(1, bl).drop_last() =~= repeat(1, (bl - 1) as nat));
        assert(repeat(1, bl).last() == 1);
        assert(repeat(0, bl).last() == 0);
        lemma_ravel_zeros((bl - 1) as nat);
    } else {
        assert(repeat(1, bl) =~= Seq::<usize>::empty());
    }
}

/// The `rows` by `cols` matrix of `a` at batch index `ks`, as a fresh
/// contiguous tensor: slice every batch axis down to one entry, copy, and
/// reshape.
fn batch_matrix<T: Copy>(a: &Tensor<T>, ks: &Vec<usize>, rows: usize, cols: usize) -> (mat: Tensor<T>)
    requires
        a.wf(),
        a.rank() == ks@.len() + 2,
        a.shape_view()[ks@.len() as int] == rows,
        a.shape_view()[ks@.len() + 1int] == cols,
        all_positive(a.shape_view()),
        forall|x: int| 0 <= x < ks@.len() ==> #[trigger] ks@[x] < a.shape_view()[x],
    ensures
        mat.wf(),
        mat.shape_view() == seq![rows, cols],
        mat.contiguous_layout(),
        forall|i: int, t: int|
            0 <= i < rows && 0 <= t < cols ==> #[trigger] at2(mat, i, t) == a.at(
                ks@ + seq![i as usize, t as usize],
            ),
{
    let ghost bl = ks@.len();
    let v = slice_prefix(a, ks);
    let ghost vs = v.shape_view();
    proof {
        assert(vs =~= repeat(1, bl) + seq![rows, cols]);
        lemma_prod_ones_matrix(bl, rows, cols);
        lemma_prod2(rows, cols);
        v.lemma_wf();
    }
    let c = v.contiguous();
    let shape = index2(rows, cols);
    let r = c.reshape(shape.as_slice());
    let mat = match r {
        Ok(t) => t,
        Err(_) => {
            assert(false);
            c
        },
    };
    proof {
        lemma_values_hold_matrix(mat);
        assert forall|i: int, t: int| 0 <= i < rows && 0 <= t < cols implies #[trigger] at2(
            mat,
            i,
            t,
        ) == a.at(ks@ + seq![i as usize, t as usize]) by {
            let idx = repeat(0, bl) + seq![i as usize, t as usize];
            assert(valid_index(idx, vs));
            lemma_ravel_ones(bl, i as usize, t as usize, rows, cols);
            crate::shape::lemma_ravel_unravel(idx, vs);
            lemma_row_major_pos(i, t, rows as int, cols as int);
            assert(mat.values()[i * cols + t] == v.values()[i * cols + t]);
            assert(replace_prefix(idx, ks@, bl as int) =~= ks@ + seq![i as usize, t as usize]);
        }
    }
    mat
}

/// The index into an operand's batch axes that common batch index `b_idx`
/// reads.
fn batch_source_vec(b_idx: &Vec<usize>, ab: &[usize]) -> (v: Vec<usize>)
    requires
        b_idx@.len() >= ab@.len(),
    ensures
        v@ == batch_source(b_idx@, ab@),
{
    let blen = b_idx.len();
    let pad = blen - ab.len();
    let mut v: Vec<usize> = Vec::new();
    let mut x: usize = 0;
    while x < ab.len()
        invariant
            x <= ab@.len(),
            b_idx@.len() >= ab@.len(),
            blen == b_idx@.len(),
            pad == b_idx@.len() - ab@.len(),
            v@ == batch_source(b_idx@, ab@).take(x as int),
        decreases ab@.len() - x,
    {
        let k = if ab[x] == 1 { 0 } else { b_idx[x + pad] };
        v.push(k);
        x = x + 1;
        assert(v@ =~= batch_source(b_idx@, ab@).take(x as int));
    }
    assert(batch_source(b_idx@, ab@).take(ab@.len() as int) =~= batch_source(b_idx@, ab@));
    v
}

/// The inner dimension of a batched product, read from `a`.
pub open spec fn inner_dim<T>(a: Tensor<T>) -> usize {
    a.shape_view()[a.rank() - 1]
}

/// Both operands have the two matrix axes, the inner dimensions agree, and
/// the batch axes broadcast.
pub open spec fn batched_ok<T>(a: Tensor<T>, b: Tensor<T>) -> bool {
    &&& a.rank() >= 2
    &&& b.rank() >= 2
    &&& a.shape_view()[a.rank() - 1] == b.shape_view()[b.rank() - 2]
    &&& crate::shape::broadcast_compatible(batch_dims(a.shape_view()), batch_dims(b.shape_view()))
}

/// The common batch shape of a batched product.
pub open spec fn batched_batch<T>(a: Tensor<T>, b: Tensor<T>) -> Seq<usize> {
    crate::shape::broadcast_shape(batch_dims(a.shape_view()), batch_dims(b.shape_view()))
}

/// The output shape of a batched product: the common batch shape, then `[M, N]`.
pub open spec fn batched_shape<T>(a: Tensor<T>, b: Tensor<T>) -> Seq<usize> {
    batched_batch(a, b) + seq![a.shape_view()[a.rank() - 2], b.shape_view()[b.rank() - 1]]
}

/// Row `i` of the matrix of `a` at batch index `src`.
pub open spec fn batched_row<T>(a: Tensor<T>, src: Seq<usize>, i: int) -> Seq<T> {
    Seq::new(inner_dim(a) as nat, |t: int| a.at(src + seq![i as usize, t as usize]))
}

/// Column `j` of the matrix of `b` at batch index `src`.
pub open spec fn batched_col<T>(b: Tensor<T>, src: Seq<usize>, j: int) -> Seq<T> {
    Seq::new(b.shape_view()[b.rank() - 2] as nat, |t: int| b.at(src + seq![t as usize, j as usize]))
}

/// Entry `[i, j]` of the matrix at batch index `bi`.
pub open spec fn at_batched<T>(c: Tensor<T>, bi: Seq<usize>, i: int, j: int) -> T {
    c.at(bi + seq![i as usize, j as usize])
}

/// `r` is a dot product of `xs` and `ys` accumulated from zero.
pub open spec fn dot_from_default<T: Default + Add<Output = T> + Mul<Output = T>>(
    xs: Seq<T>,
    ys: Seq<T>,
    r: T,
) -> bool {
    exists|z: T| call_ensures(T::default, (), z) && dot_rel(z, xs, ys, r)
}

/// `c` is the batched product of `a` and `b`: at every common batch index,
/// the product of the two matrices that the index selects, each operand
/// reading index 0 on its batch axes of length 1.
pub open spec fn is_batched_matmul<T: Default + Add<Output = T> + Mul<Output = T>>(
    a: Tensor<T>,
    b: Tensor<T>,
    c: Tensor<T>,
) -> bool {
    let bs = batched_batch(a, b);
    let m = a.shape_view()[a.rank() - 2];
    let n = b.shape_view()[b.rank() - 1];
    &&& c.shape_view() == batched_shape(a, b)
    &&& forall|bi: Seq<usize>, i: int, j: int|
        valid_index(bi, bs) && 0 <= i < m && 0 <= j < n ==> dot_from_default(
            batched_row(a, batch_source(bi, batch_dims(a.shape_view())), i),
            batched_col(b, batch_source(bi, batch_dims(b.shape_view())), j),
            #[trigger] at_batched(c, bi, i, j),
        )
}

/// The failures of a batched product, in the order they are checked.
pub open spec fn batched_error<T>(a: Tensor<T>, b: Tensor<T>, e: ShapeError) -> bool {
    ||| a.rank() < 2 && e == (ShapeError::BadRank { got: a.rank() as usize, want: 2 })
    ||| a.rank() >= 2 && b.rank() < 2 && e == (ShapeError::BadRank {
        got: b.rank() as usize,
        want: 2,
    })
    ||| a.rank() >= 2 && b.rank() >= 2 && !batched_ok(a, b) && e == ShapeError::SizeMismatch
}

/// A batch index of the common shape selects a valid batch index of each
/// operand.
proof fn lemma_batch_source_valid(bi: Seq<usize>, ab: Seq<usize>, bb: Seq<usize>)
    requires
        crate::shape::broadcast_compatible(ab, bb),
        valid_index(bi, crate::shape::broadcast_shape(ab, bb)),
    ensures
        forall|x: int| 0 <= x < ab.len() ==> #[trigger] batch_source(bi, ab)[x] < ab[x],
        forall|x: int| 0 <= x < bb.len() ==> #[trigger] batch_source(bi, bb)[x] < bb[x],
{
    let n = crate::shape::broadcast_rank(ab, bb);
    let bs = crate::shape::broadcast_shape(ab, bb);
    assert forall|x: int| 0 <= x < ab.len() implies #[trigger] batch_source(bi, ab)[x] < ab[x] by {
        let i = x + (n - ab.len());
        assert(crate::shape::aligned_dim(ab, n, i) == ab[x]);
        assert(crate::shape::dims_compatible(
            crate::shape::aligned_dim(ab, n, i),
            crate::shape::aligned_dim(bb, n, i),
        ));
        assert(bi[i] < bs[i]);
    }
    assert forall|x: int| 0 <= x < bb.len() implies #[trigger] batch_source(bi, bb)[x] < bb[x] by {
        let i = x + (n - bb.len());
        assert(crate::shape::aligned_dim(bb, n, i) == bb[x]);
        assert(crate::shape::dims_compatible(
            crate::shape::aligned_dim(ab, n, i),
            crate::shape::aligned_dim(bb, n, i),
        ));
        assert(bi[i] < bs[i]);
    }
}

/// Appending the matrix axes multiplies the counts.
proof fn lemma_counts_append2(x: Seq<usize>, m: usize, n: usize)
    ensures
        prod(x + seq![m, n]) == prod(x) * (m * n),
        crate::shape::nz_prod(x + seq![m, n]) == crate::shape::nz_prod(x) * crate::shape::nz_prod(
            seq![m, n],
        ),
        prod((x + seq![m, n]).take(x.len() + 1int)) == prod(x) * m,
{
    let s = x + seq![m, n];
    assert(s.drop_last() =~= x + seq![m]);
    assert((x + seq![m]).drop_last() =~= x);
    assert(s.last() == n);
    assert((x + seq![m]).last() == m);
    assert(seq![m, n].last() == n);
    assert(seq![m].last() == m);
    assert(prod(x + seq![m]) == prod(x) * m);
    assert(prod(s) == prod(x + seq![m]) * n);
    assert(s.take(x.len() + 1int) =~= x + seq![m]);
    assert(seq![m, n].drop_last() =~= seq![m]);
    assert(seq![m].drop_last() =~= Seq::<usize>::empty());
    let p = prod(x) as int;
    assert((p * m) * n == p * (m * n)) by (nonlinear_arith);
    let q = crate::shape::nz_prod(x) as int;
    let fm: int = if m == 0 { 1 } else { m as int };
    let fn_: int = if n == 0 { 1 } else { n as int };
    assert(crate::shape::nz_prod(Seq::<usize>::empty()) == 1);
    assert(crate::shape::nz_prod(seq![m]) == 1 * fm);
    assert(crate::shape::nz_prod(seq![m, n]) == crate::shape::nz_prod(seq![m]) * fn_);
    assert(crate::shape::nz_prod(x + seq![m]) == q * fm);
    assert(crate::shape::nz_prod(s) == crate::shape::nz_prod(x + seq![m]) * fn_);
    assert((q * fm) * fn_ == q * (fm * fn_)) by (nonlinear_arith);
}

/// The row-major position of a batch index followed by a matrix index.
proof fn lemma_ravel_append2(x: Seq<usize>, s: Seq<usize>, i: usize, j: usize, m: usize, n: usize)
    requires
        x.len() == s.len(),
    ensures
        ravel(x + seq![i, j], s + seq![m, n]) == ravel(x, s) * (m * n) + i * n + j,
{
    let xi = x + seq![i, j];
    let ss = s + seq![m, n];
    assert(xi.drop_last() =~= x + seq![i]);
    assert(ss.drop_last() =~= s + seq![m]);
    assert((x + seq![i]).drop_last() =~= x);
    assert((s + seq![m]).drop_last() =~= s);
    assert(xi.last() == j);
    assert(ss.last() == n);
    assert((x + seq![i]).last() == i);
    assert((s + seq![m]).last() == m);
    assert(ravel(x + seq![i], s + seq![m]) == ravel(x, s) * m + i);
    assert(ravel(xi, ss) == ravel(x + seq![i], s + seq![m]) * n + j);
    if x.len() == 0 {
        assert(ravel(x, s) == 0);
    }
    let r = ravel(x, s) as int;
    assert((r * m + i) * n + j == r * (m * n) + i * n + j) by (nonlinear_arith);
}

/// Batched matrix multiply: `[..., M, K] x [..., K, N] -> [..., M, N]`.
///
/// The last two axes of each input are the matrix; every axis before them
/// is a batch axis. Batch axes broadcast: aligned from the right, missing
/// leading batch axes count as 1, and an operand with a batch axis of
/// length 1 uses its single matrix for every entry of that axis. Each batch
/// entry is the reference product of the two selected matrices.
///
/// Returns `Err(BadRank)` when an input has fewer than two axes (`a`
/// checked first), and `Err(SizeMismatch)` when the inner dimensions differ
/// or the batch axes do not broadcast.
#[verifier::spinoff_prover]
pub fn matmul<T: Copy + Default + Add<Output = T> + Mul<Output = T>>(
    a: &Tensor<T>,
    b: &Tensor<T>,
) -> (r: Result<Tensor<T>, ShapeError>)
    requires
        a.wf(),
        b.wf(),
        add_total::<T>(),
        mul_total::<T>(),
        batched_ok(*a, *b) ==> shape_fits(batched_shape(*a, *b)),
    ensures
        match r {
            Ok(c) => {
                &&& batched_ok(*a, *b)
                &&& c.wf()
                &&& c.contiguous_layout()
                &&& is_batched_matmul(*a, *b, c)
            },
            Err(e) => !batched_ok(*a, *b) && batched_error(*a, *b, e),
        },
{
    if a.shape().len() < 2 {
        return Err(ShapeError::BadRank { got: a.shape().len(), want: 2 });
    }
    if b.shape().len() < 2 {
        return Err(ShapeError::BadRank { got: b.shape().len(), want: 2 });
    }
    let a_rank = a.shape().len();
    let b_rank = b.shape().len();
    let m = a.shape()[a_rank - 2];
    let k_a = a.shape()[a_rank - 1];
    let k_b = b.shape()[b_rank - 2];
    let n = b.shape()[b_rank - 1];
    if k_a != k_b {
        return Err(ShapeError::SizeMismatch);
    }
    let a_batch = prefix_vec(a.shape(), a_rank - 2);
    let b_batch = prefix_vec(b.shape(), b_rank - 2);
    let batch_shape = crate::shape::broadcast_shapes(a_batch.as_slice(), b_batch.as_slice())?;
    let ghost bs = batch_shape@;
    let ghost ab = a_batch@;
    let ghost bb = b_batch@;
    let mut out_shape = crate::tensor::copy_usizes(&batch_shape);
    out_shape.push(m);
    out_shape.push(n);
    let ghost os = out_shape@;
    proof {
        assert(os =~= batched_shape(*a, *b));
        lemma_counts_append2(bs, m, n);
        lemma_fits_prods(os);
        assert(os.take(bs.len() as int) =~= bs);
        crate::shape::lemma_prefix_prod_le(os, bs.len() as int);
        crate::shape::lemma_prefix_prod_le(os, bs.len() + 1int);
        assert(os.take(os.len() as int) =~= os);
        crate::shape::lemma_prod_le_nz_prod(os);
        crate::shape::lemma_prod_le_nz_prod(seq![m, n]);
        crate::shape::lemma_prod_le_nz_prod(bs);
        assert(crate::shape::nz_prod(bs) <= crate::shape::nz_prod(os)) by {
            let q = crate::shape::nz_prod(bs) as int;
            let w = crate::shape::nz_prod(seq![m, n]) as int;
            assert(q <= q * w) by (nonlinear_arith)
                requires
                    q >= 1,
                    w >= 1,
            ;
        }
        lemma_fits_prods(bs);
        crate::shape::lemma_prefix_prod_le(bs, bs.len() as int);
        assert(bs.take(bs.len() as int) =~= bs);
        crate::shape::lemma_prod_le_nz_prod(bs);
        assert(crate::shape::nz_prod(bs) >= 1);
        lemma_prod2(m, n);
        assert(crate::shape::nz_prod(seq![m, n]) <= crate::shape::nz_prod(os)) by {
            let q = crate::shape::nz_prod(bs) as int;
            let w = crate::shape::nz_prod(seq![m, n]) as int;
            assert(w <= q * w) by (nonlinear_arith)
                requires
                    q >= 1,
                    w >= 0,
            ;
        }
    }
    let batch_numel = crate::shape::shape_numel(batch_shape.as_slice());
    let mn = m * n;
    let out_numel = batch_numel * m * n;
    assert(out_numel == batch_numel * mn) by (nonlinear_arith)
        requires
            out_numel == batch_numel * m * n,
            mn == m * n,
    ;
    let zero = T::default();
    let mut out_buf: Vec<T> = Vec::new();
    let mut p: usize = 0;
    while p < out_numel
        invariant
            p <= out_numel,
            out_buf@.len() == p,
            forall|q: int| 0 <= q < p ==> #[trigger] out_buf@[q] == zero,
        decreases out_numel - p,
    {
        out_buf.push(zero);
        p = p + 1;
    }
    let mut b_lin: usize = 0;
    while b_lin < batch_numel
        invariant
            b_lin <= batch_numel,
            batch_numel as nat == prod(bs),
            out_numel == batch_numel * mn,
            mn == m * n,
            out_buf@.len() == out_numel,
            a.wf(),
            b.wf(),
            add_total::<T>(),
            mul_total::<T>(),
            batched_ok(*a, *b),
            bs == batch_shape@,
            bs == batched_batch(*a, *b),
            ab == a_batch@,
            bb == b_batch@,
            ab == batch_dims(a.shape_view()),
            bb == batch_dims(b.shape_view()),
            a.rank() == ab.len() + 2,
            b.rank() == bb.len() + 2,
            m == a.shape_view()[a.rank() - 2],
            k_a == a.shape_view()[a.rank() - 1],
            k_a == b.shape_view()[b.rank() - 2],
            n == b.shape_view()[b.rank() - 1],
            shape_fits(seq![m, n]),
            call_ensures(T::default, (), zero),
            forall|q: int| b_lin * mn <= q < out_numel ==> #[trigger] out_buf@[q] == zero,
            forall|bl: int, i: int, j: int|
                0 <= bl < b_lin && 0 <= i < m && 0 <= j < n ==> dot_from_default(
                    batched_row(*a, batch_source(crate::shape::unravel(bl as nat, bs), ab), i),
                    batched_col(*b, batch_source(crate::shape::unravel(bl as nat, bs), bb), j),
                    #[trigger] out_buf@[bl * mn + i * n + j],
                ),
        decreases batch_numel - b_lin,
    {
        proof {
            lemma_batch_pos_bounds(b_lin as int, batch_numel as int, m as int, n as int);
        }
        if m > 0 && n > 0 && k_a > 0 {
            proof {
                tensor_lemma_prod_pos(bs);
                crate::shape::lemma_unravel_ravel(b_lin as nat, bs);
            }
            let b_idx = crate::shape::unravel_index(b_lin, batch_shape.as_slice());
            proof {
                lemma_batch_source_valid(b_idx@, ab, bb);
                lemma_operand_positive(*a, ab, bb, true);
                lemma_operand_positive(*b, ab, bb, false);
            }
            let a_ks = batch_source_vec(&b_idx, a_batch.as_slice());
            let b_ks = batch_source_vec(&b_idx, b_batch.as_slice());
            let a_mat = batch_matrix(a, &a_ks, m, k_a);
            let b_mat = batch_matrix(b, &b_ks, k_a, n);
            let res = matmul_naive(&a_mat, &b_mat);
            let result = match res {
                Ok(c) => c,
                Err(_) => {
                    assert(false);
                    a_mat
                },
            };
            let result_buf = result.to_vec();
            proof {
                lemma_values_hold_matrix(result);
                lemma_prod2(m, n);
            }
            let base = b_lin * mn;
            let mut q: usize = 0;
            let ghost before = out_buf@;
            while q < mn
                invariant
                    q <= mn,
                    mn == m * n,
                    base == b_lin * mn,
                    base + mn <= out_numel,
                    out_buf@.len() == out_numel,
                    result_buf@.len() == mn,
                    forall|p2: int| 0 <= p2 < q ==> #[trigger] out_buf@[base + p2] == result_buf@[p2],
                    forall|p2: int|
                        0 <= p2 < out_numel && !(base <= p2 < base + q) ==> #[trigger] out_buf@[p2]
                            == before[p2],
                decreases mn - q,
            {
                out_buf.set(base + q, result_buf[q]);
                q = q + 1;
            }
            proof {
                lemma_batch_entry(*a, *b, a_mat, b_mat, result, result_buf@, a_ks@, b_ks@, m, k_a, n);
                assert(a_ks@ == batch_source(crate::shape::unravel(b_lin as nat, bs), ab));
                assert(b_ks@ == batch_source(crate::shape::unravel(b_lin as nat, bs), bb));
                assert forall|bl: int, i: int, j: int|
                    0 <= bl < b_lin + 1 && 0 <= i < m && 0 <= j < n implies dot_from_default(
                        batched_row(*a, batch_source(crate::shape::unravel(bl as nat, bs), ab), i),
                        batched_col(*b, batch_source(crate::shape::unravel(bl as nat, bs), bb), j),
                        #[trigger] out_buf@[bl * mn + i * n + j],
                    ) by {
                    lemma_batch_pos(bl, i, j, b_lin as int, batch_numel as int, m as int, n as int);
                    if bl == b_lin {
                        assert(out_buf@[base + (i * n + j)] == result_buf@[i * n + j]);
                    } else {
                        assert(out_buf@[bl * mn + i * n + j] == before[bl * mn + i * n + j]);
                    }
                }
                assert forall|q2: int| (b_lin + 1) * mn <= q2 < out_numel implies #[trigger] out_buf@[q2]
                    == zero by {
                    assert((b_lin + 1) * mn == base + mn) by (nonlinear_arith)
                        requires
                            base == b_lin * mn,
                    ;
                }
            }
        } else {
            proof {
                assert forall|bl: int, i: int, j: int|
                    0 <= bl < b_lin + 1 && 0 <= i < m && 0 <= j < n implies dot_from_default(
                        batched_row(*a, batch_source(crate::shape::unravel(bl as nat, bs), ab), i),
                        batched_col(*b, batch_source(crate::shape::unravel(bl as nat, bs), bb), j),
                        #[trigger] out_buf@[bl * mn + i * n + j],
                    ) by {
                    lemma_batch_pos(bl, i, j, b_lin as int, batch_numel as int, m as int, n as int);
                    if bl == b_lin {
                        let xs = batched_row(*a, batch_source(crate::shape::unravel(bl as nat, bs), ab), i);
                        let ys = batched_col(*b, batch_source(crate::shape::unravel(bl as nat, bs), bb), j);
                        assert(xs.len() == 0);
                        assert(dot_rel(zero, xs, ys, out_buf@[bl * mn + i * n + j]));
                    }
                }
                assert forall|q2: int| (b_lin + 1) * mn <= q2 < out_numel implies #[trigger] out_buf@[q2]
                    == zero by {
                    assert((b_lin + 1) * mn >= b_lin * mn) by (nonlinear_arith)
                        requires
                            mn >= 0,
                    ;
                }
            }
        }
        b_lin = b_lin + 1;
    }
    let ghost outv = out_buf@;
    let c = Tensor::from_vec(out_buf, out_shape.as_slice());
    proof {
        c.lemma_contiguous_values();
        assert forall|bi: Seq<usize>, i: int, j: int|
            valid_index(bi, bs) && 0 <= i < m && 0 <= j < n implies dot_from_default(
                batched_row(*a, batch_source(bi, ab), i),
                batched_col(*b, batch_source(bi, bb), j),
                #[trigger] at_batched(c, bi, i, j),
            ) by {
            let bl = ravel(bi, bs);
            crate::shape::lemma_ravel_unravel(bi, bs);
            let idx = bi + seq![i as usize, j as usize];
            assert(valid_index(idx, os)) by {
                assert forall|x: int| 0 <= x < os.len() implies #[trigger] idx[x] < os[x] by {
                    if x < bs.len() {
                        assert(bi[x] < bs[x]);
                    }
                }
            }
            lemma_ravel_append2(bi, bs, i as usize, j as usize, m, n);
            lemma_batch_pos(bl as int, i, j, batch_numel as int, batch_numel as int, m as int, n as int);
            assert(bs + seq![m, n] == os);
        }
    }
    Ok(c)
}

/// The first `len` entries of a slice.
fn prefix_vec(s: &[usize], len: usize) -> (v: Vec<usize>)
    requires
        len <= s@.len(),
    ensures
        v@ == s@.take(len as int),
{
    let mut v: Vec<usize> = Vec::new();
    let mut i: usize = 0;
    while i < len
        invariant
            i <= len,
            len <= s@.len(),
            v@ == s@.take(i as int),
        decreases len - i,
    {
        v.push(s[i]);
        i = i + 1;
        assert(v@ =~= s@.take(i as int));
    }
    v
}

proof fn tensor_lemma_prod_pos(s: Seq<usize>)
    requires
        prod(s) > 0,
    ensures
        all_positive(s),
{
    crate::tensor::lemma_prod_pos_all_positive(s);
}

/// With every common batch axis positive and a nonempty matrix, no axis of
/// an operand is empty.
proof fn lemma_operand_positive<T>(x: Tensor<T>, ab: Seq<usize>, bb: Seq<usize>, left: bool)
    requires
        crate::shape::broadcast_compatible(ab, bb),
        all_positive(crate::shape::broadcast_shape(ab, bb)),
        left ==> ab == batch_dims(x.shape_view()),
        !left ==> bb == batch_dims(x.shape_view()),
        x.rank() >= 2,
        x.shape_view()[x.rank() - 2] > 0,
        x.shape_view()[x.rank() - 1] > 0,
    ensures
        all_positive(x.shape_view()),
{
    let n = crate::shape::broadcast_rank(ab, bb);
    let bs = crate::shape::broadcast_shape(ab, bb);
    let xb = if left { ab } else { bb };
    assert forall|y: int| 0 <= y < x.rank() implies #[trigger] x.shape_view()[y] > 0 by {
        if y < x.rank() - 2 {
            assert(xb[y] == x.shape_view()[y]);
            let i = y + (n - xb.len());
            assert(crate::shape::aligned_dim(xb, n, i) == xb[y]);
            assert(crate::shape::dims_compatible(
                crate::shape::aligned_dim(ab, n, i),
                crate::shape::aligned_dim(bb, n, i),
            ));
            assert(bs[i] > 0);
        }
    }
}

proof fn lemma_batch_pos_bounds(bl: int, bn: int, m: int, n: int)
    requires
        0 <= bl < bn,
        0 <= m,
        0 <= n,
    ensures
        bl * (m * n) + m * n <= bn * (m * n),
{
    assert(bl * (m * n) + m * n <= bn * (m * n)) by (nonlinear_arith)
        requires
            0 <= bl < bn,
            0 <= m,
            0 <= n,
    ;
}

/// Position `bl * (m * n) + i * n + j` of the batched output buffer.
proof fn lemma_batch_pos(bl: int, i: int, j: int, b_lin: int, bn: int, m: int, n: int)
    requires
        0 <= bl,
        bl <= b_lin <= bn,
        bl < bn,
        0 <= i < m,
        0 <= j < n,
    ensures
        bl * (m * n) + i * n + j < bn * (m * n),
        bl * (m * n) <= bl * (m * n) + i * n + j < bl * (m * n) + m * n,
        bl < b_lin ==> bl * (m * n) + i * n + j < b_lin * (m * n),
        bl == b_lin ==> bl * (m * n) + i * n + j >= b_lin * (m * n),
{
    lemma_row_major_pos(i, j, m, n);
    lemma_batch_pos_bounds(bl, bn, m, n);
    assert(bl * (m * n) >= 0) by (nonlinear_arith)
        requires
            bl >= 0,
            m >= 0,
            n >= 0,
    ;
    if bl < b_lin {
        lemma_batch_pos_bounds(bl, b_lin, m, n);
    }
}

/// The entries of one batch's product, as the batched relation reads them.
proof fn lemma_batch_entry<T: Default + Add<Output = T> + Mul<Output = T>>(
    a: Tensor<T>,
    b: Tensor<T>,
    a_mat: Tensor<T>,
    b_mat: Tensor<T>,
    result: Tensor<T>,
    rb: Seq<T>,
    a_ks: Seq<usize>,
    b_ks: Seq<usize>,
    m: usize,
    k: usize,
    n: usize,
)
    requires
        a_mat.shape_view() == seq![m, k],
        b_mat.shape_view() == seq![k, n],
        a.rank() >= 2,
        b.rank() >= 2,
        inner_dim(a) == k,
        b.shape_view()[b.rank() - 2] == k,
        forall|i: int, t: int|
            0 <= i < m && 0 <= t < k ==> #[trigger] at2(a_mat, i, t) == a.at(
                a_ks + seq![i as usize, t as usize],
            ),
        forall|t: int, j: int|
            0 <= t < k && 0 <= j < n ==> #[trigger] at2(b_mat, t, j) == b.at(
                b_ks + seq![t as usize, j as usize],
            ),
        exists|z: T| call_ensures(T::default, (), z) && is_matmul(a_mat, b_mat, z, result),
        result.rank() == 2,
        holds_matrix(result, rb),
        rb.len() == m * n,
    ensures
        forall|i: int, j: int|
            0 <= i < m && 0 <= j < n ==> dot_from_default(
                batched_row(a, a_ks, i),
                batched_col(b, b_ks, j),
                #[trigger] rb[i * n + j],
            ),
{
    let z = choose|z: T| call_ensures(T::default, (), z) && is_matmul(a_mat, b_mat, z, result);
    assert forall|i: int, j: int| 0 <= i < m && 0 <= j < n implies dot_from_default(
        batched_row(a, a_ks, i),
        batched_col(b, b_ks, j),
        #[trigger] rb[i * n + j],
    ) by {
        assert(row_of(a_mat, i) =~= batched_row(a, a_ks, i)) by {
            assert forall|t: int| 0 <= t < k implies row_of(a_mat, i)[t] == batched_row(a, a_ks, i)[t] by {
                assert(at2(a_mat, i, t) == a.at(a_ks + seq![i as usize, t as usize]));
            }
        }
        assert(col_of(b_mat, j) =~= batched_col(b, b_ks, j)) by {
            assert forall|t: int| 0 <= t < k implies col_of(b_mat, j)[t] == batched_col(b, b_ks, j)[t] by {
                assert(at2(b_mat, t, j) == b.at(b_ks + seq![t as usize, j as usize]));
            }
        }
        assert(rb[i * n + j] == at2(result, i, j));
        assert(dot_rel(z, row_of(a_mat, i), col_of(b_mat, j), at2(result, i, j)));
    }
}


// ---------------------------------------------------------------------------
// Agreement of the products
// ---------------------------------------------------------------------------

/// Multiplication has a single possible result for given operands.
pub open spec fn mul_deterministic<T: Mul<Output = T>>() -> bool {
    forall|x: T, y: T, r: T, s: T|
        #![trigger call_ensures(T::mul, (x, y), r), call_ensures(T::mul, (x, y), s)]
        call_ensures(T::mul, (x, y), r) && call_ensures(T::mul, (x, y), s) ==> r == s
}

/// Addition, multiplication and `T::default()` each have a single possible
/// result for given operands (true of the machine integers; for floats, up
/// to the bit pattern of a NaN).
pub open spec fn ops_deterministic<T: Default + Add<Output = T> + Mul<Output = T>>() -> bool {
    &&& add_deterministic::<T>()
    &&& mul_deterministic::<T>()
    &&& default_deterministic::<T>()
}

/// With deterministic arithmetic, a dot product accumulated in inner-axis
/// order has exactly one value: two kernels that both keep that order agree
/// bit for bit.
pub proof fn law_dot_rel_unique<T: Default + Add<Output = T> + Mul<Output = T>>(
    init: T,
    xs: Seq<T>,
    ys: Seq<T>,
    r1: T,
    r2: T,
)
    requires
        ops_deterministic::<T>(),
        dot_rel(init, xs, ys, r1),
        dot_rel(init, xs, ys, r2),
    ensures
        r1 == r2,
    decreases xs.len(),
{
    if xs.len() > 0 {
        let (s1, p1) = choose|s: T, p: T|
            dot_rel(init, xs.drop_last(), ys.drop_last(), s) && call_ensures(
                T::mul,
                (xs.last(), ys.last()),
                p,
            ) && #[trigger] call_ensures(T::add, (s, p), r1);
        let (s2, p2) = choose|s: T, p: T|
            dot_rel(init, xs.drop_last(), ys.drop_last(), s) && call_ensures(
                T::mul,
                (xs.last(), ys.last()),
                p,
            ) && #[trigger] call_ensures(T::add, (s, p), r2);
        law_dot_rel_unique(init, xs.drop_last(), ys.drop_last(), s1, s2);
        assert(p1 == p2);
    }
}

/// Every logical position of a `[m, n]` tensor is some entry `[i, j]`.
proof fn lemma_values_at2<T>(c: Tensor<T>, p: int)
    requires
        c.rank() == 2,
        0 <= p < c.values().len(),
    ensures
        ({
            let u = unravel(p as nat, c.shape_view());
            &&& u[0] < c.shape_view()[0]
            &&& u[1] < c.shape_view()[1]
            &&& c.values()[p] == at2(c, u[0] as int, u[1] as int)
        }),
{
    let sh = c.shape_view();
    let u = unravel(p as nat, sh);
    crate::shape::lemma_unravel_ravel(p as nat, sh);
    assert(u =~= seq![u[0] as usize, u[1] as usize]);
}

/// With deterministic arithmetic there is one product of two matrices: any
/// two results of the reference, the blocked kernel, the row-band split or
/// the batched product at rank 2 hold the same values in the same shape.
pub proof fn law_matmul_unique<T: Default + Add<Output = T> + Mul<Output = T>>(
    a: Tensor<T>,
    b: Tensor<T>,
    z1: T,
    c1: Tensor<T>,
    z2: T,
    c2: Tensor<T>,
)
    requires
        ops_deterministic::<T>(),
        call_ensures(T::default, (), z1),
        call_ensures(T::default, (), z2),
        is_matmul(a, b, z1, c1),
        is_matmul(a, b, z2, c2),
    ensures
        c1.shape_view() == c2.shape_view(),
        c1.values() == c2.values(),
{
    assert(z1 == z2);
    let m = a.shape_view()[0] as int;
    let n = b.shape_view()[1] as int;
    assert(c1.values() =~= c2.values()) by {
        assert forall|p: int| 0 <= p < c1.values().len() implies c1.values()[p] == c2.values()[p] by {
            lemma_values_at2(c1, p);
            lemma_values_at2(c2, p);
            let u = unravel(p as nat, c1.shape_view());
            let i = u[0] as int;
            let j = u[1] as int;
            assert(dot_rel(z1, row_of(a, i), col_of(b, j), at2(c1, i, j)));
            assert(dot_rel(z1, row_of(a, i), col_of(b, j), at2(c2, i, j)));
            law_dot_rel_unique(z1, row_of(a, i), col_of(b, j), at2(c1, i, j), at2(c2, i, j));
        }
    }
}

/// At rank 2 the batched product is the reference product: both batch
/// prefixes are empty and the single batch entry is the matrix product.
pub proof fn law_batched_rank2_is_reference<T: Default + Add<Output = T> + Mul<Output = T>>(
    a: Tensor<T>,
    b: Tensor<T>,
    c: Tensor<T>,
    z: T,
)
    requires
        ops_deterministic::<T>(),
        a.rank() == 2,
        b.rank() == 2,
        batched_ok(a, b),
        is_batched_matmul(a, b, c),
        call_ensures(T::default, (), z),
    ensures
        matmul_shapes_ok(a, b),
        is_matmul(a, b, z, c),
{
    let e = Seq::<usize>::empty();
    assert(batch_dims(a.shape_view()) =~= e);
    assert(batch_dims(b.shape_view()) =~= e);
    assert(batched_batch(a, b) =~= e);
    assert(batch_source(e, e) =~= e);
    assert(batched_shape(a, b) =~= seq![a.shape_view()[0], b.shape_view()[1]]);
    let m = a.shape_view()[0] as int;
    let n = b.shape_view()[1] as int;
    assert forall|i: int, j: int| 0 <= i < m && 0 <= j < n implies dot_rel(
        z,
        row_of(a, i),
        col_of(b, j),
        #[trigger] at2(c, i, j),
    ) by {
        assert(valid_index(e, batched_batch(a, b)));
        assert(dot_from_default(
            batched_row(a, batch_source(e, batch_dims(a.shape_view())), i),
            batched_col(b, batch_source(e, batch_dims(b.shape_view())), j),
            at_batched(c, e, i, j),
        ));
        assert(e + seq![i as usize, j as usize] =~= seq![i as usize, j as usize]);
        assert(batched_row(a, e, i) =~= row_of(a, i)) by {
            assert forall|t: int| 0 <= t < inner_dim(a) implies batched_row(a, e, i)[t] == row_of(a, i)[t] by {
                assert(e + seq![i as usize, t as usize] =~= seq![i as usize, t as usize]);
            }
        }
        assert(batched_col(b, e, j) =~= col_of(b, j)) by {
            assert forall|t: int| 0 <= t < b.shape_view()[0] implies batched_col(b, e, j)[t] == col_of(b, j)[t] by {
                assert(e + seq![t as usize, j as usize] =~= seq![t as usize, j as usize]);
            }
        }
        let z2 = choose|z2: T| call_ensures(T::default, (), z2) && dot_rel(
            z2,
            batched_row(a, e, i),
            batched_col(b, e, j),
            at_batched(c, e, i, j),
        );
        assert(z2 == z);
    }
}

/// At every rank, each batch entry of the batched product is the reference
/// product of the two matrices that its batch index selects: with
/// deterministic arithmetic, if `aq` and `bq` are those matrices (batch axes
/// aligned from the right, an operand's batch axes of length 1 read at 0)
/// and `cq` is their product as `matmul_naive` gives it, then the `[M, N]`
/// block of `c` at batch index `bi` is `cq`, entry for entry.
pub proof fn law_batched_block_is_reference<T: Default + Add<Output = T> + Mul<Output = T>>(
    a: Tensor<T>,
    b: Tensor<T>,
    c: Tensor<T>,
    bi: Seq<usize>,
    aq: Tensor<T>,
    bq: Tensor<T>,
    z: T,
    cq: Tensor<T>,
)
    requires
        ops_deterministic::<T>(),
        batched_ok(a, b),
        is_batched_matmul(a, b, c),
        valid_index(bi, batched_batch(a, b)),
        aq.shape_view() == seq![a.shape_view()[a.rank() - 2], inner_dim(a)],
        bq.shape_view() == seq![b.shape_view()[b.rank() - 2], b.shape_view()[b.rank() - 1]],
        forall|i: int, t: int|
            0 <= i < a.shape_view()[a.rank() - 2] && 0 <= t < inner_dim(a) ==> #[trigger] at2(aq, i, t)
                == a.at(batch_source(bi, batch_dims(a.shape_view())) + seq![i as usize, t as usize]),
        forall|t: int, j: int|
            0 <= t < b.shape_view()[b.rank() - 2] && 0 <= j < b.shape_view()[b.rank() - 1]
                ==> #[trigger] at2(bq, t, j) == b.at(
                batch_source(bi, batch_dims(b.shape_view())) + seq![t as usize, j as usize],
            ),
        call_ensures(T::default, (), z),
        is_matmul(aq, bq, z, cq),
    ensures
        cq.shape_view() == seq![a.shape_view()[a.rank() - 2], b.shape_view()[b.rank() - 1]],
        forall|i: int, j: int|
            0 <= i < a.shape_view()[a.rank() - 2] && 0 <= j < b.shape_view()[b.rank() - 1]
                ==> #[trigger] at2(cq, i, j) == at_batched(c, bi, i, j),
{
    let m = a.shape_view()[a.rank() - 2] as int;
    let n = b.shape_view()[b.rank() - 1] as int;
    let k = inner_dim(a) as int;
    let sa = batch_source(bi, batch_dims(a.shape_view()));
    let sb = batch_source(bi, batch_dims(b.shape_view()));
    assert forall|i: int, j: int| 0 <= i < m && 0 <= j < n implies #[trigger] at2(cq, i, j)
        == at_batched(c, bi, i, j) by {
        assert(row_of(aq, i) =~= batched_row(a, sa, i)) by {
            assert forall|t: int| 0 <= t < k implies row_of(aq, i)[t] == batched_row(a, sa, i)[t] by {
                assert(at2(aq, i, t) == a.at(sa + seq![i as usize, t as usize]));
            }
        }
        assert(col_of(bq, j) =~= batched_col(b, sb, j)) by {
            assert forall|t: int| 0 <= t < b.shape_view()[b.rank() - 2] implies col_of(bq, j)[t]
                == batched_col(b, sb, j)[t] by {
                assert(at2(bq, t, j) == b.at(sb + seq![t as usize, j as usize]));
            }
        }
        assert(dot_from_default(batched_row(a, sa, i), batched_col(b, sb, j), at_batched(c, bi, i, j)));
        let z2 = choose|z2: T| call_ensures(T::default, (), z2) && dot_rel(
            z2,
            batched_row(a, sa, i),
            batched_col(b, sb, j),
            at_batched(c, bi, i, j),
        );
        assert(z2 == z);
        assert(dot_rel(z, row_of(aq, i), col_of(bq, j), at2(cq, i, j)));
        law_dot_rel_unique(z, row_of(aq, i), col_of(bq, j), at2(cq, i, j), at_batched(c, bi, i, j));
    }
}

/// Batch axes broadcast aligned from the right: at common batch index `bi`,
/// an operand with batch axes `ab` reads, on its batch axis `x`, index
/// `bi[x + (bi.len() - ab.len())]`, or 0 where `ab[x] == 1`. So entry
/// `[i, j]` of the block of `matmul(a, b)` at `bi` is the dot product,
/// accumulated from zero, of row `i` of the matrix of `a` at `sa` and column
/// `j` of the matrix of `b` at `sb`, for the indices `sa` and `sb` so read.
pub proof fn law_batched_reads_aligned<T: Default + Add<Output = T> + Mul<Output = T>>(
    a: Tensor<T>,
    b: Tensor<T>,
    c: Tensor<T>,
    bi: Seq<usize>,
    sa: Seq<usize>,
    sb: Seq<usize>,
    i: int,
    j: int,
)
    requires
        batched_ok(a, b),
        is_batched_matmul(a, b, c),
        valid_index(bi, batched_batch(a, b)),
        0 <= i < a.shape_view()[a.rank() - 2],
        0 <= j < b.shape_view()[b.rank() - 1],
        sa.len() == a.rank() - 2,
        forall|x: int|
            0 <= x < sa.len() ==> #[trigger] sa[x] == (if a.shape_view()[x] == 1 {
                0usize
            } else {
                bi[x + (bi.len() - sa.len())]
            }),
        sb.len() == b.rank() - 2,
        forall|x: int|
            0 <= x < sb.len() ==> #[trigger] sb[x] == (if b.shape_view()[x] == 1 {
                0usize
            } else {
                bi[x + (bi.len() - sb.len())]
            }),
    ensures
        exists|z: T|
            call_ensures(T::default, (), z) && dot_rel(
                z,
                Seq::new(
                    a.shape_view()[a.rank() - 1] as nat,
                    |t: int| a.at(sa + seq![i as usize, t as usize]),
                ),
                Seq::new(
                    b.shape_view()[b.rank() - 2] as nat,
                    |t: int| b.at(sb + seq![t as usize, j as usize]),
                ),
                at_batched(c, bi, i, j),
            ),
{
    let ab = batch_dims(a.shape_view());
    let bb = batch_dims(b.shape_view());
    assert(sa =~= batch_source(bi, ab));
    assert(sb =~= batch_source(bi, bb));
    assert(batched_row(a, sa, i) =~= Seq::new(
        a.shape_view()[a.rank() - 1] as nat,
        |t: int| a.at(sa + seq![i as usize, t as usize]),
    ));
    assert(batched_col(b, sb, j) =~= Seq::new(
        b.shape_view()[b.rank() - 2] as nat,
        |t: int| b.at(sb + seq![t as usize, j as usize]),
    ));
    assert(dot_from_default(batched_row(a, sa, i), batched_col(b, sb, j), at_batched(c, bi, i, j)));
}

} // verus!
