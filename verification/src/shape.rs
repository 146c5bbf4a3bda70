//! Shapes, strides and flat indices: the integer arithmetic under every
//! tensor view.
//!
//! A shape is a sequence of axis lengths. A row-major layout gives axis `i`
//! the stride `prod(shape[i+1..])`. A multi-index `idx` lies at the flat
//! position `dot(idx, strides)`; `ravel` and `unravel` translate between a
//! multi-index and its row-major position.
use vstd::prelude::*;
use vstd::arithmetic::div_mod::lemma_fundamental_div_mod_converse;
use vstd::arithmetic::div_mod::lemma_fundamental_div_mod;
use vstd::arithmetic::mul::lemma_mul_inequality;
use vstd::arithmetic::mul::lemma_mul_is_associative;
use vstd::arithmetic::mul::lemma_mul_is_distributive_add;

verus! {

/// Why a shape operation was refused.
#[derive(Debug, Clone, Copy, PartialEq, Eq, Structural)]
pub enum ShapeError {
    /// The operation needs a contiguous, offset-0 layout.
    NotContiguous,
    /// A rank did not match: `got` axes where `want` were expected.
    BadRank { got: usize, want: usize },
    /// Two shapes do not agree (element counts, broadcasting, matrix dims).
    SizeMismatch,
    /// An axis or a range lies outside the shape.
    OutOfBounds,
    /// An axis order is not a permutation of the axes.
    InvalidPermutation,
}

// ---------------------------------------------------------------------------
// Spec model
// ---------------------------------------------------------------------------

/// The product of all entries, folded from the left. The empty product is 1.
pub open spec fn prod(s: Seq<usize>) -> nat
    decreases s.len(),
{
    if s.len() == 0 {
        1
    } else {
        prod(s.drop_last()) * (s.last() as nat)
    }
}

/// The product of the entries with every 0 counted as 1. Every sub-product
/// of `s`, in any order, is at most this number.
pub open spec fn nz_prod(s: Seq<usize>) -> nat
    decreases s.len(),
{
    if s.len() == 0 {
        1
    } else {
        nz_prod(s.drop_last()) * (if s.last() == 0 { 1nat } else { s.last() as nat })
    }
}

/// A shape whose element counts can be computed in `usize`: no product of
/// its nonzero axis lengths overflows.
pub open spec fn shape_fits(s: Seq<usize>) -> bool {
    nz_prod(s) <= usize::MAX
}

/// `Σ idx[i] * strides[i]`, folded from the left; 0 unless the lengths agree.
pub open spec fn dot(idx: Seq<usize>, strides: Seq<usize>) -> nat
    decreases idx.len(),
{
    if idx.len() == 0 || idx.len() != strides.len() {
        0
    } else {
        dot(idx.drop_last(), strides.drop_last()) + (idx.last() as nat) * (strides.last() as nat)
    }
}

/// `dot` against strides that are natural numbers.
pub open spec fn dotn(idx: Seq<usize>, strides: Seq<nat>) -> nat
    decreases idx.len(),
{
    if idx.len() == 0 || idx.len() != strides.len() {
        0
    } else {
        dotn(idx.drop_last(), strides.drop_last()) + (idx.last() as nat) * strides.last()
    }
}

/// `idx` names one element of a tensor of shape `shape`.
pub open spec fn valid_index(idx: Seq<usize>, shape: Seq<usize>) -> bool {
    &&& idx.len() == shape.len()
    &&& forall|i: int| 0 <= i < shape.len() ==> #[trigger] idx[i] < shape[i]
}

/// The row-major strides of a shape: axis `i` steps over `prod(shape[i+1..])`.
pub open spec fn row_major_strides(shape: Seq<usize>) -> Seq<nat> {
    Seq::new(shape.len(), |i: int| prod(shape.subrange(i + 1, shape.len() as int)))
}

/// The row-major position of a multi-index (Horner's rule).
pub open spec fn ravel(idx: Seq<usize>, shape: Seq<usize>) -> nat
    decreases shape.len(),
{
    if shape.len() == 0 || idx.len() == 0 {
        0
    } else {
        ravel(idx.drop_last(), shape.drop_last()) * (shape.last() as nat) + (idx.last() as nat)
    }
}

/// The multi-index at row-major position `flat`: mixed-radix digits,
/// innermost axis last.
pub open spec fn unravel(flat: nat, shape: Seq<usize>) -> Seq<usize>
    decreases shape.len(),
{
    if shape.len() == 0 {
        Seq::empty()
    } else {
        let d = shape.last() as nat;
        unravel(flat / d, shape.drop_last()).push((flat % d) as usize)
    }
}

/// Every axis of `shape` has at least one entry.
pub open spec fn all_positive(shape: Seq<usize>) -> bool {
    forall|i: int| 0 <= i < shape.len() ==> #[trigger] shape[i] > 0
}

/// The length of axis `i` of `s` when `s` is aligned from the right inside a
/// shape of rank `n`; a missing leading axis counts as 1.
pub open spec fn aligned_dim(s: Seq<usize>, n: int, i: int) -> usize {
    if i >= n - s.len() {
        s[i - (n - s.len())]
    } else {
        1
    }
}

/// The common rank of two shapes under broadcasting.
pub open spec fn broadcast_rank(a: Seq<usize>, b: Seq<usize>) -> int {
    if a.len() >= b.len() {
        a.len() as int
    } else {
        b.len() as int
    }
}

/// Two axis lengths broadcast when they are equal or one of them is 1.
pub open spec fn dims_compatible(da: usize, db: usize) -> bool {
    da == db || da == 1 || db == 1
}

/// Aligned from the trailing axis, every pair of axis lengths broadcasts.
pub open spec fn broadcast_compatible(a: Seq<usize>, b: Seq<usize>) -> bool {
    let n = broadcast_rank(a, b);
    forall|i: int|
        0 <= i < n ==> dims_compatible(#[trigger] aligned_dim(a, n, i), aligned_dim(b, n, i))
}

/// The broadcast of two axis lengths: the one that is not a stretched 1.
pub open spec fn merge_dims(da: usize, db: usize) -> usize {
    if da == db {
        da
    } else if da == 1 {
        db
    } else {
        da
    }
}

/// The common shape of two compatible shapes.
pub open spec fn broadcast_shape(a: Seq<usize>, b: Seq<usize>) -> Seq<usize> {
    let n = broadcast_rank(a, b);
    Seq::new(n as nat, |i: int| merge_dims(aligned_dim(a, n, i), aligned_dim(b, n, i)))
}

// ---------------------------------------------------------------------------
// Lemmas
// ---------------------------------------------------------------------------

/// Pushing an entry multiplies the product by it.
pub proof fn lemma_prod_push(s: Seq<usize>, x: usize)
    ensures
        prod(s.push(x)) == prod(s) * (x as nat),
{
    assert(s.push(x).drop_last() =~= s);
}

/// Splitting off the first entry.
pub proof fn lemma_prod_first(s: Seq<usize>)
    requires
        s.len() > 0,
    ensures
        prod(s) == (s[0] as nat) * prod(s.drop_first()),
    decreases s.len(),
{
    if s.len() == 1 {
        assert(s.drop_last() =~= Seq::<usize>::empty());
        assert(s.drop_first() =~= Seq::<usize>::empty());
        assert(prod(Seq::<usize>::empty()) == 1);
        assert(prod(s) == 1 * (s[0] as nat));
    } else {
        let t = s.drop_last();
        lemma_prod_first(t);
        let p1 = prod(t.drop_first()) as int;
        let x0 = s[0] as int;
        let xl = s.last() as int;
        let u = s.drop_first();
        assert(t.drop_first() =~= u.drop_last());
        assert(u.last() == s.last());
        assert(prod(u) == prod(u.drop_last()) * (u.last() as nat));
        assert(prod(s) == prod(t) * (s.last() as nat));
        assert(t[0] == s[0]);
        assert(prod(t) == x0 * p1);
        assert((x0 * p1) * xl == x0 * (p1 * xl)) by (nonlinear_arith);
    }
}

/// The product of a suffix, split at its first entry.
pub proof fn lemma_prod_suffix_step(s: Seq<usize>, i: int)
    requires
        0 <= i < s.len(),
    ensures
        prod(s.subrange(i, s.len() as int)) == (s[i] as nat) * prod(
            s.subrange(i + 1, s.len() as int),
        ),
{
    lemma_prod_first(s.subrange(i, s.len() as int));
    assert(s.subrange(i, s.len() as int).drop_first() =~= s.subrange(i + 1, s.len() as int));
}

/// `prod(s)` is at most `nz_prod(s)`.
pub proof fn lemma_prod_le_nz_prod(s: Seq<usize>)
    ensures
        prod(s) <= nz_prod(s),
        nz_prod(s) >= 1,
    decreases s.len(),
{
    if s.len() > 0 {
        let t = s.drop_last();
        lemma_prod_le_nz_prod(t);
        let a = prod(t) as int;
        let b = nz_prod(t) as int;
        let x = s.last() as int;
        if x == 0 {
            assert(a * 0 == 0) by (nonlinear_arith);
            assert(b * 1 == b) by (nonlinear_arith);
        } else {
            lemma_mul_inequality(a, b, x);
            assert(b * x >= 1) by (nonlinear_arith)
                requires
                    b >= 1,
                    x >= 1,
            ;
        }
    }
}

/// Dropping the last axis never raises `nz_prod`.
pub proof fn lemma_nz_prod_drop_last(s: Seq<usize>)
    requires
        s.len() > 0,
    ensures
        nz_prod(s.drop_last()) <= nz_prod(s),
{
    lemma_prod_le_nz_prod(s.drop_last());
    let b = nz_prod(s.drop_last()) as int;
    let x: int = if s.last() == 0 { 1 } else { s.last() as int };
    assert(b <= b * x) by (nonlinear_arith)
        requires
            b >= 1,
            x >= 1,
    ;
}

/// Every prefix product is at most `nz_prod`.
pub proof fn lemma_prefix_prod_le(s: Seq<usize>, i: int)
    requires
        0 <= i <= s.len(),
    ensures
        prod(s.take(i)) <= nz_prod(s),
    decreases s.len(),
{
    if i == s.len() {
        assert(s.take(i) =~= s);
        lemma_prod_le_nz_prod(s);
    } else {
        lemma_prefix_prod_le(s.drop_last(), i);
        assert(s.drop_last().take(i) =~= s.take(i));
        lemma_nz_prod_drop_last(s);
    }
}

/// `nz_prod` of `seq![x] + t`.
proof fn lemma_nz_prod_first(s: Seq<usize>)
    requires
        s.len() > 0,
    ensures
        nz_prod(s) == (if s[0] == 0 { 1nat } else { s[0] as nat }) * nz_prod(s.drop_first()),
    decreases s.len(),
{
    let f: int = if s[0] == 0 { 1 } else { s[0] as int };
    if s.len() == 1 {
        assert(s.drop_last() =~= Seq::<usize>::empty());
        assert(s.drop_first() =~= Seq::<usize>::empty());
        assert(nz_prod(Seq::<usize>::empty()) == 1);
        assert(nz_prod(s) == 1 * f);
    } else {
        let t = s.drop_last();
        lemma_nz_prod_first(t);
        let u = s.drop_first();
        assert(t.drop_first() =~= u.drop_last());
        assert(u.last() == s.last());
        assert(t[0] == s[0]);
        let l: int = if s.last() == 0 { 1 } else { s.last() as int };
        let p1 = nz_prod(t.drop_first()) as int;
        assert(nz_prod(u) == p1 * l);
        assert(nz_prod(t) == f * p1);
        assert(nz_prod(s) == nz_prod(t) * l);
        assert((f * p1) * l == f * (p1 * l)) by (nonlinear_arith);
    }
}

/// Every suffix product is at most `nz_prod`.
pub proof fn lemma_suffix_prod_le(s: Seq<usize>, i: int)
    requires
        0 <= i <= s.len(),
    ensures
        prod(s.subrange(i, s.len() as int)) <= nz_prod(s),
    decreases i,
{
    if i == 0 {
        assert(s.subrange(0, s.len() as int) =~= s);
        lemma_prod_le_nz_prod(s);
    } else {
        let t = s.drop_first();
        lemma_suffix_prod_le(t, i - 1);
        assert(t.subrange(i - 1, t.len() as int) =~= s.subrange(i, s.len() as int));
        lemma_nz_prod_first(s);
        lemma_prod_le_nz_prod(t);
        let b = nz_prod(t) as int;
        let f: int = if s[0] == 0 { 1 } else { s[0] as int };
        assert(b <= f * b) by (nonlinear_arith)
            requires
                b >= 1,
                f >= 1,
        ;
    }
}

/// A valid multi-index has a row-major position inside the shape, and
/// `unravel` gives it back.
pub proof fn lemma_ravel_unravel(idx: Seq<usize>, shape: Seq<usize>)
    requires
        valid_index(idx, shape),
    ensures
        ravel(idx, shape) < prod(shape),
        unravel(ravel(idx, shape), shape) == idx,
    decreases shape.len(),
{
    if shape.len() > 0 {
        let i2 = idx.drop_last();
        let s2 = shape.drop_last();
        assert(valid_index(i2, s2)) by {
            assert forall|j: int| 0 <= j < s2.len() implies #[trigger] i2[j] < s2[j] by {
                assert(idx[j] < shape[j]);
            }
        }
        lemma_ravel_unravel(i2, s2);
        let r2 = ravel(i2, s2) as int;
        let d = shape.last() as int;
        let x = idx.last() as int;
        assert(x < d) by {
            assert(idx[idx.len() - 1] < shape[shape.len() - 1]);
        }
        let r = r2 * d + x;
        assert(ravel(idx, shape) == r);
        lemma_fundamental_div_mod_converse(r, d, r2, x);
        let p2 = prod(s2) as int;
        assert(r < p2 * d) by (nonlinear_arith)
            requires
                r == r2 * d + x,
                0 <= r2 < p2,
                0 <= x < d,
        ;
        assert(unravel(r as nat, shape) =~= unravel(r2 as nat, s2).push(x as usize));
        assert(i2.push(idx.last()) =~= idx);
    }
}

/// Every row-major position inside the shape unravels to a valid index
/// whose position it is.
pub proof fn lemma_unravel_ravel(flat: nat, shape: Seq<usize>)
    requires
        flat < prod(shape),
    ensures
        valid_index(unravel(flat, shape), shape),
        ravel(unravel(flat, shape), shape) == flat,
    decreases shape.len(),
{
    if shape.len() > 0 {
        let s2 = shape.drop_last();
        let d = shape.last() as int;
        let p2 = prod(s2) as int;
        assert(d > 0) by {
            if d == 0 {
                assert(p2 * 0 == 0) by (nonlinear_arith);
            }
        }
        lemma_fundamental_div_mod(flat as int, d);
        let q = flat as int / d;
        let r = flat as int % d;
        assert(q < p2) by (nonlinear_arith)
            requires
                flat == d * q + r,
                0 <= r < d,
                flat < p2 * d,
                q >= 0,
        ;
        lemma_unravel_ravel(q as nat, s2);
        let u = unravel(flat, shape);
        let u2 = unravel(q as nat, s2);
        assert(u == u2.push(r as usize));
        assert(u.drop_last() =~= u2);
        assert forall|j: int| 0 <= j < shape.len() implies #[trigger] u[j] < shape[j] by {
            if j < shape.len() - 1 {
                assert(u[j] == u2[j]);
            }
        }
        assert(ravel(u, shape) == ravel(u2, s2) * (d as nat) + (r as nat));
        assert(q * d == d * q) by (nonlinear_arith);
    }
}

/// The prefix dot products of equal-length sequences grow by one term.
pub proof fn lemma_dot_take(idx: Seq<usize>, strides: Seq<usize>, i: int)
    requires
        idx.len() == strides.len(),
        0 <= i < idx.len(),
    ensures
        dot(idx.take(i + 1), strides.take(i + 1)) == dot(idx.take(i), strides.take(i)) + (
        idx[i] as nat) * (strides[i] as nat),
{
    assert(idx.take(i + 1).drop_last() =~= idx.take(i));
    assert(strides.take(i + 1).drop_last() =~= strides.take(i));
}

/// The largest flat offset that a valid index of `shape` reaches.
pub open spec fn max_dot(shape: Seq<usize>, strides: Seq<usize>) -> nat
    decreases shape.len(),
{
    if shape.len() == 0 || strides.len() == 0 {
        0
    } else {
        max_dot(shape.drop_last(), strides.drop_last()) + ((if shape.last() == 0 {
            0
        } else {
            shape.last() - 1
        }) as nat) * (strides.last() as nat)
    }
}

/// A valid index never passes the largest offset.
pub proof fn lemma_dot_le_max_dot(idx: Seq<usize>, shape: Seq<usize>, strides: Seq<usize>)
    requires
        valid_index(idx, shape),
        strides.len() == shape.len(),
    ensures
        dot(idx, strides) <= max_dot(shape, strides),
    decreases shape.len(),
{
    if shape.len() > 0 {
        let i2 = idx.drop_last();
        let s2 = shape.drop_last();
        assert(valid_index(i2, s2)) by {
            assert forall|j: int| 0 <= j < s2.len() implies #[trigger] i2[j] < s2[j] by {
                assert(idx[j] < shape[j]);
            }
        }
        lemma_dot_le_max_dot(i2, s2, strides.drop_last());
        assert(idx[idx.len() - 1] < shape[shape.len() - 1]);
        let x = idx.last() as int;
        let m = shape.last() as int - 1;
        let st = strides.last() as int;
        lemma_mul_inequality(x, m, st);
    }
}

/// `dot` equals `dotn` on the same strides read as naturals.
pub proof fn lemma_dot_dotn(idx: Seq<usize>, strides: Seq<usize>, sn: Seq<nat>)
    requires
        idx.len() == strides.len(),
        sn.len() == strides.len(),
        forall|i: int| 0 <= i < strides.len() ==> #[trigger] sn[i] == strides[i] as nat,
    ensures
        dot(idx, strides) == dotn(idx, sn),
    decreases idx.len(),
{
    if idx.len() > 0 {
        lemma_dot_dotn(idx.drop_last(), strides.drop_last(), sn.drop_last());
    }
}

/// Scaling every stride scales `dotn`.
pub proof fn lemma_dotn_scale(idx: Seq<usize>, st: Seq<nat>, d: nat)
    requires
        idx.len() == st.len(),
    ensures
        dotn(idx, Seq::new(st.len(), |i: int| st[i] * d)) == dotn(idx, st) * d,
    decreases idx.len(),
{
    let sc = Seq::new(st.len(), |i: int| st[i] * d);
    if idx.len() > 0 {
        let st2 = st.drop_last();
        lemma_dotn_scale(idx.drop_last(), st2, d);
        assert(sc.drop_last() =~= Seq::new(st2.len(), |i: int| st2[i] * d));
        assert(sc.last() == st.last() * d);
        assert(dotn(idx, sc) == dotn(idx.drop_last(), sc.drop_last()) + (idx.last() as nat) * sc.last());
        let a = dotn(idx.drop_last(), st2) as int;
        let x = idx.last() as int;
        let y = st.last() as int;
        let di = d as int;
        assert(dotn(idx, st) == a + x * y);
        assert(dotn(idx, sc) == a * di + x * (y * di));
        assert(a * di + x * (y * di) == (a + x * y) * di) by (nonlinear_arith);
        assert(dotn(idx, sc) == dotn(idx, st) * d);
    } else {
        assert(dotn(idx, sc) == 0);
        assert(dotn(idx, st) == 0);
        assert(0 * d == 0);
    }
}

/// Against row-major strides, `dotn` is `ravel`.
pub proof fn lemma_dotn_row_major(idx: Seq<usize>, shape: Seq<usize>)
    requires
        idx.len() == shape.len(),
    ensures
        dotn(idx, row_major_strides(shape)) == ravel(idx, shape),
    decreases shape.len(),
{
    if shape.len() > 0 {
        let n = shape.len() as int;
        let s2 = shape.drop_last();
        let d = shape.last() as nat;
        let rm = row_major_strides(shape);
        let rm2 = row_major_strides(s2);
        let sc = Seq::new(rm2.len(), |i: int| rm2[i] * d);
        assert forall|i: int| 0 <= i < n - 1 implies #[trigger] rm.drop_last()[i] == sc[i] by {
            let sub = shape.subrange(i + 1, n);
            assert(sub.drop_last() =~= s2.subrange(i + 1, n - 1));
            assert(sub.last() == shape.last());
        }
        assert(rm.drop_last() =~= sc);
        lemma_dotn_scale(idx.drop_last(), rm2, d);
        lemma_dotn_row_major(idx.drop_last(), s2);
        assert(shape.subrange(n, n) =~= Seq::<usize>::empty());
        assert(rm.last() == 1);
    }
}

/// Row-major strides turn `dot` into `ravel`.
pub proof fn lemma_dot_row_major(idx: Seq<usize>, shape: Seq<usize>, strides: Seq<usize>)
    requires
        idx.len() == shape.len(),
        strides.len() == shape.len(),
        forall|i: int|
            0 <= i < shape.len() ==> #[trigger] strides[i] as nat == row_major_strides(shape)[i],
    ensures
        dot(idx, strides) == ravel(idx, shape),
{
    lemma_dot_dotn(idx, strides, row_major_strides(shape));
    lemma_dotn_row_major(idx, shape);
}

// ---------------------------------------------------------------------------
// Sums and products of natural numbers, and their invariance under
// permutations
// ---------------------------------------------------------------------------

/// The sum of a sequence of naturals.
pub open spec fn sumn(t: Seq<nat>) -> nat
    decreases t.len(),
{
    if t.len() == 0 {
        0
    } else {
        sumn(t.drop_last()) + t.last()
    }
}

/// The product of a sequence of naturals.
pub open spec fn prodn(t: Seq<nat>) -> nat
    decreases t.len(),
{
    if t.len() == 0 {
        1
    } else {
        prodn(t.drop_last()) * t.last()
    }
}

/// The entries of `s` picked in the order `order`: `gather(s, order)[i] == s[order[i]]`.
pub open spec fn gather<A>(s: Seq<A>, order: Seq<usize>) -> Seq<A> {
    Seq::new(order.len(), |i: int| s[order[i] as int])
}

/// `order` lists each of `0..n` exactly once.
pub open spec fn is_permutation(order: Seq<usize>, n: nat) -> bool {
    &&& order.len() == n
    &&& forall|i: int| 0 <= i < n ==> #[trigger] order[i] < n
    &&& forall|i: int, j: int| 0 <= i < j < n ==> order[i] != order[j]
}

/// Removing one entry takes it out of the sum.
pub proof fn lemma_sumn_remove(t: Seq<nat>, v: int)
    requires
        0 <= v < t.len(),
    ensures
        sumn(t) == sumn(t.remove(v)) + t[v],
    decreases t.len(),
{
    if v == t.len() - 1 {
        assert(t.remove(v) =~= t.drop_last());
    } else {
        lemma_sumn_remove(t.drop_last(), v);
        assert(t.remove(v).drop_last() =~= t.drop_last().remove(v));
        assert(t.remove(v).last() == t.last());
    }
}

/// Removing one entry divides it out of the product.
pub proof fn lemma_prodn_remove(t: Seq<nat>, v: int)
    requires
        0 <= v < t.len(),
    ensures
        prodn(t) == prodn(t.remove(v)) * t[v],
    decreases t.len(),
{
    if v == t.len() - 1 {
        assert(t.remove(v) =~= t.drop_last());
    } else {
        lemma_prodn_remove(t.drop_last(), v);
        assert(t.remove(v).drop_last() =~= t.drop_last().remove(v));
        assert(t.remove(v).last() == t.last());
        let a = prodn(t.drop_last().remove(v)) as int;
        let b = t[v] as int;
        let c = t.last() as int;
        assert((a * b) * c == (a * c) * b) by (nonlinear_arith);
    }
}

/// The permutation that `order` induces on `0..n-1` after the entry
/// `order.last()` is taken out of the range.
pub open spec fn perm_without_last(order: Seq<usize>) -> Seq<usize> {
    let v = order.last();
    Seq::new(
        (order.len() - 1) as nat,
        |i: int| if order[i] < v { order[i] } else { (order[i] - 1) as usize },
    )
}

proof fn lemma_perm_without_last(order: Seq<usize>)
    requires
        order.len() > 0,
        is_permutation(order, order.len()),
    ensures
        is_permutation(perm_without_last(order), (order.len() - 1) as nat),
{
    let n = order.len() as int;
    let v = order.last();
    let p = perm_without_last(order);
    assert forall|i: int| 0 <= i < n - 1 implies #[trigger] p[i] < n - 1 by {
        assert(order[i] != order[n - 1]);
        assert(order[i] < n);
    }
    assert forall|i: int, j: int| 0 <= i < j < n - 1 implies p[i] != p[j] by {
        assert(order[i] != order[j]);
        assert(order[i] != order[n - 1]);
        assert(order[j] != order[n - 1]);
    }
}

/// Reordering the terms does not change a sum.
pub proof fn lemma_sumn_perm(t: Seq<nat>, order: Seq<usize>)
    requires
        is_permutation(order, t.len()),
    ensures
        sumn(gather(t, order)) == sumn(t),
    decreases t.len(),
{
    let n = t.len() as int;
    if n > 0 {
        let v = order.last() as int;
        assert(order[n - 1] < n);
        let g = gather(t, order);
        let t2 = t.remove(v);
        let p = perm_without_last(order);
        lemma_perm_without_last(order);
        lemma_sumn_perm(t2, p);
        assert(gather(t2, p) =~= g.drop_last()) by {
            assert forall|i: int| 0 <= i < n - 1 implies #[trigger] gather(t2, p)[i] == g.drop_last()[i] by {
                assert(order[i] != order[n - 1]);
            }
        }
        lemma_sumn_remove(t, v);
    }
}

/// Reordering the factors does not change a product.
pub proof fn lemma_prodn_perm(t: Seq<nat>, order: Seq<usize>)
    requires
        is_permutation(order, t.len()),
    ensures
        prodn(gather(t, order)) == prodn(t),
    decreases t.len(),
{
    let n = t.len() as int;
    if n > 0 {
        let v = order.last() as int;
        assert(order[n - 1] < n);
        let g = gather(t, order);
        let t2 = t.remove(v);
        let p = perm_without_last(order);
        lemma_perm_without_last(order);
        lemma_prodn_perm(t2, p);
        assert(gather(t2, p) =~= g.drop_last()) by {
            assert forall|i: int| 0 <= i < n - 1 implies #[trigger] gather(t2, p)[i] == g.drop_last()[i] by {
                assert(order[i] != order[n - 1]);
            }
        }
        lemma_prodn_remove(t, v);
    }
}

/// The axis lengths as naturals.
pub open spec fn dims_nat(s: Seq<usize>) -> Seq<nat> {
    Seq::new(s.len(), |i: int| s[i] as nat)
}

/// The axis lengths with 0 counted as 1.
pub open spec fn dims_nz(s: Seq<usize>) -> Seq<nat> {
    Seq::new(s.len(), |i: int| if s[i] == 0 { 1nat } else { s[i] as nat })
}

/// The termwise products of two index sequences.
pub open spec fn dot_terms(a: Seq<usize>, b: Seq<usize>) -> Seq<nat> {
    Seq::new(a.len(), |i: int| (a[i] as nat) * (b[i] as nat))
}

pub proof fn lemma_prod_prodn(s: Seq<usize>)
    ensures
        prod(s) == prodn(dims_nat(s)),
        nz_prod(s) == prodn(dims_nz(s)),
    decreases s.len(),
{
    if s.len() > 0 {
        lemma_prod_prodn(s.drop_last());
        assert(dims_nat(s).drop_last() =~= dims_nat(s.drop_last()));
        assert(dims_nz(s).drop_last() =~= dims_nz(s.drop_last()));
    }
}

pub proof fn lemma_dot_sumn(a: Seq<usize>, b: Seq<usize>)
    requires
        a.len() == b.len(),
    ensures
        dot(a, b) == sumn(dot_terms(a, b)),
    decreases a.len(),
{
    if a.len() > 0 {
        lemma_dot_sumn(a.drop_last(), b.drop_last());
        assert(dot_terms(a, b).drop_last() =~= dot_terms(a.drop_last(), b.drop_last()));
    }
}

/// Permuting the axes of an index and of the strides together keeps `dot`.
pub proof fn lemma_dot_perm(a: Seq<usize>, b: Seq<usize>, order: Seq<usize>)
    requires
        a.len() == b.len(),
        is_permutation(order, a.len()),
    ensures
        dot(gather(a, order), gather(b, order)) == dot(a, b),
{
    lemma_dot_sumn(a, b);
    lemma_dot_sumn(gather(a, order), gather(b, order));
    assert(dot_terms(gather(a, order), gather(b, order)) =~= gather(dot_terms(a, b), order));
    lemma_sumn_perm(dot_terms(a, b), order);
}

/// Permuting the axes keeps the element count and `nz_prod`.
pub proof fn lemma_prod_perm(s: Seq<usize>, order: Seq<usize>)
    requires
        is_permutation(order, s.len()),
    ensures
        prod(gather(s, order)) == prod(s),
        nz_prod(gather(s, order)) == nz_prod(s),
{
    lemma_prod_prodn(s);
    lemma_prod_prodn(gather(s, order));
    assert(dims_nat(gather(s, order)) =~= gather(dims_nat(s), order));
    assert(dims_nz(gather(s, order)) =~= gather(dims_nz(s), order));
    lemma_prodn_perm(dims_nat(s), order);
    lemma_prodn_perm(dims_nz(s), order);
}

/// Two dot products with the same terms are equal.
pub proof fn lemma_dot_termwise(a: Seq<usize>, b: Seq<usize>, c: Seq<usize>, d: Seq<usize>)
    requires
        a.len() == b.len(),
        c.len() == d.len(),
        a.len() == c.len(),
        forall|i: int|
            0 <= i < a.len() ==> (#[trigger] a[i] as nat) * (b[i] as nat) == (c[i] as nat) * (
            d[i] as nat),
    ensures
        dot(a, b) == dot(c, d),
    decreases a.len(),
{
    if a.len() > 0 {
        lemma_dot_termwise(a.drop_last(), b.drop_last(), c.drop_last(), d.drop_last());
        assert(a[a.len() - 1] == a.last());
    }
}

/// Changing one entry of an index changes one term of `dot`.
pub proof fn lemma_dot_update(a: Seq<usize>, b: Seq<usize>, k: int, x: usize)
    requires
        a.len() == b.len(),
        0 <= k < a.len(),
    ensures
        dot(a.update(k, x), b) + (a[k] as nat) * (b[k] as nat) == dot(a, b) + (x as nat) * (
        b[k] as nat),
    decreases a.len(),
{
    if k == a.len() - 1 {
        assert(a.update(k, x).drop_last() =~= a.drop_last());
    } else {
        lemma_dot_update(a.drop_last(), b.drop_last(), k, x);
        assert(a.update(k, x).drop_last() =~= a.drop_last().update(k, x));
    }
}

/// Shrinking one axis never raises `nz_prod`.
pub proof fn lemma_nz_prod_update_le(s: Seq<usize>, k: int, x: usize)
    requires
        0 <= k < s.len(),
        x <= s[k],
    ensures
        nz_prod(s.update(k, x)) <= nz_prod(s),
{
    lemma_prod_prodn(s);
    lemma_prod_prodn(s.update(k, x));
    let t = dims_nz(s);
    let u = dims_nz(s.update(k, x));
    lemma_prodn_remove(t, k);
    lemma_prodn_remove(u, k);
    assert(t.remove(k) =~= u.remove(k));
    let r = prodn(t.remove(k)) as int;
    let a = u[k] as int;
    let b = t[k] as int;
    assert(r * a <= r * b) by (nonlinear_arith)
        requires
            r >= 0,
            a <= b,
    ;
}

/// `dot` over a concatenation is the sum of the parts.
pub proof fn lemma_dot_append(a1: Seq<usize>, b1: Seq<usize>, a2: Seq<usize>, b2: Seq<usize>)
    requires
        a1.len() == b1.len(),
        a2.len() == b2.len(),
    ensures
        dot(a1 + a2, b1 + b2) == dot(a1, b1) + dot(a2, b2),
    decreases a2.len(),
{
    if a2.len() == 0 {
        assert(a1 + a2 =~= a1);
        assert(b1 + b2 =~= b1);
    } else {
        lemma_dot_append(a1, b1, a2.drop_last(), b2.drop_last());
        assert((a1 + a2).drop_last() =~= a1 + a2.drop_last());
        assert((b1 + b2).drop_last() =~= b1 + b2.drop_last());
    }
}

/// A `dot` against all-zero strides is 0.
pub proof fn lemma_dot_zero_strides(a: Seq<usize>, b: Seq<usize>)
    requires
        a.len() == b.len(),
        forall|i: int| 0 <= i < b.len() ==> #[trigger] b[i] == 0,
    ensures
        dot(a, b) == 0,
    decreases a.len(),
{
    if a.len() > 0 {
        lemma_dot_zero_strides(a.drop_last(), b.drop_last());
        assert(b[b.len() - 1] == 0);
        assert(b.last() == 0);
        assert((a.last() as nat) * 0 == 0);
    }
}

// ---------------------------------------------------------------------------
// Executable shape utilities
// ---------------------------------------------------------------------------

/// Every prefix product of `s` fits in `usize`: a left fold over `s` never
/// overflows.
pub open spec fn prefix_prods_fit(s: Seq<usize>) -> bool {
    forall|i: int| 0 <= i <= s.len() ==> #[trigger] prod(s.take(i)) <= usize::MAX
}

/// Every suffix product of `s` fits in `usize`: a right fold over `s` never
/// overflows.
pub open spec fn suffix_prods_fit(s: Seq<usize>) -> bool {
    forall|i: int| 0 <= i <= s.len() ==> #[trigger] prod(s.subrange(i, s.len() as int)) <= usize::MAX
}

/// A shape that fits has every prefix and every suffix product in range.
pub proof fn lemma_fits_prods(s: Seq<usize>)
    requires
        shape_fits(s),
    ensures
        prefix_prods_fit(s),
        suffix_prods_fit(s),
{
    assert forall|i: int| 0 <= i <= s.len() implies #[trigger] prod(s.take(i)) <= usize::MAX by {
        lemma_prefix_prod_le(s, i);
    }
    assert forall|i: int| 0 <= i <= s.len() implies #[trigger] prod(
        s.subrange(i, s.len() as int),
    ) <= usize::MAX by {
        lemma_suffix_prod_le(s, i);
    }
}

/// The number of elements of a shape: the product of its entries, folded
/// from the left. The empty product is 1, and any 0 entry gives 0.
pub fn shape_numel(shape: &[usize]) -> (n: usize)
    requires
        prefix_prods_fit(shape@),
    ensures
        n as nat == prod(shape@),
{
    let mut acc: usize = 1;
    let mut i: usize = 0;
    assert(shape@.take(0) =~= Seq::<usize>::empty());
    while i < shape.len()
        invariant
            i <= shape.len(),
            prefix_prods_fit(shape@),
            acc as nat == prod(shape@.take(i as int)),
        decreases shape.len() - i,
    {
        assert(shape@.take(i + 1) =~= shape@.take(i as int).push(shape@[i as int]));
        proof { lemma_prod_push(shape@.take(i as int), shape[i as int]); }
        assert(prod(shape@.take(i + 1)) <= usize::MAX);
        acc = acc * shape[i];
        i = i + 1;
    }
    assert(shape@.take(i as int) =~= shape@);
    acc
}

/// Compute the row-major contiguous strides for a given shape.
///
/// `strides[n-1] = 1`, `strides[i] = prod(shape[i+1..])`. The innermost axis
/// varies fastest in memory; the outermost varies slowest.
pub fn contiguous_strides(shape: &[usize]) -> (strides: Vec<usize>)
    requires
        suffix_prods_fit(shape@),
    ensures
        strides@.len() == shape@.len(),
        forall|i: int|
            0 <= i < shape@.len() ==> #[trigger] strides@[i] as nat == row_major_strides(shape@)[i],
{
    let n = shape.len();
    let mut strides: Vec<usize> = Vec::new();
    let mut k: usize = 0;
    while k < n
        invariant
            k <= n,
            strides@.len() == k,
        decreases n - k,
    {
        strides.push(0);
        k = k + 1;
    }
    let mut stride: usize = 1;
    let mut i: usize = n;
    assert(shape@.subrange(n as int, n as int) =~= Seq::<usize>::empty());
    while i > 0
        invariant
            i <= n,
            n == shape@.len(),
            strides@.len() == n,
            suffix_prods_fit(shape@),
            stride as nat == prod(shape@.subrange(i as int, n as int)),
            forall|j: int|
                i <= j < n ==> #[trigger] strides@[j] as nat == row_major_strides(shape@)[j],
        decreases i,
    {
        i = i - 1;
        strides.set(i, stride);
        proof { lemma_prod_suffix_step(shape@, i as int); }
        assert(prod(shape@.subrange(i as int, shape@.len() as int)) <= usize::MAX);
        assert((stride as int) * (shape[i as int] as int) == (shape[i as int] as int) * (stride as int)) by (nonlinear_arith);
        stride = stride * shape[i];
    }
    strides
}

/// Convert a flat linear index into a multi-dim index for the given shape.
///
/// Mixed-radix counting from the innermost axis outward. The inverse of
/// `offset + Σ idx[i] * strides[i]` for a contiguous, offset-0 tensor.
pub fn unravel_index(flat: usize, shape: &[usize]) -> (idx: Vec<usize>)
    requires
        all_positive(shape@),
    ensures
        idx@ == unravel(flat as nat, shape@),
{
    let n = shape.len();
    let mut idx: Vec<usize> = Vec::new();
    let mut k: usize = 0;
    while k < n
        invariant
            k <= n,
            idx@.len() == k,
        decreases n - k,
    {
        idx.push(0);
        k = k + 1;
    }
    let mut rest: usize = flat;
    let mut axis: usize = n;
    assert(shape@.take(n as int) =~= shape@);
    assert(idx@.skip(n as int) =~= Seq::<usize>::empty());
    assert(unravel(flat as nat, shape@) + Seq::<usize>::empty() =~= unravel(flat as nat, shape@));
    while axis > 0
        invariant
            axis <= n,
            n == shape@.len(),
            idx@.len() == n,
            all_positive(shape@),
            unravel(rest as nat, shape@.take(axis as int)) + idx@.skip(axis as int) == unravel(
                flat as nat,
                shape@,
            ),
        decreases axis,
    {
        axis = axis - 1;
        let d = shape[axis];
        assert(d > 0);
        let ghost before = idx@;
        let ghost old_rest = rest;
        idx.set(axis, rest % d);
        rest = rest / d;
        assert(shape@.take(axis + 1).drop_last() =~= shape@.take(axis as int));
        assert(shape@.take(axis + 1).last() == d);
        assert(unravel(old_rest as nat, shape@.take(axis + 1)) == unravel(
            rest as nat,
            shape@.take(axis as int),
        ).push((old_rest % d) as usize));
        assert(idx@.skip(axis as int) =~= seq![(old_rest % d) as usize] + before.skip(axis + 1));
        assert(unravel(rest as nat, shape@.take(axis as int)) + idx@.skip(axis as int)
            =~= unravel(old_rest as nat, shape@.take(axis + 1)) + before.skip(axis + 1));
    }
    assert(shape@.take(0) =~= Seq::<usize>::empty());
    assert(idx@.skip(0) =~= idx@);
    assert(unravel(rest as nat, Seq::<usize>::empty()) + idx@ =~= idx@);
    idx
}

/// The broadcast shape of two shapes.
///
/// Aligned from the trailing axis, each pair of axis lengths must be equal or
/// one of them must be 1; a missing axis counts as 1. Returns
/// `Err(SizeMismatch)` when some pair disagrees.
pub fn broadcast_shapes(a: &[usize], b: &[usize]) -> (res: Result<Vec<usize>, ShapeError>)
    ensures
        match res {
            Ok(v) => broadcast_compatible(a@, b@) && v@ == broadcast_shape(a@, b@),
            Err(e) => !broadcast_compatible(a@, b@) && e == ShapeError::SizeMismatch,
        },
{
    let la = a.len();
    let lb = b.len();
    let n = if la >= lb { la } else { lb };
    let ghost ni = n as int;
    // `rev[k]` is the result for the axis `k` places from the right.
    let mut rev: Vec<usize> = Vec::new();
    let mut k: usize = 0;
    while k < n
        invariant
            k <= n,
            ni == n as int,
            n as int == broadcast_rank(a@, b@),
            la == a@.len(),
            lb == b@.len(),
            rev@.len() == k,
            forall|j: int|
                0 <= j < k ==> dims_compatible(
                    #[trigger] aligned_dim(a@, ni, ni - 1 - j),
                    aligned_dim(b@, ni, ni - 1 - j),
                ),
            forall|j: int|
                0 <= j < k ==> #[trigger] rev@[j] == merge_dims(
                    aligned_dim(a@, ni, ni - 1 - j),
                    aligned_dim(b@, ni, ni - 1 - j),
                ),
        decreases n - k,
    {
        let da: usize = if k < la { a[la - 1 - k] } else { 1 };
        let db: usize = if k < lb { b[lb - 1 - k] } else { 1 };
        assert(da == aligned_dim(a@, ni, ni - 1 - k));
        assert(db == aligned_dim(b@, ni, ni - 1 - k));
        if da == db {
            rev.push(da);
        } else if da == 1 {
            rev.push(db);
        } else if db == 1 {
            rev.push(da);
        } else {
            assert(!dims_compatible(aligned_dim(a@, ni, ni - 1 - k), aligned_dim(b@, ni, ni - 1 - k)));
            assert(!dims_compatible(
                aligned_dim(a@, broadcast_rank(a@, b@), ni - 1 - k),
                aligned_dim(b@, broadcast_rank(a@, b@), ni - 1 - k),
            ));
            return Err(ShapeError::SizeMismatch);
        }
        k = k + 1;
    }
    let mut result: Vec<usize> = Vec::new();
    let mut i: usize = 0;
    while i < n
        invariant
            i <= n,
            rev@.len() == n,
            ni == n as int,
            result@.len() == i,
            forall|j: int| 0 <= j < i ==> #[trigger] result@[j] == rev@[ni - 1 - j],
        decreases n - i,
    {
        result.push(rev[n - 1 - i]);
        i = i + 1;
    }
    assert forall|j: int| 0 <= j < ni implies dims_compatible(
        #[trigger] aligned_dim(a@, ni, j),
        aligned_dim(b@, ni, j),
    ) by {
        let jj = ni - 1 - j;
        assert(ni - 1 - jj == j);
        assert(dims_compatible(aligned_dim(a@, ni, ni - 1 - jj), aligned_dim(b@, ni, ni - 1 - jj)));
    }
    assert(result@ =~= broadcast_shape(a@, b@)) by {
        assert forall|j: int| 0 <= j < ni implies #[trigger] result@[j] == broadcast_shape(a@, b@)[j] by {
            let jj = ni - 1 - j;
            assert(ni - 1 - jj == j);
            assert(rev@[jj] == merge_dims(aligned_dim(a@, ni, ni - 1 - jj), aligned_dim(b@, ni, ni - 1 - jj)));
        }
    }
    Ok(result)
}

} // verus!
