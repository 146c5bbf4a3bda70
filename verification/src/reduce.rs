//! Reductions: folding one axis away (`sum_axis`, `max_axis`) and folding
//! every element into one scalar (`sum_all`).
//!
//! A sum is stated as the exact chain of additions the code performs: the
//! relation `sum_rel(init, xs, r)` holds when `r` is obtained by adding the
//! entries of `xs` to `init` one at a time, left to right, each step a call
//! of `T::add`. The order matters for floating-point element types, and the
//! relation fixes it.
use vstd::prelude::*;
use vstd::std_specs::ops::AddSpec;
use core::ops::Add;
use crate::shape::{
    ShapeError, prod, nz_prod, shape_fits, unravel, valid_index, all_positive, unravel_index,
    lemma_unravel_ravel, lemma_prod_prodn, dims_nz, lemma_prodn_remove, prodn, lemma_nz_prod_update_le,
};
use crate::tensor::{Tensor, lemma_prod_pos_all_positive, lemma_valid_index_prod_pos};
use crate::order::{scalar_max, max_spec, comparisons_specified};

verus! {

/// Addition on `T` never fails: true of float addition, not of the machine
/// integers, whose addition can overflow.
pub open spec fn add_total<T: Add<Output = T>>() -> bool {
    forall|x: T, y: T| #[trigger] x.add_req(y)
}

/// `r` is `init + xs[0] + xs[1] + ...`, added left to right with `T::add`.
pub open spec fn sum_rel<T: Add<Output = T>>(init: T, xs: Seq<T>, r: T) -> bool
    decreases xs.len(),
{
    if xs.len() == 0 {
        r == init
    } else {
        exists|s: T| sum_rel(init, xs.drop_last(), s) && #[trigger] call_ensures(T::add, (s, xs.last()), r)
    }
}

/// The block size up to which `sum_all` adds left to right.
pub const PAIRWISE_BASE: usize = 64;

/// `r` is the pairwise sum of `xs`: blocks of at most 64 entries are added
/// left to right from `init`, and longer runs are split in half, each half
/// summed pairwise, and the two halves added.
pub open spec fn pairwise_rel<T: Add<Output = T>>(init: T, xs: Seq<T>, r: T) -> bool
    decreases xs.len(),
{
    if xs.len() <= PAIRWISE_BASE {
        sum_rel(init, xs, r)
    } else {
        let mid = xs.len() / 2;
        exists|l: T, h: T|
            pairwise_rel(init, xs.take(mid as int), l) && pairwise_rel(init, xs.skip(mid as int), h)
                && #[trigger] call_ensures(T::add, (l, h), r)
    }
}

/// The largest entry of a nonempty `xs`, seeded with `xs[0]` and folded with
/// `max_spec` (for types whose comparisons have a functional specification).
pub open spec fn fold_max_spec<T: PartialOrd>(xs: Seq<T>) -> T
    decreases xs.len(),
{
    if xs.len() <= 1 {
        xs[0]
    } else {
        max_spec(fold_max_spec(xs.drop_last()), xs.last())
    }
}

/// The shape after reducing `axis`: the axis becomes 1 (`keepdim`) or
/// disappears.
pub open spec fn reduced_shape(shape: Seq<usize>, axis: int, keepdim: bool) -> Seq<usize> {
    if keepdim {
        shape.update(axis, 1)
    } else {
        shape.remove(axis)
    }
}

/// The input index that output index `out` reads at position `j` of the
/// reduced axis.
pub open spec fn reduced_source(out: Seq<usize>, axis: int, keepdim: bool, j: usize) -> Seq<usize> {
    if keepdim {
        out.update(axis, j)
    } else {
        out.insert(axis, j)
    }
}

impl<T: Copy> Tensor<T> {
    /// The entries that output position `o` of a reduction along `axis`
    /// folds, in axis order.
    pub open spec fn group(&self, axis: int, keepdim: bool, o: int) -> Seq<T> {
        let out = reduced_shape(self.shape_view(), axis, keepdim);
        Seq::new(
            self.shape_view()[axis] as nat,
            |j: int| self.at(reduced_source(unravel(o as nat, out), axis, keepdim, j as usize)),
        )
    }
}

/// The reduced shape fits whenever the input shape does.
proof fn lemma_reduced_shape_fits(shape: Seq<usize>, axis: int, keepdim: bool)
    requires
        0 <= axis < shape.len(),
        shape_fits(shape),
    ensures
        shape_fits(reduced_shape(shape, axis, keepdim)),
{
    if keepdim {
        if shape[axis] >= 1 {
            lemma_nz_prod_update_le(shape, axis, 1);
        } else {
            lemma_prod_prodn(shape);
            lemma_prod_prodn(shape.update(axis, 1));
            assert(dims_nz(shape) =~= dims_nz(shape.update(axis, 1)));
        }
    } else {
        lemma_prod_prodn(shape);
        lemma_prod_prodn(shape.remove(axis));
        lemma_prodn_remove(dims_nz(shape), axis);
        assert(dims_nz(shape).remove(axis) =~= dims_nz(shape.remove(axis)));
        let r = prodn(dims_nz(shape.remove(axis))) as int;
        let x = dims_nz(shape)[axis] as int;
        assert(r <= r * x) by (nonlinear_arith)
            requires
                r >= 0,
                x >= 1,
        ;
    }
}

/// An output index of a reduction, with a position on the reduced axis,
/// names an input element.
proof fn lemma_reduced_source_valid(
    shape: Seq<usize>,
    axis: int,
    keepdim: bool,
    out: Seq<usize>,
    j: usize,
)
    requires
        0 <= axis < shape.len(),
        valid_index(out, reduced_shape(shape, axis, keepdim)),
        j < shape[axis],
    ensures
        valid_index(reduced_source(out, axis, keepdim, j), shape),
{
    let src = reduced_source(out, axis, keepdim, j);
    let rs = reduced_shape(shape, axis, keepdim);
    assert forall|i: int| 0 <= i < shape.len() implies #[trigger] src[i] < shape[i] by {
        if keepdim {
            if i != axis {
                assert(out[i] < rs[i]);
            }
        } else {
            if i < axis {
                assert(out[i] < rs[i]);
            } else if i > axis {
                assert(out[i - 1] < rs[i - 1]);
            }
        }
    }
}

/// One more addition extends a left-to-right sum.
proof fn lemma_sum_rel_step<T: Add<Output = T>>(init: T, xs: Seq<T>, j: int, acc: T, next: T)
    requires
        0 <= j < xs.len(),
        sum_rel(init, xs.take(j), acc),
        call_ensures(T::add, (acc, xs[j]), next),
    ensures
        sum_rel(init, xs.take(j + 1), next),
{
    let ys = xs.take(j + 1);
    assert(ys.drop_last() =~= xs.take(j));
    assert(ys.last() == xs[j]);
    assert(sum_rel(init, ys.drop_last(), acc) && call_ensures(T::add, (acc, ys.last()), next));

}

impl<T: Copy + Default + Add<Output = T>> Tensor<T> {
    /// Reduce the tensor along one axis by summing.
    ///
    /// `keepdim = false` removes the axis from the shape; `keepdim = true`
    /// leaves it as a size-1 axis so the result broadcasts back against the
    /// input. Each group is folded left to right from `T::default()` (zero).
    ///
    /// Returns `Err(OutOfBounds)` if `axis` is past the rank.
    pub fn sum_axis(&self, axis: usize, keepdim: bool) -> (r: Result<Self, ShapeError>)
        requires
            self.wf(),
            add_total::<T>(),
        ensures
            match r {
                Ok(t) => {
                    &&& axis < self.rank()
                    &&& t.wf()
                    &&& t.shape_view() == reduced_shape(self.shape_view(), axis as int, keepdim)
                    &&& t.contiguous_layout()
                    &&& exists|z: T|
                        {
                            &&& call_ensures(T::default, (), z)
                            &&& forall|o: int|
                                0 <= o < t.values().len() ==> sum_rel(
                                    z,
                                    self.group(axis as int, keepdim, o),
                                    #[trigger] t.values()[o],
                                )
                        }
                },
                Err(e) => axis >= self.rank() && e == ShapeError::OutOfBounds,
            },
    {
        let rank = self.shape().len();
        if axis >= rank {
            return Err(ShapeError::OutOfBounds);
        }
        proof {
            self.lemma_wf();
            lemma_reduced_shape_fits(self.shape_view(), axis as int, keepdim);
        }
        let out_shape = reduced_shape_vec(self.shape(), axis, keepdim);
        let ghost os = out_shape@;
        let reduced_dim = self.shape()[axis];
        proof {
            crate::shape::lemma_fits_prods(os);
        }
        let out_numel = crate::shape::shape_numel(out_shape.as_slice());
        let zero = T::default();
        let mut buffer: Vec<T> = Vec::new();
        let mut linear: usize = 0;
        while linear < out_numel
            invariant
                linear <= out_numel,
                out_numel as nat == prod(os),
                os == out_shape@,
                os == reduced_shape(self.shape_view(), axis as int, keepdim),
                axis < self.rank(),
                reduced_dim == self.shape_view()[axis as int],
                self.wf(),
                add_total::<T>(),
                call_ensures(T::default, (), zero),
                buffer@.len() == linear,
                forall|o: int|
                    0 <= o < linear ==> sum_rel(
                        zero,
                        self.group(axis as int, keepdim, o),
                        #[trigger] buffer@[o],
                    ),
            decreases out_numel - linear,
        {
            proof {
                lemma_prod_pos_all_positive(os);
                lemma_unravel_ravel(linear as nat, os);
            }
            let out_idx = unravel_index(linear, out_shape.as_slice());
            let ghost g = self.group(axis as int, keepdim, linear as int);
            let mut acc = zero;
            let mut j: usize = 0;
            assert(g.take(0) =~= Seq::<T>::empty());
            while j < reduced_dim
                invariant
                    j <= reduced_dim,
                    reduced_dim == self.shape_view()[axis as int],
                    axis < self.rank(),
                    self.wf(),
                    add_total::<T>(),
                    out_idx@ == unravel(linear as nat, os),
                    valid_index(out_idx@, os),
                    os == reduced_shape(self.shape_view(), axis as int, keepdim),
                    g == self.group(axis as int, keepdim, linear as int),
                    sum_rel(zero, g.take(j as int), acc),
                decreases reduced_dim - j,
            {
                let in_idx = reduced_source_vec(&out_idx, axis, keepdim, j);
                proof {
                    lemma_reduced_source_valid(self.shape_view(), axis as int, keepdim, out_idx@, j);
                }
                let x = self.get(in_idx.as_slice());
                assert(x == g[j as int]);
                let next = acc + x;
                proof {
                    lemma_sum_rel_step(zero, g, j as int, acc, next);
                }
                acc = next;
                j = j + 1;
            }
            assert(g.take(reduced_dim as int) =~= g);
            buffer.push(acc);
            linear = linear + 1;
        }
        let t = Tensor::from_vec(buffer, out_shape.as_slice());
        Ok(t)
    }
}

/// The output shape of a reduction along `axis`.
fn reduced_shape_vec(shape: &[usize], axis: usize, keepdim: bool) -> (v: Vec<usize>)
    requires
        axis < shape@.len(),
    ensures
        v@ == reduced_shape(shape@, axis as int, keepdim),
{
    let mut v = crate::tensor::slice_to_vec(shape);
    if keepdim {
        v.set(axis, 1);
    } else {
        let _ = v.remove(axis);
    }
    v
}

/// The input index that `out` reads at position `j` of the reduced axis.
fn reduced_source_vec(out: &Vec<usize>, axis: usize, keepdim: bool, j: usize) -> (v: Vec<usize>)
    requires
        keepdim ==> axis < out@.len(),
        !keepdim ==> axis <= out@.len(),
    ensures
        v@ == reduced_source(out@, axis as int, keepdim, j),
{
    let mut v = crate::tensor::copy_usizes(out);
    if keepdim {
        v.set(axis, j);
    } else {
        v.insert(axis, j);
    }
    v
}

impl<T: Copy + Default + Add<Output = T>> Tensor<T> {
    /// Sum every element of the tensor into a single scalar.
    ///
    /// Pairwise summation with a base-case block of 64: runs of at most 64
    /// values are added left to right, longer runs are split in half and the
    /// two half sums added. This keeps every addition between values of
    /// similar size. The sum of no elements is `T::default()` (zero).
    pub fn sum_all(&self) -> (s: T)
        requires
            self.wf(),
            add_total::<T>(),
        ensures
            exists|z: T| call_ensures(T::default, (), z) && pairwise_rel(z, self.values(), s),
    {
        let zero = T::default();
        if self.is_contiguous() {
            // The logical values are the front of the buffer: sum in place.
            proof {
                self.lemma_contiguous_values();
            }
            let n = self.numel();
            let buf = self.as_slice();
            let s = pairwise_sum(buf, 0, n, zero);
            assert(buf@.subrange(0, n as int) =~= self.values());
            return s;
        }
        let values = self.to_vec();
        let s = pairwise_sum(values.as_slice(), 0, values.len(), zero);
        assert(values@.subrange(0, values@.len() as int) =~= self.values());
        s
    }
}

/// The pairwise sum of `values[lo..hi]`, starting every block from `zero`.
fn pairwise_sum<T: Copy + Add<Output = T>>(values: &[T], lo: usize, hi: usize, zero: T) -> (s: T)
    requires
        lo <= hi <= values@.len(),
        add_total::<T>(),
    ensures
        pairwise_rel(zero, values@.subrange(lo as int, hi as int), s),
    decreases hi - lo,
{
    let ghost sub = values@.subrange(lo as int, hi as int);
    let len = hi - lo;
    if len <= PAIRWISE_BASE {
        let mut acc = zero;
        let mut i: usize = lo;
        assert(sub.take(0) =~= Seq::<T>::empty());
        while i < hi
            invariant
                lo <= i <= hi,
                hi <= values@.len(),
                sub == values@.subrange(lo as int, hi as int),
                add_total::<T>(),
                sum_rel(zero, sub.take(i - lo), acc),
            decreases hi - i,
        {
            let x = values[i];
            assert(x == sub[i - lo]);
            let next = acc + x;
            proof {
                lemma_sum_rel_step(zero, sub, i - lo, acc, next);
            }
            acc = next;
            i = i + 1;
        }
        assert(sub.take(len as int) =~= sub);
        acc
    } else {
        let mid = len / 2;
        let l = pairwise_sum(values, lo, lo + mid, zero);
        let h = pairwise_sum(values, lo + mid, hi, zero);
        let s = l + h;
        assert(sub.take(mid as int) =~= values@.subrange(lo as int, (lo + mid) as int));
        assert(sub.skip(mid as int) =~= values@.subrange((lo + mid) as int, hi as int));
        assert(pairwise_rel(zero, sub.take(mid as int), l) && pairwise_rel(zero, sub.skip(mid as int), h)
            && call_ensures(T::add, (l, h), s));
        s
    }
}

impl<T: Copy + PartialOrd> Tensor<T> {
    /// `v` is one of the entries that output position `o` of a reduction
    /// along `axis` folds, and, for types with specified comparisons, the
    /// largest of them as `scalar_max` folds them from the first.
    pub open spec fn is_group_max(&self, axis: int, keepdim: bool, o: int, v: T) -> bool {
        &&& exists|k: int|
            0 <= k < self.shape_view()[axis] && v == #[trigger] self.group(axis, keepdim, o)[k]
        &&& comparisons_specified::<T>() ==> v == fold_max_spec(self.group(axis, keepdim, o))
    }

    /// Reduce along one axis by taking the max.
    ///
    /// Seeded with the first element of each group, never with zero, so an
    /// all-negative axis gives the right answer. A NaN loses against any
    /// other value (see `scalar_max`).
    ///
    /// Returns `Err(OutOfBounds)` if `axis` is past the rank.
    pub fn max_axis(&self, axis: usize, keepdim: bool) -> (r: Result<Self, ShapeError>)
        requires
            self.wf(),
            axis < self.rank() && self.shape_view()[axis as int] == 0 ==> prod(
                reduced_shape(self.shape_view(), axis as int, keepdim),
            ) == 0,
        ensures
            match r {
                Ok(t) => {
                    &&& axis < self.rank()
                    &&& t.wf()
                    &&& t.shape_view() == reduced_shape(self.shape_view(), axis as int, keepdim)
                    &&& t.contiguous_layout()
                    &&& forall|o: int|
                        0 <= o < t.values().len() ==> self.is_group_max(
                            axis as int,
                            keepdim,
                            o,
                            #[trigger] t.values()[o],
                        )
                },
                Err(e) => axis >= self.rank() && e == ShapeError::OutOfBounds,
            },
    {
        let rank = self.shape().len();
        if axis >= rank {
            return Err(ShapeError::OutOfBounds);
        }
        proof {
            self.lemma_wf();
            lemma_reduced_shape_fits(self.shape_view(), axis as int, keepdim);
        }
        let out_shape = reduced_shape_vec(self.shape(), axis, keepdim);
        let ghost os = out_shape@;
        let reduced_dim = self.shape()[axis];
        proof {
            crate::shape::lemma_fits_prods(os);
        }
        let out_numel = crate::shape::shape_numel(out_shape.as_slice());
        let mut buffer: Vec<T> = Vec::new();
        let mut linear: usize = 0;
        while linear < out_numel
            invariant
                linear <= out_numel,
                out_numel as nat == prod(os),
                os == out_shape@,
                os == reduced_shape(self.shape_view(), axis as int, keepdim),
                axis < self.rank(),
                reduced_dim == self.shape_view()[axis as int],
                reduced_dim == 0 ==> prod(os) == 0,
                self.wf(),
                buffer@.len() == linear,
                forall|o: int|
                    0 <= o < linear ==> self.is_group_max(axis as int, keepdim, o, #[trigger] buffer@[o]),
            decreases out_numel - linear,
        {
            proof {
                lemma_prod_pos_all_positive(os);
                lemma_unravel_ravel(linear as nat, os);
            }
            let out_idx = unravel_index(linear, out_shape.as_slice());
            let ghost g = self.group(axis as int, keepdim, linear as int);
            let first_idx = reduced_source_vec(&out_idx, axis, keepdim, 0);
            proof {
                lemma_reduced_source_valid(self.shape_view(), axis as int, keepdim, out_idx@, 0);
            }
            let mut m = self.get(first_idx.as_slice());
            assert(m == g[0]);
            assert(g.take(1) =~= seq![g[0]]);
            let mut j: usize = 1;
            while j < reduced_dim
                invariant
                    1 <= j <= reduced_dim,
                    reduced_dim == self.shape_view()[axis as int],
                    axis < self.rank(),
                    self.wf(),
                    out_idx@ == unravel(linear as nat, os),
                    valid_index(out_idx@, os),
                    os == reduced_shape(self.shape_view(), axis as int, keepdim),
                    g == self.group(axis as int, keepdim, linear as int),
                    exists|k: int| 0 <= k < j && m == #[trigger] g[k],
                    comparisons_specified::<T>() ==> m == fold_max_spec(
                        g.take(j as int),
                    ),
                decreases reduced_dim - j,
            {
                let in_idx = reduced_source_vec(&out_idx, axis, keepdim, j);
                proof {
                    lemma_reduced_source_valid(self.shape_view(), axis as int, keepdim, out_idx@, j);
                }
                let x = self.get(in_idx.as_slice());
                assert(x == g[j as int]);
                let ghost old_m = m;
                m = scalar_max(m, x);
                proof {
                    assert(g.take(j + 1).drop_last() =~= g.take(j as int));
                    assert(g.take(j + 1).last() == g[j as int]);
                    if m == x {
                        assert(m == g[j as int]);
                    }
                }
                j = j + 1;
            }
            assert(g.take(reduced_dim as int) =~= g);
            assert(self.is_group_max(axis as int, keepdim, linear as int, m)) by {
                let k = choose|k: int| 0 <= k < j && m == g[k];
                assert(m == self.group(axis as int, keepdim, linear as int)[k]);
            }
            buffer.push(m);
            linear = linear + 1;
        }
        let t = Tensor::from_vec(buffer, out_shape.as_slice());
        Ok(t)
    }
}

// ---------------------------------------------------------------------------
// What `keepdim` changes
// ---------------------------------------------------------------------------

/// Addition has a single possible result for given operands.
pub open spec fn add_deterministic<T: Add<Output = T>>() -> bool {
    forall|x: T, y: T, r: T, s: T|
        #![trigger call_ensures(T::add, (x, y), r), call_ensures(T::add, (x, y), s)]
        call_ensures(T::add, (x, y), r) && call_ensures(T::add, (x, y), s) ==> r == s
}

/// `T::default()` has a single possible result.
pub open spec fn default_deterministic<T: Default>() -> bool {
    forall|r: T, s: T|
        #![trigger call_ensures(T::default, (), r), call_ensures(T::default, (), s)]
        call_ensures(T::default, (), r) && call_ensures(T::default, (), s) ==> r == s
}

/// With deterministic addition a left-to-right sum has exactly one value.
pub proof fn law_sum_rel_unique<T: Add<Output = T>>(init: T, xs: Seq<T>, r1: T, r2: T)
    requires
        add_deterministic::<T>(),
        sum_rel(init, xs, r1),
        sum_rel(init, xs, r2),
    ensures
        r1 == r2,
    decreases xs.len(),
{
    if xs.len() > 0 {
        let s1 = choose|s: T| sum_rel(init, xs.drop_last(), s) && #[trigger] call_ensures(T::add, (s, xs.last()), r1);
        let s2 = choose|s: T| sum_rel(init, xs.drop_last(), s) && #[trigger] call_ensures(T::add, (s, xs.last()), r2);
        law_sum_rel_unique(init, xs.drop_last(), s1, s2);
    }
}

/// The two reduced shapes have the same number of entries.
proof fn lemma_reduced_prod_same(shape: Seq<usize>, axis: int)
    requires
        0 <= axis < shape.len(),
    ensures
        prod(shape.update(axis, 1)) == prod(shape.remove(axis)),
    decreases shape.len(),
{
    let last = shape.len() - 1;
    if axis == last {
        assert(shape.update(axis, 1).drop_last() =~= shape.drop_last());
        assert(shape.remove(axis) =~= shape.drop_last());
    } else {
        lemma_reduced_prod_same(shape.drop_last(), axis);
        assert(shape.update(axis, 1).drop_last() =~= shape.drop_last().update(axis, 1));
        assert(shape.remove(axis).drop_last() =~= shape.drop_last().remove(axis));
        assert(shape.remove(axis).last() == shape.last());
    }
}

/// An index of the `keepdim` output is the index of the other output with a
/// 0 put in at the reduced axis.
proof fn lemma_unravel_keepdim(o: nat, shape: Seq<usize>, axis: int)
    requires
        0 <= axis < shape.len(),
        forall|i: int| 0 <= i < shape.len() && i != axis ==> #[trigger] shape[i] > 0,
    ensures
        unravel(o, shape.update(axis, 1)) == unravel(o, shape.remove(axis)).insert(axis, 0),
    decreases shape.len(),
{
    let last = shape.len() - 1;
    let kept = shape.update(axis, 1);
    if axis == last {
        assert(kept.drop_last() =~= shape.drop_last());
        assert(shape.remove(axis) =~= shape.drop_last());
        assert(kept.last() == 1);
        assert(o / 1 == o);
        assert(o % 1 == 0);
        let u = unravel(o, shape.drop_last());
        lemma_unravel_len(o, shape.drop_last());
        assert(u.push(0) =~= u.insert(axis, 0));
        assert(unravel(o, kept) == unravel(o, kept.drop_last()).push(0));
        assert(unravel(o, shape.remove(axis)) == u);
    } else {
        let d = shape.last() as nat;
        assert(d > 0);
        lemma_unravel_keepdim(o / d, shape.drop_last(), axis);
        assert(kept.drop_last() =~= shape.drop_last().update(axis, 1));
        assert(kept.last() == shape.last());
        let dropped = shape.remove(axis);
        assert(dropped.drop_last() =~= shape.drop_last().remove(axis));
        assert(dropped.last() == shape.last());
        let u = unravel(o / d, shape.drop_last().remove(axis));
        lemma_unravel_len(o / d, shape.drop_last().remove(axis));
        let v = (o % d) as usize;
        assert(u.push(v).insert(axis, 0) =~= u.insert(axis, 0).push(v));
        assert(unravel(o, dropped) == u.push(v));
        assert(unravel(o, kept) == unravel(o / d, kept.drop_last()).push(v));
    }
}

/// An unravelled index has one entry per axis.
proof fn lemma_unravel_len(o: nat, shape: Seq<usize>)
    requires
        forall|i: int| 0 <= i < shape.len() ==> #[trigger] shape[i] > 0,
    ensures
        unravel(o, shape).len() == shape.len(),
    decreases shape.len(),
{
    if shape.len() > 0 {
        let d = shape.last() as nat;
        assert(d > 0);
        lemma_unravel_len(o / d, shape.drop_last());
        assert(unravel(o, shape).len() == unravel(o / d, shape.drop_last()).len() + 1);
    }
}

/// `keepdim` changes only the shape of a reduction: the two output shapes
/// have the same number of entries, and at every output position the two
/// reductions fold the same entries in the same order.
pub proof fn law_keepdim_same_groups<T: Copy>(t: Tensor<T>, axis: int, o: int)
    requires
        0 <= axis < t.rank(),
        0 <= o < prod(reduced_shape(t.shape_view(), axis, false)),
    ensures
        prod(reduced_shape(t.shape_view(), axis, true)) == prod(
            reduced_shape(t.shape_view(), axis, false),
        ),
        t.group(axis, true, o) == t.group(axis, false, o),
{
    let sh = t.shape_view();
    let rem = sh.remove(axis);
    lemma_reduced_prod_same(sh, axis);
    lemma_prod_pos_all_positive(rem);
    assert forall|i: int| 0 <= i < sh.len() && i != axis implies #[trigger] sh[i] > 0 by {
        if i < axis {
            assert(rem[i] == sh[i]);
        } else {
            assert(rem[i - 1] == sh[i]);
        }
    }
    lemma_unravel_keepdim(o as nat, sh, axis);
    let u = unravel(o as nat, rem);
    lemma_unravel_len(o as nat, rem);
    assert(t.group(axis, true, o) =~= t.group(axis, false, o)) by {
        assert forall|j: int| 0 <= j < sh[axis] implies t.group(axis, true, o)[j] == t.group(
            axis,
            false,
            o,
        )[j] by {
            assert(u.insert(axis, 0).update(axis, j as usize) =~= u.insert(axis, j as usize));
        }
    }
}

/// With deterministic addition and zero, `sum_axis` with and without
/// `keepdim` produces the same values in the same order; only the shape
/// differs.
pub proof fn law_sum_keepdim_same_values<T: Copy + Default + Add<Output = T>>(
    t: Tensor<T>,
    axis: int,
    z1: T,
    kept: Tensor<T>,
    z2: T,
    dropped: Tensor<T>,
)
    requires
        add_deterministic::<T>(),
        default_deterministic::<T>(),
        0 <= axis < t.rank(),
        call_ensures(T::default, (), z1),
        call_ensures(T::default, (), z2),
        kept.shape_view() == reduced_shape(t.shape_view(), axis, true),
        dropped.shape_view() == reduced_shape(t.shape_view(), axis, false),
        forall|o: int|
            0 <= o < kept.values().len() ==> sum_rel(z1, t.group(axis, true, o), #[trigger] kept.values()[o]),
        forall|o: int|
            0 <= o < dropped.values().len() ==> sum_rel(
                z2,
                t.group(axis, false, o),
                #[trigger] dropped.values()[o],
            ),
    ensures
        kept.values() == dropped.values(),
{
    assert(z1 == z2);
    lemma_reduced_prod_same(t.shape_view(), axis);
    assert(kept.values() =~= dropped.values()) by {
        assert forall|o: int| 0 <= o < kept.values().len() implies kept.values()[o]
            == dropped.values()[o] by {
            law_keepdim_same_groups(t, axis, o);
            law_sum_rel_unique(z1, t.group(axis, true, o), kept.values()[o], dropped.values()[o]);
        }
    }
}

/// For element types with specified comparisons, `max_axis` with and
/// without `keepdim` produces the same values in the same order.
pub proof fn law_max_keepdim_same_values<T: Copy + PartialOrd>(
    t: Tensor<T>,
    axis: int,
    kept: Tensor<T>,
    dropped: Tensor<T>,
)
    requires
        comparisons_specified::<T>(),
        0 <= axis < t.rank(),
        kept.shape_view() == reduced_shape(t.shape_view(), axis, true),
        dropped.shape_view() == reduced_shape(t.shape_view(), axis, false),
        forall|o: int|
            0 <= o < kept.values().len() ==> t.is_group_max(axis, true, o, #[trigger] kept.values()[o]),
        forall|o: int|
            0 <= o < dropped.values().len() ==> t.is_group_max(
                axis,
                false,
                o,
                #[trigger] dropped.values()[o],
            ),
    ensures
        kept.values() == dropped.values(),
{
    lemma_reduced_prod_same(t.shape_view(), axis);
    assert(kept.values() =~= dropped.values()) by {
        assert forall|o: int| 0 <= o < kept.values().len() implies kept.values()[o]
            == dropped.values()[o] by {
            law_keepdim_same_groups(t, axis, o);
        }
    }
}

} // verus!

