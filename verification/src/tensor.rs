//! The strided tensor: a shared buffer plus `shape`, `strides` and `offset`.
//!
//! Element `idx` of a tensor lives at buffer position
//! `offset + Σ idx[i] * strides[i]`. Transpose, permute, slice, reshape and
//! broadcast only change that metadata; the buffer is shared and never moves.
use vstd::prelude::*;
use crate::buffer::{Buffer, new_buffer, share, same_allocation};
use crate::shape::{
    prod, shape_fits, dot, valid_index, row_major_strides, ravel, unravel, all_positive, max_dot,
    prefix_prods_fit, suffix_prods_fit, shape_numel, lemma_fits_prods, lemma_prod_le_nz_prod,
    lemma_dot_le_max_dot, lemma_dot_row_major, lemma_unravel_ravel, lemma_ravel_unravel,
    lemma_dot_take, gather, is_permutation, lemma_dot_perm, lemma_prod_perm, nz_prod,
    lemma_dot_update, lemma_nz_prod_update_le, lemma_dot_append, lemma_dot_zero_strides,
    lemma_dot_termwise, lemma_prod_first, lemma_prod_push, lemma_prod_suffix_step,
};

pub use crate::shape::{ShapeError, contiguous_strides, unravel_index, broadcast_shapes};

verus! {

/// A multi-dimensional array of `T`.
///
/// Every tensor is a view onto a shared buffer plus three pieces of
/// metadata: `shape`, `strides` (in elements) and `offset`.
pub struct Tensor<T> {
    data: Buffer<T>,
    shape: Vec<usize>,
    strides: Vec<usize>,
    offset: usize,
}

impl<T> Tensor<T> {
    /// Internal consistency of the view: one stride per axis, element counts
    /// that fit in `usize`, and every valid index inside the buffer.
    pub closed spec fn wf(&self) -> bool {
        &&& self.shape@.len() == self.strides@.len()
        &&& self.data.contents().len() <= usize::MAX
        &&& shape_fits(self.shape@)
        &&& prod(self.shape@) == 0 || self.offset + max_dot(self.shape@, self.strides@)
            < self.data.contents().len()
    }

    /// The axis lengths.
    pub closed spec fn shape_view(&self) -> Seq<usize> {
        self.shape@
    }

    /// The per-axis strides, in elements.
    pub closed spec fn strides_view(&self) -> Seq<usize> {
        self.strides@
    }

    /// The buffer position of element `[0, 0, ..., 0]`.
    pub closed spec fn offset_view(&self) -> nat {
        self.offset as nat
    }

    /// The underlying buffer, in storage order.
    pub closed spec fn storage(&self) -> Seq<T> {
        self.data.contents()
    }

    /// The identity of the buffer allocation the view reads.
    pub closed spec fn alloc_id(&self) -> int {
        self.data.id()
    }

    /// The number of axes.
    pub open spec fn rank(&self) -> nat {
        self.shape_view().len()
    }

    /// The element at multi-index `idx`.
    pub open spec fn at(&self, idx: Seq<usize>) -> T {
        self.storage()[(self.offset_view() + dot(idx, self.strides_view())) as int]
    }

    /// The elements in logical row-major order.
    pub open spec fn values(&self) -> Seq<T> {
        Seq::new(prod(self.shape_view()), |i: int| self.at(unravel(i as nat, self.shape_view())))
    }

    /// The layout is the default row-major one, starting at the buffer's front.
    pub open spec fn contiguous_layout(&self) -> bool {
        &&& self.offset_view() == 0
        &&& forall|i: int|
            0 <= i < self.rank() ==> #[trigger] self.strides_view()[i] as nat
                == row_major_strides(self.shape_view())[i]
    }

    /// The facts that every tensor satisfies.
    pub proof fn lemma_wf(&self)
        requires
            self.wf(),
        ensures
            self.strides_view().len() == self.rank(),
            shape_fits(self.shape_view()),
            prefix_prods_fit(self.shape_view()),
            suffix_prods_fit(self.shape_view()),
            prod(self.shape_view()) <= usize::MAX,
            self.storage().len() <= usize::MAX,
            prod(self.shape_view()) == 0 || self.offset_view() + max_dot(
                self.shape_view(),
                self.strides_view(),
            ) < self.storage().len(),
            forall|idx: Seq<usize>|
                valid_index(idx, self.shape_view()) ==> self.offset_view() + dot(
                    idx,
                    self.strides_view(),
                ) < self.storage().len(),
    {
        lemma_fits_prods(self.shape@);
        lemma_prod_le_nz_prod(self.shape@);
        assert forall|idx: Seq<usize>| valid_index(idx, self.shape_view()) implies self.offset_view()
            + dot(idx, self.strides_view()) < self.storage().len() by {
            lemma_dot_le_max_dot(idx, self.shape@, self.strides@);
            lemma_valid_index_prod_pos(idx, self.shape@);
        }
    }

    /// A layout with row-major strides and offset 0 reads its buffer in order.
    pub proof fn lemma_contiguous_values(&self)
        requires
            self.wf(),
            self.contiguous_layout(),
        ensures
            prod(self.shape_view()) <= self.storage().len(),
            forall|i: int|
                0 <= i < prod(self.shape_view()) ==> #[trigger] self.values()[i]
                    == self.storage()[i],
            forall|idx: Seq<usize>|
                valid_index(idx, self.shape_view()) ==> #[trigger] self.at(idx) == self.storage()[ravel(
                    idx,
                    self.shape_view(),
                ) as int],
    {
        self.lemma_wf();
        assert forall|idx: Seq<usize>| valid_index(idx, self.shape_view()) implies #[trigger] self.at(
            idx,
        ) == self.storage()[ravel(idx, self.shape_view()) as int] by {
            lemma_dot_row_major(idx, self.shape_view(), self.strides_view());
        }
        assert forall|i: int| 0 <= i < prod(self.shape_view()) implies #[trigger] self.values()[i]
            == self.storage()[i] by {
            lemma_unravel_ravel(i as nat, self.shape_view());
        }
        if prod(self.shape_view()) > 0 {
            let last = (prod(self.shape_view()) - 1) as nat;
            lemma_unravel_ravel(last, self.shape_view());
            let u = unravel(last, self.shape_view());
            lemma_dot_row_major(u, self.shape_view(), self.strides_view());
        }
    }

    /// Allocate a fresh tensor of the given shape, filled with `T::default()`
    /// (zero for the numeric types).
    pub fn zeros(shape: &[usize]) -> (t: Self) where T: Copy + Default
        requires
            shape_fits(shape@),
        ensures
            t.wf(),
            t.shape_view() == shape@,
            t.contiguous_layout(),
            t.storage().len() == prod(shape@),
            forall|i: int|
                0 <= i < t.values().len() ==> call_ensures(T::default, (), #[trigger] t.values()[i]),
    {
        proof {
            lemma_fits_prods(shape@);
        }
        let strides = contiguous_strides(shape);
        let n = shape_numel(shape);
        let z = T::default();
        let mut buf: Vec<T> = Vec::new();
        let mut i: usize = 0;
        while i < n
            invariant
                i <= n,
                buf@.len() == i,
                call_ensures(T::default, (), z),
                forall|j: int| 0 <= j < i ==> #[trigger] buf@[j] == z,
            decreases n - i,
        {
            buf.push(z);
            i = i + 1;
        }
        let t = Self::from_parts_contiguous(buf, shape, strides, None);
        proof {
            t.lemma_contiguous_values();
        }
        t
    }

    /// Build a contiguous, offset-0 tensor over a buffer of exactly
    /// `prod(shape)` elements.
    fn from_parts_contiguous(
        buf: Vec<T>,
        shape: &[usize],
        strides: Vec<usize>,
        apart_from: Option<&Buffer<T>>,
    ) -> (t: Self)
        requires
            shape_fits(shape@),
            buf@.len() == prod(shape@),
            strides@.len() == shape@.len(),
            forall|i: int|
                0 <= i < shape@.len() ==> #[trigger] strides@[i] as nat == row_major_strides(shape@)[i],
        ensures
            t.wf(),
            t.shape_view() == shape@,
            t.strides_view() == strides@,
            t.contiguous_layout(),
            t.storage() == buf@,
            apart_from matches Some(o) ==> t.alloc_id() != o.id(),
    {
        let shape_vec = slice_to_vec(shape);
        proof {
            lemma_prod_le_nz_prod(shape@);
            if prod(shape@) > 0 {
                lemma_max_dot_row_major(shape@, strides@);
            }
        }
        Tensor { data: new_buffer(buf, apart_from), shape: shape_vec, strides, offset: 0 }
    }

    /// Wrap an existing flat `Vec` as a tensor with the given shape.
    ///
    /// The Vec must already be in row-major order, and its length must be the
    /// product of the shape dims.
    pub fn from_vec(data: Vec<T>, shape: &[usize]) -> (t: Self)
        requires
            shape_fits(shape@),
            data@.len() == prod(shape@),
        ensures
            t.wf(),
            t.shape_view() == shape@,
            t.contiguous_layout(),
            t.storage() == data@,
            t.values() == data@,
    {
        proof {
            lemma_fits_prods(shape@);
        }
        let n = shape_numel(shape);
        assert(data.len() == n);
        let strides = contiguous_strides(shape);
        let t = Self::from_parts_contiguous(data, shape, strides, None);
        proof {
            t.lemma_contiguous_values();
            assert(t.values() =~= data@);
        }
        t
    }

    /// The shape: how many entries each axis has. Borrowed, not copied.
    pub fn shape(&self) -> (s: &[usize])
        requires
            self.wf(),
        ensures
            s@ == self.shape_view(),
    {
        self.shape.as_slice()
    }

    /// The strides: how many buffer slots to skip per unit step on each axis.
    pub fn strides(&self) -> (s: &[usize])
        requires
            self.wf(),
        ensures
            s@ == self.strides_view(),
    {
        self.strides.as_slice()
    }

    /// True iff both tensors point at the same underlying buffer allocation.
    ///
    /// A permute, transpose, reshape, slice or broadcast of `self`, and a
    /// clone, share storage with `self`. The `contiguous()` copy of a strided
    /// view does not.
    pub fn shares_storage_with(&self, other: &Self) -> (r: bool)
        requires
            self.wf(),
        ensures
            r == (self.alloc_id() == other.alloc_id()),
            r ==> self.storage() == other.storage(),
    {
        same_allocation(&self.data, &other.data)
    }

    /// Total number of elements: the product of the shape dims.
    ///
    /// For a broadcast view, this can be larger than the buffer length.
    pub fn numel(&self) -> (n: usize)
        requires
            self.wf(),
        ensures
            n as nat == prod(self.shape_view()),
    {
        proof {
            self.lemma_wf();
        }
        shape_numel(self.shape.as_slice())
    }

    /// True iff the strides match the default row-major layout and the offset
    /// is zero. A contiguous tensor can be reshaped without copying.
    pub fn is_contiguous(&self) -> (r: bool)
        requires
            self.wf(),
        ensures
            r == self.contiguous_layout(),
    {
        proof {
            self.lemma_wf();
        }
        let want = contiguous_strides(self.shape.as_slice());
        let n = self.strides.len();
        let mut i: usize = 0;
        while i < n
            invariant
                i <= n,
                n == self.rank(),
                n == self.strides_view().len(),
                want@.len() == n,
                forall|j: int|
                    0 <= j < n ==> #[trigger] want@[j] as nat == row_major_strides(
                        self.shape_view(),
                    )[j],
                forall|j: int| 0 <= j < i ==> #[trigger] self.strides_view()[j] == want@[j],
            decreases n - i,
        {
            if self.strides[i] != want[i] {
                assert(self.strides_view()[i as int] as nat != row_major_strides(
                    self.shape_view(),
                )[i as int]);
                return false;
            }
            i = i + 1;
        }
        self.offset == 0
    }

    /// The buffer position of element `idx`: `offset + Σ idx[i] * strides[i]`.
    fn phys_index(&self, idx: &[usize]) -> (p: usize)
        requires
            self.wf(),
            valid_index(idx@, self.shape_view()),
        ensures
            p as nat == self.offset_view() + dot(idx@, self.strides_view()),
            p < self.storage().len(),
    {
        proof {
            self.lemma_wf();
            lemma_dot_le_max_dot(idx@, self.shape@, self.strides@);
            lemma_valid_index_prod_pos(idx@, self.shape@);
        }
        let n = idx.len();
        let dlen = self.data.len();
        let mut acc: usize = self.offset;
        let mut i: usize = 0;
        assert(idx@.take(0) =~= Seq::<usize>::empty());
        while i < n
            invariant
                i <= n,
                n == idx@.len(),
                n == self.strides@.len(),
                valid_index(idx@, self.shape@),
                self.offset + dot(idx@, self.strides@) < dlen,
                acc as nat == self.offset + dot(idx@.take(i as int), self.strides@.take(i as int)),
            decreases n - i,
        {
            proof {
                lemma_dot_take(idx@, self.strides@, i as int);
                lemma_dot_prefix_le(idx@, self.strides@, i + 1);
            }
            let ghost term = (idx@[i as int] as nat) * (self.strides@[i as int] as nat);
            let prod_term = idx[i] * self.strides[i];
            acc = acc + prod_term;
            i = i + 1;
        }
        assert(idx@.take(n as int) =~= idx@);
        assert(self.strides@.take(n as int) =~= self.strides@);
        acc
    }

    /// Read one element at the given multi-dim index.
    ///
    /// Honours the strides and offset, so it works on transposed, sliced and
    /// broadcast views alike.
    pub fn get(&self, idx: &[usize]) -> (x: T) where T: Copy
        requires
            self.wf(),
            valid_index(idx@, self.shape_view()),
        ensures
            x == self.at(idx@),
    {
        let p = self.phys_index(idx);
        self.data.as_slice()[p]
    }

    /// Borrow the underlying buffer as a `&[T]`, in storage order.
    ///
    /// Only meaningful as the logical view for a contiguous tensor: then
    /// element `idx` lives at `slice[ravel(idx)]`.
    pub fn as_slice(&self) -> (s: &[T])
        requires
            self.wf(),
        ensures
            s@ == self.storage(),
    {
        self.data.as_slice()
    }
}

impl<T> Tensor<T> {
    /// Reorder the axes according to `order`. `order[i]` names the **source**
    /// axis that becomes the new axis `i`.
    ///
    /// Pure metadata: the buffer is shared, the offset is unchanged. Returns
    /// `Err(BadRank)` if `order.len()` doesn't match the rank, or
    /// `Err(InvalidPermutation)` if any axis index is out of range or
    /// repeated.
    pub fn permute(&self, order: &[usize]) -> (r: Result<Self, ShapeError>)
        requires
            self.wf(),
        ensures
            match r {
                Ok(t) => {
                    &&& is_permutation(order@, self.rank())
                    &&& t.wf()
                    &&& t.shape_view() == gather(self.shape_view(), order@)
                    &&& t.strides_view() == gather(self.strides_view(), order@)
                    &&& t.offset_view() == self.offset_view()
                    &&& t.storage() == self.storage()
                    &&& t.alloc_id() == self.alloc_id()
                    &&& forall|src: Seq<usize>|
                        valid_index(src, self.shape_view()) ==> #[trigger] t.at(gather(src, order@))
                            == self.at(src)
                },
                Err(e) => {
                    ||| order@.len() != self.rank() && e == (ShapeError::BadRank {
                        got: order@.len() as usize,
                        want: self.rank() as usize,
                    })
                    ||| order@.len() == self.rank() && !is_permutation(order@, self.rank()) && e
                        == ShapeError::InvalidPermutation
                },
            },
    {
        let rank = self.shape.len();
        if order.len() != rank {
            return Err(ShapeError::BadRank { got: order.len(), want: rank });
        }
        let mut seen: Vec<bool> = Vec::new();
        let mut k: usize = 0;
        while k < rank
            invariant
                k <= rank,
                seen@.len() == k,
                forall|a: int| 0 <= a < k ==> !#[trigger] seen@[a],
            decreases rank - k,
        {
            seen.push(false);
            k = k + 1;
        }
        let mut i: usize = 0;
        while i < rank
            invariant
                i <= rank,
                rank == order@.len(),
                rank == self.rank(),
                seen@.len() == rank,
                forall|j: int| 0 <= j < i ==> #[trigger] order@[j] < rank,
                forall|j: int, l: int| 0 <= j < l < i ==> order@[j] != order@[l],
                forall|a: int|
                    0 <= a < rank ==> (#[trigger] seen@[a] <==> exists|j: int|
                        0 <= j < i && order@[j] == a),
            decreases rank - i,
        {
            let axis = order[i];
            if axis >= rank {
                assert(!is_permutation(order@, self.rank())) by {
                    assert(!(order@[i as int] < rank));
                }
                return Err(ShapeError::InvalidPermutation);
            }
            if seen[axis] {
                assert(!is_permutation(order@, self.rank())) by {
                    let j = choose|j: int| 0 <= j < i && order@[j] == axis;
                    assert(order@[j] == order@[i as int]);
                }
                return Err(ShapeError::InvalidPermutation);
            }
            seen.set(axis, true);
            proof {
                assert forall|a: int|
                    0 <= a < rank implies (#[trigger] seen@[a] <==> exists|j: int|
                        0 <= j < i + 1 && order@[j] == a) by {
                    if a == axis {
                        assert(order@[i as int] == a);
                    }
                }
                assert forall|j: int, l: int| 0 <= j < l < i + 1 implies order@[j] != order@[l] by {
                    if l == i && order@[j] == order@[l] {
                        assert(seen@[axis as int]);
                    }
                }
            }
            i = i + 1;
        }
        proof {
            self.lemma_wf();
        }
        let new_shape = gather_usizes(self.shape.as_slice(), order);
        let new_strides = gather_usizes(self.strides.as_slice(), order);
        let t = Tensor {
            data: share(&self.data),
            shape: new_shape,
            strides: new_strides,
            offset: self.offset,
        };
        proof {
            let sh = self.shape@;
            let st = self.strides@;
            lemma_prod_perm(sh, order@);
            lemma_max_dot_is_dot(sh, st);
            lemma_max_dot_is_dot(gather(sh, order@), gather(st, order@));
            assert(max_index(gather(sh, order@)) =~= gather(max_index(sh), order@));
            lemma_dot_perm(max_index(sh), st, order@);
            assert forall|src: Seq<usize>|
                valid_index(src, self.shape_view()) implies #[trigger] t.at(gather(src, order@))
                    == self.at(src) by {
                lemma_dot_perm(src, st, order@);
            }
        }
        Ok(t)
    }

    /// Swap two specific axes. Cheap view, no copy.
    ///
    /// For a 2D tensor, `transpose(0, 1)` is the matrix transpose. Returns
    /// `Err(OutOfBounds)` if either axis is past the rank.
    pub fn transpose(&self, a: usize, b: usize) -> (r: Result<Self, ShapeError>)
        requires
            self.wf(),
        ensures
            match r {
                Ok(t) => {
                    &&& a < self.rank() && b < self.rank()
                    &&& t.wf()
                    &&& t.shape_view() == swap_axes(self.shape_view(), a as int, b as int)
                    &&& t.strides_view() == swap_axes(self.strides_view(), a as int, b as int)
                    &&& t.offset_view() == self.offset_view()
                    &&& t.storage() == self.storage()
                    &&& t.alloc_id() == self.alloc_id()
                    &&& forall|src: Seq<usize>|
                        valid_index(src, self.shape_view()) ==> #[trigger] t.at(
                            swap_axes(src, a as int, b as int),
                        ) == self.at(src)
                },
                Err(e) => (a >= self.rank() || b >= self.rank()) && e == ShapeError::OutOfBounds,
            },
    {
        let rank = self.shape.len();
        if a >= rank || b >= rank {
            return Err(ShapeError::OutOfBounds);
        }
        let mut perm: Vec<usize> = Vec::new();
        let mut i: usize = 0;
        while i < rank
            invariant
                i <= rank,
                perm@.len() == i,
                forall|j: int| 0 <= j < i ==> #[trigger] perm@[j] == j,
            decreases rank - i,
        {
            perm.push(i);
            i = i + 1;
        }
        let pa = perm[a];
        let pb = perm[b];
        perm.set(a, pb);
        perm.set(b, pa);
        let ghost order = perm@;
        proof {
            assert(order =~= swap_axes(Seq::new(rank as nat, |j: int| j as usize), a as int, b as int));
            assert(is_permutation(order, self.rank())) by {
                assert forall|j: int, l: int| 0 <= j < l < rank implies order[j] != order[l] by {}
            }
            assert forall|s: Seq<usize>| s.len() == rank implies #[trigger] gather(s, order)
                == swap_axes(s, a as int, b as int) by {
                assert(gather(s, order) =~= swap_axes(s, a as int, b as int));
            }
        }
        let r = self.permute(perm.as_slice());
        proof {
            match &r {
                Ok(t) => {
                    assert(gather(self.shape_view(), order) == swap_axes(self.shape_view(), a as int, b as int));
                    assert(gather(self.strides_view(), order) == swap_axes(self.strides_view(), a as int, b as int));
                    assert forall|src: Seq<usize>|
                        valid_index(src, self.shape_view()) implies #[trigger] t.at(
                            swap_axes(src, a as int, b as int),
                        ) == self.at(src) by {
                        assert(gather(src, order) == swap_axes(src, a as int, b as int));
                    }
                },
                Err(_) => {},
            }
        }
        r
    }

    /// Change the shape, keeping the same elements in row-major order.
    ///
    /// On a contiguous tensor this is a free metadata change. Returns
    /// `Err(SizeMismatch)` if the new shape has a different number of
    /// elements, or `Err(NotContiguous)` if the source isn't contiguous.
    pub fn reshape(&self, shape: &[usize]) -> (r: Result<Self, ShapeError>)
        requires
            self.wf(),
            shape_fits(shape@),
        ensures
            match r {
                Ok(t) => {
                    &&& prod(shape@) == prod(self.shape_view())
                    &&& self.contiguous_layout()
                    &&& t.wf()
                    &&& t.shape_view() == shape@
                    &&& t.contiguous_layout()
                    &&& t.storage() == self.storage()
                    &&& t.alloc_id() == self.alloc_id()
                    &&& t.values() == self.values()
                },
                Err(e) => {
                    ||| prod(shape@) != prod(self.shape_view()) && e == ShapeError::SizeMismatch
                    ||| prod(shape@) == prod(self.shape_view()) && !self.contiguous_layout() && e
                        == ShapeError::NotContiguous
                },
            },
    {
        proof {
            lemma_fits_prods(shape@);
            self.lemma_wf();
        }
        let new_numel = shape_numel(shape);
        let cur_numel = self.numel();
        if new_numel != cur_numel {
            return Err(ShapeError::SizeMismatch);
        }
        if !self.is_contiguous() {
            return Err(ShapeError::NotContiguous);
        }
        let strides = contiguous_strides(shape);
        let t = Tensor {
            data: share(&self.data),
            shape: slice_to_vec(shape),
            strides,
            offset: 0,
        };
        proof {
            self.lemma_contiguous_values();
            if prod(shape@) > 0 {
                lemma_max_dot_row_major(shape@, t.strides@);
            }
            t.lemma_contiguous_values();
            assert(t.values() =~= self.values());
        }
        Ok(t)
    }

    /// Narrow one axis to a range `[start..end)`. Pure metadata: the buffer is
    /// shared and the strides are untouched.
    ///
    /// The result has `shape[axis] = end - start` and `offset` shifted by
    /// `start * strides[axis]`. `start == end` is legal and yields an empty
    /// view (numel = 0). Returns `Err(OutOfBounds)` for an axis past the
    /// rank or a range outside `0..=shape[axis]`.
    pub fn slice(&self, axis: usize, start: usize, end: usize) -> (r: Result<Self, ShapeError>)
        requires
            self.wf(),
            axis < self.rank() && start <= end && end <= self.shape_view()[axis as int]
                ==> self.offset_view() + start * self.strides_view()[axis as int] <= usize::MAX,
        ensures
            match r {
                Ok(t) => {
                    &&& axis < self.rank() && start <= end && end <= self.shape_view()[axis as int]
                    &&& t.wf()
                    &&& t.shape_view() == self.shape_view().update(axis as int, (end - start) as usize)
                    &&& t.strides_view() == self.strides_view()
                    &&& t.offset_view() == self.offset_view() + start * self.strides_view()[axis as int]
                    &&& t.storage() == self.storage()
                    &&& t.alloc_id() == self.alloc_id()
                    &&& forall|idx: Seq<usize>|
                        valid_index(idx, t.shape_view()) ==> #[trigger] t.at(idx) == self.at(
                            idx.update(axis as int, (idx[axis as int] + start) as usize),
                        )
                },
                Err(e) => !(axis < self.rank() && start <= end && end <= self.shape_view()[axis as int])
                    && e == ShapeError::OutOfBounds,
            },
    {
        let rank = self.shape.len();
        if axis >= rank {
            return Err(ShapeError::OutOfBounds);
        }
        let dim = self.shape[axis];
        if start > end || end > dim {
            return Err(ShapeError::OutOfBounds);
        }
        proof {
            self.lemma_wf();
        }
        let mut new_shape = copy_usizes(&self.shape);
        let new_offset = self.offset + start * self.strides[axis];
        new_shape.set(axis, end - start);
        let t = Tensor {
            data: share(&self.data),
            shape: new_shape,
            strides: copy_usizes(&self.strides),
            offset: new_offset,
        };
        proof {
            let a = axis as int;
            let sh = self.shape@;
            let st = self.strides@;
            lemma_nz_prod_update_le(sh, a, (end - start) as usize);
            // Every index of the slice is an index of `self`, shifted on `axis`.
            assert forall|idx: Seq<usize>| valid_index(idx, t.shape_view()) implies {
                &&& valid_index(idx.update(a, (idx[a] + start) as usize), sh)
                &&& #[trigger] t.at(idx) == self.at(idx.update(a, (idx[a] + start) as usize))
            } by {
                let src = idx.update(a, (idx[a] + start) as usize);
                assert forall|j: int| 0 <= j < sh.len() implies #[trigger] src[j] < sh[j] by {
                    if j != a {
                        assert(idx[j] < t.shape@[j]);
                    } else {
                        assert(idx[a] < end - start);
                    }
                }
                lemma_dot_update(idx, st, a, (idx[a] + start) as usize);
                assert((idx[a] + start) as nat * (st[a] as nat) == (idx[a] as nat) * (st[a] as nat)
                    + start * (st[a] as nat)) by (nonlinear_arith);
            }
            if prod(t.shape@) > 0 {
                lemma_prod_pos_all_positive(t.shape@);
                let mi = max_index(t.shape@);
                assert(valid_index(mi, t.shape@)) by {
                    assert forall|j: int| 0 <= j < mi.len() implies #[trigger] mi[j] < t.shape@[j] by {
                        assert(t.shape@[j] > 0);
                    }
                }
                lemma_max_dot_is_dot(t.shape@, st);
                let src = mi.update(a, (mi[a] + start) as usize);
                lemma_dot_update(mi, st, a, (mi[a] + start) as usize);
                assert((mi[a] + start) as nat * (st[a] as nat) == (mi[a] as nat) * (st[a] as nat)
                    + start * (st[a] as nat)) by (nonlinear_arith);
                assert(valid_index(src, sh)) by {
                    assert forall|j: int| 0 <= j < sh.len() implies #[trigger] src[j] < sh[j] by {
                        if j != a {
                            assert(mi[j] < t.shape@[j]);
                        }
                    }
                }
            }
        }
        Ok(t)
    }

    /// Reshape the view to a target shape by stretching axes of size 1.
    ///
    /// Stretched axes get stride 0, so every index along them reads the same
    /// buffer position; new leading axes are added with stride 0 too.
    /// The target rank must be at least the current rank, and every existing
    /// axis must either match the target or be 1; anything else returns
    /// `Err(SizeMismatch)`.
    pub fn broadcast_to(&self, shape: &[usize]) -> (r: Result<Self, ShapeError>)
        requires
            self.wf(),
            shape_fits(shape@),
        ensures
            match r {
                Ok(t) => {
                    &&& broadcast_ok(self.shape_view(), shape@)
                    &&& t.wf()
                    &&& t.shape_view() == shape@
                    &&& t.strides_view() == broadcast_strides(
                        self.shape_view(),
                        self.strides_view(),
                        shape@,
                    )
                    &&& t.offset_view() == self.offset_view()
                    &&& t.storage() == self.storage()
                    &&& t.alloc_id() == self.alloc_id()
                    &&& forall|idx: Seq<usize>|
                        valid_index(idx, shape@) ==> #[trigger] t.at(idx) == self.at(
                            broadcast_source(idx, self.shape_view(), shape@),
                        )
                    &&& forall|idx: Seq<usize>|
                        valid_index(idx, shape@) ==> valid_index(
                            #[trigger] broadcast_source(idx, self.shape_view(), shape@),
                            self.shape_view(),
                        )
                },
                Err(e) => !broadcast_ok(self.shape_view(), shape@) && e == ShapeError::SizeMismatch,
            },
    {
        let self_rank = self.shape.len();
        let target_rank = shape.len();
        if target_rank < self_rank {
            return Err(ShapeError::SizeMismatch);
        }
        let pad = target_rank - self_rank;
        let ghost sh = self.shape@;
        let ghost st = self.strides@;
        let mut new_shape: Vec<usize> = Vec::new();
        let mut new_strides: Vec<usize> = Vec::new();
        let mut i: usize = 0;
        while i < target_rank
            invariant
                i <= target_rank,
                target_rank == shape@.len(),
                self_rank == sh.len(),
                sh == self.shape@,
                st == self.strides@,
                st.len() == sh.len(),
                pad == target_rank - self_rank,
                new_shape@ == shape@.take(i as int),
                new_strides@ == broadcast_strides(sh, st, shape@).take(i as int),
                forall|j: int|
                    0 <= j < sh.len() && j + pad < i ==> #[trigger] sh[j] == shape@[j + pad] || sh[j]
                        == 1,
            decreases target_rank - i,
        {
            let target_dim = shape[i];
            if i < pad {
                new_shape.push(target_dim);
                new_strides.push(0);
            } else {
                let self_idx = i - pad;
                let self_dim = self.shape[self_idx];
                let self_stride = self.strides[self_idx];
                if self_dim == target_dim {
                    new_shape.push(target_dim);
                    new_strides.push(self_stride);
                } else if self_dim == 1 {
                    new_shape.push(target_dim);
                    new_strides.push(0);
                } else {
                    assert(!broadcast_ok(self.shape_view(), shape@)) by {
                        assert(!(sh[self_idx as int] == shape@[self_idx + pad] || sh[self_idx as int] == 1));
                    }
                    return Err(ShapeError::SizeMismatch);
                }
            }
            i = i + 1;
            assert(new_shape@ =~= shape@.take(i as int));
            assert(new_strides@ =~= broadcast_strides(sh, st, shape@).take(i as int));
        }
        assert(new_shape@ =~= shape@);
        assert(new_strides@ =~= broadcast_strides(sh, st, shape@));
        let t = Tensor {
            data: share(&self.data),
            shape: new_shape,
            strides: new_strides,
            offset: self.offset,
        };
        proof {
            self.lemma_wf();
            let bs = broadcast_strides(sh, st, shape@);
            assert forall|idx: Seq<usize>| valid_index(idx, shape@) implies {
                &&& valid_index(broadcast_source(idx, sh, shape@), sh)
                &&& dot(idx, bs) == dot(broadcast_source(idx, sh, shape@), st)
            } by {
                lemma_broadcast_dot(idx, sh, st, shape@);
            }
            if prod(shape@) > 0 {
                lemma_prod_pos_all_positive(shape@);
                let mi = max_index(shape@);
                assert(valid_index(mi, shape@)) by {
                    assert forall|j: int| 0 <= j < mi.len() implies #[trigger] mi[j] < shape@[j] by {
                        assert(shape@[j] > 0);
                    }
                }
                lemma_max_dot_is_dot(shape@, bs);
            }
        }
        Ok(t)
    }
}

impl<T: Copy> Tensor<T> {
    /// Walk the tensor in logical row-major order and dump the values into a
    /// flat `Vec<T>`.
    ///
    /// For a transposed or sliced view this reflects the *logical* layout; for
    /// a broadcast view the output has `numel()` entries with the repeats
    /// resolved.
    pub fn to_vec(&self) -> (v: Vec<T>)
        requires
            self.wf(),
        ensures
            v@ == self.values(),
    {
        let n = self.numel();
        let mut output: Vec<T> = Vec::with_capacity(n);
        if self.is_contiguous() {
            // Row-major from the front of the buffer: the logical order is the
            // buffer order.
            proof {
                self.lemma_contiguous_values();
            }
            let buf = self.data.as_slice();
            let mut i: usize = 0;
            while i < n
                invariant
                    i <= n,
                    n as nat == prod(self.shape_view()),
                    n <= buf@.len(),
                    buf@ == self.storage(),
                    forall|j: int| 0 <= j < n ==> #[trigger] self.values()[j] == buf@[j],
                    output@ == self.values().take(i as int),
                decreases n - i,
            {
                output.push(buf[i]);
                i = i + 1;
                assert(output@ =~= self.values().take(i as int));
            }
            assert(self.values().take(n as int) =~= self.values());
            return output;
        }
        let mut i: usize = 0;
        while i < n
            invariant
                i <= n,
                n as nat == prod(self.shape_view()),
                self.wf(),
                output@ == self.values().take(i as int),
            decreases n - i,
        {
            proof {
                lemma_prod_pos_all_positive(self.shape_view());
                lemma_unravel_ravel(i as nat, self.shape_view());
            }
            let idx = unravel_index(i, self.shape());
            output.push(self.get(idx.as_slice()));
            i = i + 1;
            assert(output@ =~= self.values().take(i as int));
        }
        assert(self.values().take(n as int) =~= self.values());
        output
    }

    /// Materialise the tensor into a fresh row-major buffer.
    ///
    /// Fast path: if the tensor is already contiguous with offset zero,
    /// returns a shared handle (no copy). Slow path: walks every logical
    /// position, reads through the strides/offset, and packs the values into
    /// a new buffer.
    pub fn contiguous(&self) -> (t: Self)
        requires
            self.wf(),
        ensures
            t.wf(),
            t.shape_view() == self.shape_view(),
            t.contiguous_layout(),
            t.values() == self.values(),
            self.contiguous_layout() ==> t.storage() == self.storage(),
            self.contiguous_layout() ==> t.alloc_id() == self.alloc_id(),
            !self.contiguous_layout() ==> t.alloc_id() != self.alloc_id(),
    {
        if self.is_contiguous() && self.offset == 0 {
            let t = self.clone();
            assert(t.values() =~= self.values());
            return t;
        }
        let buf = self.to_vec();
        proof {
            self.lemma_wf();
            lemma_fits_prods(self.shape@);
        }
        let strides = contiguous_strides(self.shape());
        let t = Self::from_parts_contiguous(buf, self.shape(), strides, Some(&self.data));
        proof {
            t.lemma_contiguous_values();
            assert(t.values() =~= self.values());
        }
        t
    }
}

/// `inv` undoes `order`: `order[inv[i]] == i` for every axis `i`.
pub open spec fn is_inverse_permutation(order: Seq<usize>, inv: Seq<usize>, n: nat) -> bool {
    &&& is_permutation(order, n)
    &&& is_permutation(inv, n)
    &&& forall|i: int| 0 <= i < n ==> #[trigger] order[inv[i] as int] == i
}

/// Gathering by `order` and then by its inverse gives the sequence back.
pub proof fn lemma_gather_inverse<A>(s: Seq<A>, order: Seq<usize>, inv: Seq<usize>)
    requires
        is_inverse_permutation(order, inv, s.len()),
    ensures
        gather(gather(s, order), inv) == s,
{
    assert(gather(gather(s, order), inv) =~= s) by {
        assert forall|i: int| 0 <= i < s.len() implies #[trigger] gather(gather(s, order), inv)[i]
            == s[i] by {
            assert(inv[i] < s.len());
            assert(order[inv[i] as int] == i);
        }
    }
}

/// Two views with the same shape, strides, offset and buffer have the same
/// elements.
pub proof fn lemma_same_layout_same_values<T>(t: Tensor<T>, u: Tensor<T>)
    requires
        t.shape_view() == u.shape_view(),
        t.strides_view() == u.strides_view(),
        t.offset_view() == u.offset_view(),
        t.storage() == u.storage(),
    ensures
        t.values() == u.values(),
        forall|idx: Seq<usize>| #[trigger] t.at(idx) == u.at(idx),
{
    assert(t.values() =~= u.values());
}

/// A permutation and its inverse give back the original view, in shape, in
/// strides and in logical order: if `p` permutes the axes of `t` by `order`
/// and `q` permutes the axes of `p` by the inverse of `order`, then `q`
/// reads exactly like `t`, from the same allocation.
pub proof fn law_permute_roundtrip<T>(
    t: Tensor<T>,
    p: Tensor<T>,
    q: Tensor<T>,
    order: Seq<usize>,
    inv: Seq<usize>,
)
    requires
        t.wf(),
        is_inverse_permutation(order, inv, t.rank()),
        p.shape_view() == gather(t.shape_view(), order),
        p.strides_view() == gather(t.strides_view(), order),
        p.offset_view() == t.offset_view(),
        p.storage() == t.storage(),
        p.alloc_id() == t.alloc_id(),
        q.shape_view() == gather(p.shape_view(), inv),
        q.strides_view() == gather(p.strides_view(), inv),
        q.offset_view() == p.offset_view(),
        q.storage() == p.storage(),
        q.alloc_id() == p.alloc_id(),
    ensures
        q.shape_view() == t.shape_view(),
        q.strides_view() == t.strides_view(),
        q.values() == t.values(),
        q.alloc_id() == t.alloc_id(),
{
    t.lemma_wf();
    lemma_gather_inverse(t.shape_view(), order, inv);
    lemma_gather_inverse(t.strides_view(), order, inv);
    lemma_same_layout_same_values(q, t);
}

/// The identity order changes nothing.
pub proof fn law_permute_identity<A>(s: Seq<A>, order: Seq<usize>)
    requires
        order.len() == s.len(),
        forall|i: int| 0 <= i < order.len() ==> #[trigger] order[i] == i,
    ensures
        gather(s, order) == s,
{
    assert(gather(s, order) =~= s);
}

/// A slice of a slice along one axis is one slice of `t`: the
/// ranges compose (`s2..e2` of `s1..e1` is `s1 + s2..s1 + e2`) and the
/// offsets add. `u` and `v` are related as `slice` relates its result to its
/// receiver.
pub proof fn law_slice_compose<T>(
    t: Tensor<T>,
    u: Tensor<T>,
    v: Tensor<T>,
    axis: int,
    s1: nat,
    e1: nat,
    s2: nat,
    e2: nat,
)
    requires
        t.wf(),
        0 <= axis < t.rank(),
        s1 <= e1 <= t.shape_view()[axis],
        s2 <= e2 <= e1 - s1,
        u.shape_view() == t.shape_view().update(axis, (e1 - s1) as usize),
        u.strides_view() == t.strides_view(),
        u.offset_view() == t.offset_view() + s1 * t.strides_view()[axis],
        u.storage() == t.storage(),
        u.alloc_id() == t.alloc_id(),
        v.shape_view() == u.shape_view().update(axis, (e2 - s2) as usize),
        v.strides_view() == u.strides_view(),
        v.offset_view() == u.offset_view() + s2 * u.strides_view()[axis],
        v.storage() == u.storage(),
        v.alloc_id() == u.alloc_id(),
    ensures
        v.shape_view() == t.shape_view().update(axis, ((s1 + e2) - (s1 + s2)) as usize),
        v.strides_view() == t.strides_view(),
        v.offset_view() == t.offset_view() + (s1 + s2) * t.strides_view()[axis],
        v.storage() == t.storage(),
        v.alloc_id() == t.alloc_id(),
        forall|idx: Seq<usize>|
            valid_index(idx, v.shape_view()) ==> #[trigger] v.at(idx) == t.at(
                idx.update(axis, (idx[axis] + s1 + s2) as usize),
            ),
{
    t.lemma_wf();
    let st = t.strides_view();
    assert(s1 * (st[axis] as nat) + s2 * (st[axis] as nat) == (s1 + s2) * (st[axis] as nat))
        by (nonlinear_arith);
    assert(v.shape_view() =~= t.shape_view().update(axis, ((s1 + e2) - (s1 + s2)) as usize));
    assert forall|idx: Seq<usize>| valid_index(idx, v.shape_view()) implies #[trigger] v.at(idx)
        == t.at(idx.update(axis, (idx[axis] + s1 + s2) as usize)) by {
        let x = (idx[axis] + s1 + s2) as usize;
        lemma_dot_update(idx, st, axis, x);
        assert((idx[axis] + s1 + s2) as nat * (st[axis] as nat) == (idx[axis] as nat) * (
        st[axis] as nat) + (s1 + s2) * (st[axis] as nat)) by (nonlinear_arith);
    }
}

/// Transpose is its own inverse: swapping the same two axes twice gives
/// back the original view.
pub proof fn law_transpose_involution<T>(t: Tensor<T>, u: Tensor<T>, v: Tensor<T>, a: int, b: int)
    requires
        0 <= a < t.rank(),
        0 <= b < t.rank(),
        t.wf(),
        u.shape_view() == swap_axes(t.shape_view(), a, b),
        u.strides_view() == swap_axes(t.strides_view(), a, b),
        u.offset_view() == t.offset_view(),
        u.storage() == t.storage(),
        u.alloc_id() == t.alloc_id(),
        v.shape_view() == swap_axes(u.shape_view(), a, b),
        v.strides_view() == swap_axes(u.strides_view(), a, b),
        v.offset_view() == u.offset_view(),
        v.storage() == u.storage(),
        v.alloc_id() == u.alloc_id(),
    ensures
        v.shape_view() == t.shape_view(),
        v.strides_view() == t.strides_view(),
        v.values() == t.values(),
        v.alloc_id() == t.alloc_id(),
{
    t.lemma_wf();
    assert(swap_axes(swap_axes(t.shape_view(), a, b), a, b) =~= t.shape_view());
    assert(swap_axes(swap_axes(t.strides_view(), a, b), a, b) =~= t.strides_view());
    lemma_same_layout_same_values(v, t);
}

/// A transpose exchanges exactly axes `a` and `b`: the result has the
/// length and stride of axis `b` at `a` and of axis `a` at `b`, every other
/// axis keeps its length and stride, and entry `idx` of the result is the
/// entry of the source whose index has entries `a` and `b` exchanged.
pub proof fn law_transpose_swaps_two_axes<T>(t: Tensor<T>, v: Tensor<T>, a: int, b: int)
    requires
        0 <= a < t.rank(),
        0 <= b < t.rank(),
        t.wf(),
        v.shape_view() == swap_axes(t.shape_view(), a, b),
        v.strides_view() == swap_axes(t.strides_view(), a, b),
        forall|src: Seq<usize>|
            valid_index(src, t.shape_view()) ==> #[trigger] v.at(swap_axes(src, a, b)) == t.at(src),
    ensures
        v.rank() == t.rank(),
        v.shape_view()[a] == t.shape_view()[b],
        v.shape_view()[b] == t.shape_view()[a],
        v.strides_view()[a] == t.strides_view()[b],
        v.strides_view()[b] == t.strides_view()[a],
        forall|i: int|
            0 <= i < t.rank() && i != a && i != b ==> #[trigger] v.shape_view()[i]
                == t.shape_view()[i] && v.strides_view()[i] == t.strides_view()[i],
        forall|idx: Seq<usize>|
            valid_index(idx, v.shape_view()) ==> #[trigger] v.at(idx) == t.at(
                idx.update(a, idx[b]).update(b, idx[a]),
            ),
{
    t.lemma_wf();
    assert forall|idx: Seq<usize>| valid_index(idx, v.shape_view()) implies #[trigger] v.at(idx)
        == t.at(idx.update(a, idx[b]).update(b, idx[a])) by {
        let src = idx.update(a, idx[b]).update(b, idx[a]);
        assert(valid_index(src, t.shape_view())) by {
            assert forall|j: int| 0 <= j < src.len() implies #[trigger] src[j] < t.shape_view()[j] by {
                if j == b {
                    assert(idx[a] < v.shape_view()[a]);
                } else if j == a {
                    assert(idx[b] < v.shape_view()[b]);
                } else {
                    assert(idx[j] < v.shape_view()[j]);
                }
            }
        }
        assert(swap_axes(src, a, b) =~= idx);
    }
}

/// A broadcast keeps the stride of every aligned axis whose length already
/// matches the target, and gives stride 0 exactly to the new leading axes
/// and to the axes stretched from length 1 to another length; its offset is
/// the source's. In particular a broadcast to the tensor's own shape has the
/// tensor's strides.
pub proof fn law_broadcast_keeps_matching_strides<T>(t: Tensor<T>, target: Seq<usize>, v: Tensor<T>)
    requires
        t.wf(),
        broadcast_ok(t.shape_view(), target),
        v.shape_view() == target,
        v.strides_view() == broadcast_strides(t.shape_view(), t.strides_view(), target),
        v.offset_view() == t.offset_view(),
    ensures
        v.rank() == target.len(),
        forall|i: int|
            0 <= i < target.len() - t.rank() ==> #[trigger] v.strides_view()[i] == 0,
        forall|j: int|
            0 <= j < t.rank() && t.shape_view()[j] == target[j + (target.len() - t.rank())]
                ==> #[trigger] v.strides_view()[j + (target.len() - t.rank())]
                == t.strides_view()[j],
        forall|j: int|
            0 <= j < t.rank() && t.shape_view()[j] != target[j + (target.len() - t.rank())]
                ==> t.shape_view()[j] == 1 && #[trigger] v.strides_view()[j + (target.len()
                - t.rank())] == 0,
        target == t.shape_view() ==> v.strides_view() == t.strides_view() && v.offset_view()
            == t.offset_view(),
{
    t.lemma_wf();
    let pad = target.len() - t.rank();
    assert forall|j: int|
        0 <= j < t.rank() && t.shape_view()[j] != target[j + pad] implies t.shape_view()[j] == 1
        && #[trigger] v.strides_view()[j + pad] == 0 by {
        assert(t.shape_view()[j] == target[j + pad] || t.shape_view()[j] == 1);
    }
    if target == t.shape_view() {
        assert(v.strides_view() =~= t.strides_view());
    }
}

/// `swap_axes(s, a, b)` exchanges entries `a` and `b`.
pub open spec fn swap_axes<A>(s: Seq<A>, a: int, b: int) -> Seq<A> {
    s.update(a, s[b]).update(b, s[a])
}

/// `shape` broadcasts to `target`: the rank does not drop, and aligned from
/// the right each existing axis equals the target axis or is 1.
pub open spec fn broadcast_ok(shape: Seq<usize>, target: Seq<usize>) -> bool {
    let pad = target.len() - shape.len();
    &&& target.len() >= shape.len()
    &&& forall|j: int|
        0 <= j < shape.len() ==> #[trigger] shape[j] == target[j + pad] || shape[j] == 1
}

/// The strides of a broadcast view: 0 on new leading axes and on stretched
/// axes, the source stride elsewhere.
pub open spec fn broadcast_strides(shape: Seq<usize>, strides: Seq<usize>, target: Seq<usize>) -> Seq<usize> {
    let pad = target.len() - shape.len();
    Seq::new(
        target.len(),
        |i: int|
            if i < pad {
                0usize
            } else if shape[i - pad] == target[i] {
                strides[i - pad]
            } else {
                0usize
            },
    )
}

/// The source index that a broadcast view reads for index `idx`.
pub open spec fn broadcast_source(idx: Seq<usize>, shape: Seq<usize>, target: Seq<usize>) -> Seq<usize> {
    let pad = target.len() - shape.len();
    Seq::new(shape.len(), |j: int| if shape[j] == target[j + pad] { idx[j + pad] } else { 0usize })
}

proof fn lemma_broadcast_dot(idx: Seq<usize>, sh: Seq<usize>, st: Seq<usize>, target: Seq<usize>)
    requires
        broadcast_ok(sh, target),
        st.len() == sh.len(),
        valid_index(idx, target),
    ensures
        valid_index(broadcast_source(idx, sh, target), sh),
        dot(idx, broadcast_strides(sh, st, target)) == dot(broadcast_source(idx, sh, target), st),
{
    let pad = target.len() - sh.len();
    let src = broadcast_source(idx, sh, target);
    let bs = broadcast_strides(sh, st, target);
    assert forall|j: int| 0 <= j < sh.len() implies #[trigger] src[j] < sh[j] by {
        assert(idx[j + pad] < target[j + pad]);
        if sh[j] != target[j + pad] {
            assert(sh[j] == 1);
        }
    }
    assert(idx =~= idx.take(pad) + idx.skip(pad));
    assert(bs =~= bs.take(pad) + bs.skip(pad));
    lemma_dot_append(idx.take(pad), bs.take(pad), idx.skip(pad), bs.skip(pad));
    lemma_dot_zero_strides(idx.take(pad), bs.take(pad));
    assert forall|j: int| 0 <= j < sh.len() implies (#[trigger] idx.skip(pad)[j] as nat) * (
    bs.skip(pad)[j] as nat) == (src[j] as nat) * (st[j] as nat) by {
        if sh[j] == target[j + pad] {
        } else {
            assert(bs.skip(pad)[j] == 0);
            assert(src[j] == 0);
            assert((idx.skip(pad)[j] as nat) * 0 == 0);
            assert(0 * (st[j] as nat) == 0);
        }
    }
    lemma_dot_termwise(idx.skip(pad), bs.skip(pad), src, st);
}

/// `gather` over slices: the entries of `s` in the order `order`.
fn gather_usizes(s: &[usize], order: &[usize]) -> (v: Vec<usize>)
    requires
        forall|i: int| 0 <= i < order@.len() ==> #[trigger] order@[i] < s@.len(),
    ensures
        v@ == gather(s@, order@),
{
    let mut v: Vec<usize> = Vec::new();
    let mut i: usize = 0;
    while i < order.len()
        invariant
            i <= order@.len(),
            forall|j: int| 0 <= j < order@.len() ==> #[trigger] order@[j] < s@.len(),
            v@ == gather(s@, order@).take(i as int),
        decreases order@.len() - i,
    {
        v.push(s[order[i]]);
        i = i + 1;
        assert(v@ =~= gather(s@, order@).take(i as int));
    }
    assert(gather(s@, order@).take(order@.len() as int) =~= gather(s@, order@));
    v
}

impl<T> Clone for Tensor<T> {
    /// Another handle on the same view: the buffer is shared, not copied.
    fn clone(&self) -> (t: Self)
        ensures
            t.shape_view() == self.shape_view(),
            t.strides_view() == self.strides_view(),
            t.offset_view() == self.offset_view(),
            t.storage() == self.storage(),
            t.alloc_id() == self.alloc_id(),
            self.wf() ==> t.wf(),
    {
        Tensor {
            data: share(&self.data),
            shape: copy_usizes(&self.shape),
            strides: copy_usizes(&self.strides),
            offset: self.offset,
        }
    }
}

/// A fresh vector with the entries of a slice.
pub(crate) fn slice_to_vec(s: &[usize]) -> (v: Vec<usize>)
    ensures
        v@ == s@,
{
    let mut v: Vec<usize> = Vec::new();
    let mut i: usize = 0;
    while i < s.len()
        invariant
            i <= s.len(),
            v@ == s@.take(i as int),
        decreases s.len() - i,
    {
        v.push(s[i]);
        i = i + 1;
        assert(v@ =~= s@.take(i as int));
    }
    assert(s@.take(s.len() as int) =~= s@);
    v
}

/// A fresh copy of a vector of indices.
pub(crate) fn copy_usizes(s: &Vec<usize>) -> (v: Vec<usize>)
    ensures
        v@ == s@,
{
    slice_to_vec(s.as_slice())
}

/// A valid index exists only for a shape without zero axes.
pub proof fn lemma_valid_index_prod_pos(idx: Seq<usize>, shape: Seq<usize>)
    requires
        valid_index(idx, shape),
    ensures
        prod(shape) > 0,
    decreases shape.len(),
{
    if shape.len() > 0 {
        let i2 = idx.drop_last();
        let s2 = shape.drop_last();
        assert(valid_index(i2, s2)) by {
            assert forall|j: int| 0 <= j < s2.len() implies #[trigger] i2[j] < s2[j] by {
                assert(idx[j] < shape[j]);
            }
        }
        lemma_valid_index_prod_pos(i2, s2);
        assert(idx[idx.len() - 1] < shape[shape.len() - 1]);
        let a = prod(s2) as int;
        let b = shape.last() as int;
        assert(a * b > 0) by (nonlinear_arith)
            requires
                a > 0,
                b > 0,
        ;
    }
}

/// A prefix of a dot product is at most the whole.
pub proof fn lemma_dot_prefix_le(idx: Seq<usize>, strides: Seq<usize>, i: int)
    requires
        idx.len() == strides.len(),
        0 <= i <= idx.len(),
    ensures
        dot(idx.take(i), strides.take(i)) <= dot(idx, strides),
    decreases idx.len() - i,
{
    if i < idx.len() {
        lemma_dot_prefix_le(idx, strides, i + 1);
        lemma_dot_take(idx, strides, i);
    } else {
        assert(idx.take(i) =~= idx);
        assert(strides.take(i) =~= strides);
    }
}

/// Under row-major strides the last element sits at `prod(shape) - 1`.
pub proof fn lemma_max_dot_row_major(shape: Seq<usize>, strides: Seq<usize>)
    requires
        prod(shape) > 0,
        strides.len() == shape.len(),
        forall|i: int|
            0 <= i < shape.len() ==> #[trigger] strides[i] as nat == row_major_strides(shape)[i],
    ensures
        max_dot(shape, strides) < prod(shape),
{
    let last = Seq::new(shape.len(), |i: int| (shape[i] - 1) as usize);
    lemma_prod_pos_all_positive(shape);
    assert(valid_index(last, shape));
    lemma_max_dot_is_dot(shape, strides);
    assert(last =~= max_index(shape));
    lemma_dot_row_major(last, shape, strides);
    lemma_ravel_unravel(last, shape);
}

/// The index of the last element along every axis.
pub open spec fn max_index(shape: Seq<usize>) -> Seq<usize> {
    Seq::new(shape.len(), |i: int| (if shape[i] == 0 { 0 } else { shape[i] - 1 }) as usize)
}

/// `max_dot` is the offset of the last element.
pub proof fn lemma_max_dot_is_dot(shape: Seq<usize>, strides: Seq<usize>)
    requires
        strides.len() == shape.len(),
    ensures
        max_dot(shape, strides) == dot(max_index(shape), strides),
    decreases shape.len(),
{
    if shape.len() > 0 {
        lemma_max_dot_is_dot(shape.drop_last(), strides.drop_last());
        assert(max_index(shape).drop_last() =~= max_index(shape.drop_last()));
    }
}

/// A nonzero product has no zero axis.
pub proof fn lemma_prod_pos_all_positive(shape: Seq<usize>)
    requires
        prod(shape) > 0,
    ensures
        all_positive(shape),
    decreases shape.len(),
{
    if shape.len() > 0 {
        let s2 = shape.drop_last();
        let a = prod(s2) as int;
        let b = shape.last() as int;
        if a == 0 {
            assert(a * b == 0) by (nonlinear_arith)
                requires
                    a == 0,
            ;
        }
        if b == 0 {
            assert(a * b == 0) by (nonlinear_arith)
                requires
                    b == 0,
            ;
        }
        lemma_prod_pos_all_positive(s2);
        assert forall|i: int| 0 <= i < shape.len() implies #[trigger] shape[i] > 0 by {
            if i < shape.len() - 1 {
                assert(s2[i] == shape[i]);
            }
        }
    }
}

} // verus!
