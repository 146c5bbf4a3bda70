//! Elementwise operations: `map` over one tensor, `zip_with` over two
//! broadcast tensors, and the arithmetic built on them.
//!
//! The element type is generic. What an operation does to the elements is
//! stated through the operation itself: an output element `r` computed from
//! inputs `x, y` satisfies `call_ensures(f, (x, y), r)`, for the closure `f`
//! or for `T`'s operator method (`T::add`, `T::sub`, ...). For types whose
//! operators have a functional specification (the machine integers) this
//! pins the value; for the others it fixes which inputs went into which
//! output.
use vstd::prelude::*;
use vstd::std_specs::ops::{AddSpec, SubSpec, MulSpec, DivSpec, NegSpec};
use core::ops::{Add, Sub, Mul, Div, Neg};
use crate::shape::{
    prod, unravel, valid_index, shape_fits, broadcast_compatible, broadcast_shape, broadcast_rank,
    aligned_dim, merge_dims, broadcast_shapes, unravel_index, lemma_unravel_ravel,
};
use crate::shape::ShapeError;
use crate::order::{scalar_max, max_spec, comparisons_specified};
use crate::tensor::{Tensor, broadcast_ok, broadcast_source, lemma_prod_pos_all_positive};

verus! {

impl<T: Copy> Tensor<T> {
    /// The element that a broadcast of `self` to `target` shows at row-major
    /// position `i`.
    pub open spec fn broadcast_value(&self, target: Seq<usize>, i: int) -> T {
        self.at(broadcast_source(unravel(i as nat, target), self.shape_view(), target))
    }

    /// Every operand pair that a two-tensor operation combines, position by
    /// position in the common shape, satisfies `p`.
    pub open spec fn all_pairs(&self, other: &Self, p: spec_fn(T, T) -> bool) -> bool {
        let common = broadcast_shape(self.shape_view(), other.shape_view());
        forall|i: int|
            0 <= i < prod(common) ==> p(
                #[trigger] self.broadcast_value(common, i),
                other.broadcast_value(common, i),
            )
    }

    /// The result of a two-tensor operation: the common shape, a fresh
    /// buffer, and at each position the output of `f` on the two operands.
    pub open spec fn zip_result<F: Fn(T, T) -> T>(&self, other: &Self, f: F, t: Self) -> bool {
        let common = broadcast_shape(self.shape_view(), other.shape_view());
        &&& broadcast_compatible(self.shape_view(), other.shape_view())
        &&& t.wf()
        &&& t.shape_view() == common
        &&& t.contiguous_layout()
        &&& t.values().len() == prod(common)
        &&& forall|i: int|
            0 <= i < prod(common) ==> call_ensures(
                f,
                (self.broadcast_value(common, i), other.broadcast_value(common, i)),
                #[trigger] t.values()[i],
            )
    }

    /// Apply a closure to every element. Returns a fresh, contiguous,
    /// offset-0 tensor.
    ///
    /// The closure is called once per logical element, in row-major order,
    /// including the repeats of a broadcast view.
    pub fn map<F: Fn(T) -> T>(&self, f: F) -> (t: Self)
        requires
            self.wf(),
            forall|i: int|
                0 <= i < self.values().len() ==> call_requires(f, (#[trigger] self.values()[i],)),
        ensures
            t.wf(),
            t.shape_view() == self.shape_view(),
            t.contiguous_layout(),
            t.values().len() == self.values().len(),
            forall|i: int|
                0 <= i < self.values().len() ==> call_ensures(
                    f,
                    (self.values()[i],),
                    #[trigger] t.values()[i],
                ),
    {
        proof {
            self.lemma_wf();
        }
        let n = self.numel();
        let mut buf: Vec<T> = Vec::new();
        let mut linear: usize = 0;
        while linear < n
            invariant
                linear <= n,
                n as nat == prod(self.shape_view()),
                self.wf(),
                forall|i: int|
                    0 <= i < self.values().len() ==> call_requires(f, (#[trigger] self.values()[i],)),
                buf@.len() == linear,
                forall|i: int|
                    0 <= i < linear ==> call_ensures(f, (self.values()[i],), #[trigger] buf@[i]),
            decreases n - linear,
        {
            proof {
                lemma_prod_pos_all_positive(self.shape_view());
                lemma_unravel_ravel(linear as nat, self.shape_view());
            }
            let idx = unravel_index(linear, self.shape());
            let x = self.get(idx.as_slice());
            assert(x == self.values()[linear as int]);
            let y = f(x);
            buf.push(y);
            linear = linear + 1;
        }
        let t = Tensor::from_vec(buf, self.shape());
        t
    }

    /// Apply a closure pairwise. Both operands are broadcast to their common
    /// shape before the closure runs.
    ///
    /// Returns `Err(SizeMismatch)` if the two shapes cannot be broadcast.
    pub fn zip_with<F: Fn(T, T) -> T>(&self, other: &Self, f: F) -> (r: Result<Self, ShapeError>)
        requires
            self.wf(),
            other.wf(),
            broadcast_compatible(self.shape_view(), other.shape_view()) ==> shape_fits(
                broadcast_shape(self.shape_view(), other.shape_view()),
            ),
            broadcast_compatible(self.shape_view(), other.shape_view()) ==> self.all_pairs(
                other,
                |x: T, y: T| call_requires(f, (x, y)),
            ),
        ensures
            match r {
                Ok(t) => self.zip_result(other, f, t),
                Err(e) => !broadcast_compatible(self.shape_view(), other.shape_view()) && e
                    == ShapeError::SizeMismatch,
            },
    {
        let common = broadcast_shapes(self.shape(), other.shape())?;
        let ghost cs = common@;
        proof {
            lemma_broadcast_ok_both(self.shape_view(), other.shape_view());
        }
        let a_broad = self.broadcast_to(common.as_slice())?;
        let b_broad = other.broadcast_to(common.as_slice())?;
        proof {
            a_broad.lemma_wf();
        }
        let n = a_broad.numel();
        let mut buf: Vec<T> = Vec::new();
        let mut linear: usize = 0;
        while linear < n
            invariant
                linear <= n,
                n as nat == prod(cs),
                cs == common@,
                cs == broadcast_shape(self.shape_view(), other.shape_view()),
                a_broad.wf(),
                b_broad.wf(),
                a_broad.shape_view() == cs,
                b_broad.shape_view() == cs,
                forall|idx: Seq<usize>|
                    valid_index(idx, cs) ==> #[trigger] a_broad.at(idx) == self.at(
                        broadcast_source(idx, self.shape_view(), cs),
                    ),
                forall|idx: Seq<usize>|
                    valid_index(idx, cs) ==> #[trigger] b_broad.at(idx) == other.at(
                        broadcast_source(idx, other.shape_view(), cs),
                    ),
                self.all_pairs(other, |x: T, y: T| call_requires(f, (x, y))),
                buf@.len() == linear,
                forall|i: int|
                    0 <= i < linear ==> call_ensures(
                        f,
                        (self.broadcast_value(cs, i), other.broadcast_value(cs, i)),
                        #[trigger] buf@[i],
                    ),
            decreases n - linear,
        {
            proof {
                lemma_prod_pos_all_positive(cs);
                lemma_unravel_ravel(linear as nat, cs);
            }
            let idx = unravel_index(linear, common.as_slice());
            let x = a_broad.get(idx.as_slice());
            let y = b_broad.get(idx.as_slice());
            assert(x == self.broadcast_value(cs, linear as int));
            assert(y == other.broadcast_value(cs, linear as int));
            let z = f(x, y);
            buf.push(z);
            linear = linear + 1;
        }
        let t = Tensor::from_vec(buf, common.as_slice());
        Ok(t)
    }
}

impl<T: Copy + Add<Output = T>> Tensor<T> {
    /// Elementwise addition. Both operands are broadcast to a common shape.
    /// Returns `Err(SizeMismatch)` if the shapes don't broadcast.
    pub fn add(&self, other: &Self) -> (r: Result<Self, ShapeError>)
        requires
            self.wf(),
            other.wf(),
            broadcast_compatible(self.shape_view(), other.shape_view()) ==> shape_fits(
                broadcast_shape(self.shape_view(), other.shape_view()),
            ),
            broadcast_compatible(self.shape_view(), other.shape_view()) ==> self.all_pairs(
                other,
                |a: T, b: T| a.add_req(b),
            ),
        ensures
            match r {
                Ok(t) => self.zip_result(other, T::add, t),
                Err(e) => !broadcast_compatible(self.shape_view(), other.shape_view()) && e
                    == ShapeError::SizeMismatch,
            },
    {
        let f = |a: T, b: T| -> (c: T)
            requires
                a.add_req(b),
            ensures
                call_ensures(T::add, (a, b), c),
            { a + b };
        let r = self.zip_with(other, f);
        proof {
            if let Ok(t) = &r {
                let common = broadcast_shape(self.shape_view(), other.shape_view());
                assert forall|i: int| 0 <= i < prod(common) implies call_ensures(
                    T::add,
                    (self.broadcast_value(common, i), other.broadcast_value(common, i)),
                    #[trigger] t.values()[i],
                ) by {
                    assert(call_ensures(
                        f,
                        (self.broadcast_value(common, i), other.broadcast_value(common, i)),
                        t.values()[i],
                    ));
                }
            }
        }
        r
    }
}

impl<T: Copy + Sub<Output = T>> Tensor<T> {
    /// Elementwise subtraction. Both operands are broadcast to a common shape.
    /// Returns `Err(SizeMismatch)` if the shapes don't broadcast.
    pub fn sub(&self, other: &Self) -> (r: Result<Self, ShapeError>)
        requires
            self.wf(),
            other.wf(),
            broadcast_compatible(self.shape_view(), other.shape_view()) ==> shape_fits(
                broadcast_shape(self.shape_view(), other.shape_view()),
            ),
            broadcast_compatible(self.shape_view(), other.shape_view()) ==> self.all_pairs(
                other,
                |a: T, b: T| a.sub_req(b),
            ),
        ensures
            match r {
                Ok(t) => self.zip_result(other, T::sub, t),
                Err(e) => !broadcast_compatible(self.shape_view(), other.shape_view()) && e
                    == ShapeError::SizeMismatch,
            },
    {
        let f = |a: T, b: T| -> (c: T)
            requires
                a.sub_req(b),
            ensures
                call_ensures(T::sub, (a, b), c),
            { a - b };
        let r = self.zip_with(other, f);
        proof {
            if let Ok(t) = &r {
                let common = broadcast_shape(self.shape_view(), other.shape_view());
                assert forall|i: int| 0 <= i < prod(common) implies call_ensures(
                    T::sub,
                    (self.broadcast_value(common, i), other.broadcast_value(common, i)),
                    #[trigger] t.values()[i],
                ) by {
                    assert(call_ensures(
                        f,
                        (self.broadcast_value(common, i), other.broadcast_value(common, i)),
                        t.values()[i],
                    ));
                }
            }
        }
        r
    }
}

impl<T: Copy + Mul<Output = T>> Tensor<T> {
    /// Elementwise multiplication. Both operands are broadcast to a common shape.
    /// Returns `Err(SizeMismatch)` if the shapes don't broadcast.
    pub fn mul(&self, other: &Self) -> (r: Result<Self, ShapeError>)
        requires
            self.wf(),
            other.wf(),
            broadcast_compatible(self.shape_view(), other.shape_view()) ==> shape_fits(
                broadcast_shape(self.shape_view(), other.shape_view()),
            ),
            broadcast_compatible(self.shape_view(), other.shape_view()) ==> self.all_pairs(
                other,
                |a: T, b: T| a.mul_req(b),
            ),
        ensures
            match r {
                Ok(t) => self.zip_result(other, T::mul, t),
                Err(e) => !broadcast_compatible(self.shape_view(), other.shape_view()) && e
                    == ShapeError::SizeMismatch,
            },
    {
        let f = |a: T, b: T| -> (c: T)
            requires
                a.mul_req(b),
            ensures
                call_ensures(T::mul, (a, b), c),
            { a * b };
        let r = self.zip_with(other, f);
        proof {
            if let Ok(t) = &r {
                let common = broadcast_shape(self.shape_view(), other.shape_view());
                assert forall|i: int| 0 <= i < prod(common) implies call_ensures(
                    T::mul,
                    (self.broadcast_value(common, i), other.broadcast_value(common, i)),
                    #[trigger] t.values()[i],
                ) by {
                    assert(call_ensures(
                        f,
                        (self.broadcast_value(common, i), other.broadcast_value(common, i)),
                        t.values()[i],
                    ));
                }
            }
        }
        r
    }
}

impl<T: Copy + Div<Output = T>> Tensor<T> {
    /// Elementwise division. Both operands are broadcast to a common shape.
    /// Returns `Err(SizeMismatch)` if the shapes don't broadcast.
    pub fn div(&self, other: &Self) -> (r: Result<Self, ShapeError>)
        requires
            self.wf(),
            other.wf(),
            broadcast_compatible(self.shape_view(), other.shape_view()) ==> shape_fits(
                broadcast_shape(self.shape_view(), other.shape_view()),
            ),
            broadcast_compatible(self.shape_view(), other.shape_view()) ==> self.all_pairs(
                other,
                |a: T, b: T| a.div_req(b),
            ),
        ensures
            match r {
                Ok(t) => self.zip_result(other, T::div, t),
                Err(e) => !broadcast_compatible(self.shape_view(), other.shape_view()) && e
                    == ShapeError::SizeMismatch,
            },
    {
        let f = |a: T, b: T| -> (c: T)
            requires
                a.div_req(b),
            ensures
                call_ensures(T::div, (a, b), c),
            { a / b };
        let r = self.zip_with(other, f);
        proof {
            if let Ok(t) = &r {
                let common = broadcast_shape(self.shape_view(), other.shape_view());
                assert forall|i: int| 0 <= i < prod(common) implies call_ensures(
                    T::div,
                    (self.broadcast_value(common, i), other.broadcast_value(common, i)),
                    #[trigger] t.values()[i],
                ) by {
                    assert(call_ensures(
                        f,
                        (self.broadcast_value(common, i), other.broadcast_value(common, i)),
                        t.values()[i],
                    ));
                }
            }
        }
        r
    }
}

impl<T: Copy + Neg<Output = T>> Tensor<T> {
    /// Negate every element. Single operand, so no shape can fail.
    pub fn neg(&self) -> (t: Self)
        requires
            self.wf(),
            forall|i: int| 0 <= i < self.values().len() ==> (#[trigger] self.values()[i]).neg_req(),
        ensures
            t.wf(),
            t.shape_view() == self.shape_view(),
            t.contiguous_layout(),
            t.values().len() == self.values().len(),
            forall|i: int|
                0 <= i < self.values().len() ==> call_ensures(
                    T::neg,
                    (self.values()[i],),
                    #[trigger] t.values()[i],
                ),
    {
        let f = |a: T| -> (c: T)
            requires
                a.neg_req(),
            ensures
                call_ensures(T::neg, (a,), c),
            { a.neg() };
        let t = self.map(f);
        assert forall|i: int| 0 <= i < self.values().len() implies call_ensures(
            T::neg,
            (self.values()[i],),
            #[trigger] t.values()[i],
        ) by {
            assert(call_ensures(f, (self.values()[i],), t.values()[i]));
        }
        t
    }
}

impl<T: Copy + PartialOrd + Default> Tensor<T> {
    /// ReLU: `max(x, 0)` per element, where a NaN gives 0. Single operand,
    /// so no shape can fail.
    pub fn relu(&self) -> (t: Self)
        requires
            self.wf(),
        ensures
            t.wf(),
            t.shape_view() == self.shape_view(),
            t.contiguous_layout(),
            t.values().len() == self.values().len(),
            exists|z: T|
                {
                    &&& call_ensures(T::default, (), z)
                    &&& forall|i: int|
                        0 <= i < self.values().len() ==> {
                            &&& (#[trigger] t.values()[i] == self.values()[i] || t.values()[i] == z)
                            &&& comparisons_specified::<T>() ==> t.values()[i]
                                == max_spec(self.values()[i], z)
                        }
                },
    {
        let zero = T::default();
        let f = |x: T| -> (r: T)
            ensures
                r == x || r == zero,
                comparisons_specified::<T>() ==> r == max_spec(x, zero),
            { scalar_max(x, zero) };
        let t = self.map(f);
        assert forall|i: int| 0 <= i < self.values().len() implies {
            &&& (#[trigger] t.values()[i] == self.values()[i] || t.values()[i] == zero)
            &&& comparisons_specified::<T>() ==> t.values()[i] == max_spec(
                self.values()[i],
                zero,
            )
        } by {
            assert(call_ensures(f, (self.values()[i],), t.values()[i]));
        }
        t
    }
}

/// Each of the two shapes broadcasts to their common shape.
pub proof fn lemma_broadcast_ok_both(a: Seq<usize>, b: Seq<usize>)
    requires
        broadcast_compatible(a, b),
    ensures
        broadcast_ok(a, broadcast_shape(a, b)),
        broadcast_ok(b, broadcast_shape(a, b)),
{
    let n = broadcast_rank(a, b);
    let c = broadcast_shape(a, b);
    assert forall|j: int| 0 <= j < a.len() implies #[trigger] a[j] == c[j + (n - a.len())] || a[j] == 1 by {
        let i = j + (n - a.len());
        assert(aligned_dim(a, n, i) == a[j]);
        assert(crate::shape::dims_compatible(aligned_dim(a, n, i), aligned_dim(b, n, i)));
    }
    assert forall|j: int| 0 <= j < b.len() implies #[trigger] b[j] == c[j + (n - b.len())] || b[j] == 1 by {
        let i = j + (n - b.len());
        assert(aligned_dim(b, n, i) == b[j]);
        assert(crate::shape::dims_compatible(aligned_dim(a, n, i), aligned_dim(b, n, i)));
    }
}

} // verus!
