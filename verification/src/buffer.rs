//! The shared element buffer behind every tensor.
//!
//! A buffer is a reference-counted `Vec` together with the identity of its
//! allocation, kept as a ghost value. Only the functions of this module make
//! buffers: a new allocation gets an identity that is left open (and that
//! differs from a named live buffer's), a second handle on an allocation
//! carries its identity along, and two handles compare equal in identity
//! exactly when they point at one allocation.
use std::rc::Rc;
use vstd::prelude::*;

verus! {

/// A handle on a shared, immutable `Vec<T>`.
pub struct Buffer<T> {
    rc: Rc<Vec<T>>,
    id: Ghost<int>,
}

impl<T> Buffer<T> {
    /// The elements of the allocation.
    pub closed spec fn contents(&self) -> Seq<T> {
        self.rc@
    }

    /// The identity of the allocation this handle points at.
    pub closed spec fn id(&self) -> int {
        self.id@
    }

    /// The elements, borrowed.
    pub fn as_slice(&self) -> (s: &[T])
        ensures
            s@ == self.contents(),
    {
        self.rc.as_slice()
    }

    /// The number of elements.
    pub fn len(&self) -> (n: usize)
        ensures
            n == self.contents().len(),
    {
        self.rc.len()
    }
}

/// A buffer in a new allocation that holds `v`.
///
/// Trusted: calls `Rc::new`, which moves `v` into an allocation of its own.
/// The contract claims that the buffer holds `v` and, when a live buffer
/// `apart_from` is named, that the new allocation is not that buffer's (a
/// live allocation is never handed out twice). Which identity the new
/// allocation has is otherwise left open.
#[verifier::external_body]
pub(crate) fn new_buffer<T>(v: Vec<T>, apart_from: Option<&Buffer<T>>) -> (b: Buffer<T>)
    ensures
        b.contents() == v@,
        apart_from matches Some(o) ==> b.id() != o.id(),
{
    Buffer { rc: Rc::new(v), id: Ghost(arbitrary()) }
}

/// A second handle on the allocation of `r`.
///
/// Trusted: calls `Rc::clone`, which returns a pointer to the same
/// allocation, so the handle reads the same elements and has the same
/// identity.
#[verifier::external_body]
pub(crate) fn share<T>(r: &Buffer<T>) -> (s: Buffer<T>)
    ensures
        s.contents() == r.contents(),
        s.id() == r.id(),
{
    Buffer { rc: Rc::clone(&r.rc), id: Ghost(r.id@) }
}

/// Whether two handles point at one allocation.
///
/// Trusted: calls `Rc::ptr_eq`, which compares the two allocations. The
/// contract claims the answer is whether the two identities are equal, and
/// that one allocation has one content.
#[verifier::external_body]
pub(crate) fn same_allocation<T>(a: &Buffer<T>, b: &Buffer<T>) -> (r: bool)
    ensures
        r == (a.id() == b.id()),
        r ==> a.contents() == b.contents(),
{
    Rc::ptr_eq(&a.rc, &b.rc)
}

} // verus!
