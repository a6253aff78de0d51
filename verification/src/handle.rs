//! Handles: a unique index together with a count of the copies in use.

use std::marker::PhantomData;
use std::sync::Arc;
use vstd::prelude::*;

verus! {

/// The index of a resource of kind `T`, without any claim on its lifetime.
#[derive(Debug)]
pub struct RawResourceHandle<T> {
    pub idx: usize,
    pub _phantom: PhantomData<T>,
}

impl<T> RawResourceHandle<T> {
    /// The raw handle for `idx`.
    pub fn new(idx: usize) -> (raw: Self)
        ensures
            raw.idx == idx,
    {
        RawResourceHandle { idx, _phantom: PhantomData }
    }
}

impl<T> Clone for RawResourceHandle<T> {
    fn clone(&self) -> (raw: Self)
        ensures
            raw.idx == self.idx,
    {
        RawResourceHandle { idx: self.idx, _phantom: PhantomData }
    }
}

impl<T> Copy for RawResourceHandle<T> {}

/// A counted reference to a resource of kind `T`. The resource stays alive
/// while any copy of its handle exists outside the registry that holds it.
#[derive(Debug)]
pub struct ResourceHandle<T> {
    refcount: Arc<()>,
    idx: usize,
    _phantom: PhantomData<T>,
}

/// How many copies of a count are in use at this moment, the caller's
/// included. Calls `Arc::strong_count`; the answer depends on what the rest
/// of the program holds, so nothing is promised of it.
#[verifier::external_body]
fn copies_in_use(refcount: &Arc<()>) -> (copies: usize) {
    Arc::strong_count(refcount)
}

/// The share of a handle's count that a registry keeps beside the resource.
pub struct RefCount {
    count: Arc<()>,
}

impl RefCount {
    /// Whether no copy of the handle is left besides this share, as read
    /// at this moment: what `leaves_none_outside` says of the count.
    pub fn is_last(&self) -> (last: bool) {
        leaves_none_outside(copies_in_use(&self.count))
    }
}

impl<T> ResourceHandle<T> {
    /// The index this handle was issued with.
    pub closed spec fn index(&self) -> usize {
        self.idx
    }

    /// A fresh handle for `idx`, the first copy of its count.
    pub fn new(idx: usize) -> (handle: Self)
        ensures
            handle.index() == idx,
    {
        ResourceHandle { refcount: Arc::new(()), idx, _phantom: PhantomData }
    }

    /// A share of this handle's count, for the registry entry.
    pub fn get_refcount(&self) -> (share: RefCount) {
        RefCount { count: self.refcount.clone() }
    }

    /// The bare index, which keeps nothing alive.
    pub fn get_raw(&self) -> (raw: RawResourceHandle<T>)
        ensures
            raw.idx == self.index(),
    {
        RawResourceHandle::new(self.idx)
    }
}

impl<T> Clone for ResourceHandle<T> {
    fn clone(&self) -> (handle: Self)
        ensures
            handle.index() == self.index(),
    {
        ResourceHandle { refcount: self.refcount.clone(), idx: self.idx, _phantom: PhantomData }
    }
}

/// Whether a count of `copies`, the registry's share among them, leaves no
/// copy to a holder outside the registry.
pub fn leaves_none_outside(copies: usize) -> (none: bool)
    ensures
        none == (copies <= 1),
{
    copies <= 1
}

} // verus!
