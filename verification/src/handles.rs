//! Typed and untyped handles to the nodes and resources of a render graph.
//!
//! A typed handle remembers, in its type parameter, what kind of node or
//! resource it points to; the untyped form forgets that and keeps only the
//! generational handle into the graph's storage.
use std::marker::PhantomData;
use vstd::prelude::*;

use crate::gen_map::Handle;
use crate::render_graph::{NodeEntry, ResourceEntry};

verus! {

/// A handle to a node of kind `N`.
pub struct NodeHandle<N> {
    node: PhantomData<N>,
    inner: Handle<NodeEntry>,
}

impl<N> View for NodeHandle<N> {
    type V = u64;

    closed spec fn view(&self) -> u64 {
        self.inner@
    }
}

impl<N> NodeHandle<N> {
    pub fn new(inner: Handle<NodeEntry>) -> (r: Self)
        ensures
            r@ == inner@,
    {
        NodeHandle { node: PhantomData, inner }
    }

    /// The same handle with its node kind forgotten.
    pub fn to_untyped(&self) -> (r: UntypedNodeHandle)
        ensures
            r@ == self@,
    {
        UntypedNodeHandle(self.inner)
    }
}

impl<N> Clone for NodeHandle<N> {
    fn clone(&self) -> (r: Self)
        ensures
            r@ == self@,
    {
        NodeHandle { node: PhantomData, inner: self.inner }
    }
}

impl<N> Copy for NodeHandle<N> {}

impl<N> PartialEq for NodeHandle<N> {
    fn eq(&self, other: &Self) -> (r: bool) {
        self.inner.eq(&other.inner)
    }
}

impl<N> vstd::std_specs::cmp::PartialEqSpecImpl for NodeHandle<N> {
    open spec fn obeys_eq_spec() -> bool {
        true
    }

    open spec fn eq_spec(&self, other: &Self) -> bool {
        self@ == other@
    }
}

impl<N> Eq for NodeHandle<N> {}

/// A handle to a node of any kind.
#[derive(Debug)]
pub struct UntypedNodeHandle(Handle<NodeEntry>);

impl View for UntypedNodeHandle {
    type V = u64;

    closed spec fn view(&self) -> u64 {
        self.0@
    }
}

impl UntypedNodeHandle {
    pub fn new(inner: Handle<NodeEntry>) -> (r: Self)
        ensures
            r@ == inner@,
    {
        UntypedNodeHandle(inner)
    }

    pub fn handle(&self) -> (r: Handle<NodeEntry>)
        ensures
            r@ == self@,
    {
        self.0
    }
}

impl Clone for UntypedNodeHandle {
    fn clone(&self) -> (r: Self)
        ensures
            r@ == self@,
    {
        UntypedNodeHandle(self.0)
    }
}

impl Copy for UntypedNodeHandle {}

impl PartialEq for UntypedNodeHandle {
    fn eq(&self, other: &Self) -> (r: bool) {
        self.0.eq(&other.0)
    }
}

impl vstd::std_specs::cmp::PartialEqSpecImpl for UntypedNodeHandle {
    open spec fn obeys_eq_spec() -> bool {
        true
    }

    open spec fn eq_spec(&self, other: &Self) -> bool {
        self@ == other@
    }
}

impl Eq for UntypedNodeHandle {}

/// A handle to a resource of kind `R`.
pub struct ResourceHandle<R> {
    resource: PhantomData<R>,
    inner: Handle<ResourceEntry>,
}

impl<R> View for ResourceHandle<R> {
    type V = u64;

    closed spec fn view(&self) -> u64 {
        self.inner@
    }
}

impl<R> ResourceHandle<R> {
    pub fn new(inner: Handle<ResourceEntry>) -> (r: Self)
        ensures
            r@ == inner@,
    {
        ResourceHandle { resource: PhantomData, inner }
    }

    /// The same handle with its resource kind forgotten.
    pub fn to_untyped(&self) -> (r: UntypedResourceHandle)
        ensures
            r@ == self@,
    {
        UntypedResourceHandle(self.inner)
    }
}

impl<R> Clone for ResourceHandle<R> {
    fn clone(&self) -> (r: Self)
        ensures
            r@ == self@,
    {
        ResourceHandle { resource: PhantomData, inner: self.inner }
    }
}

impl<R> Copy for ResourceHandle<R> {}

impl<R> PartialEq for ResourceHandle<R> {
    fn eq(&self, other: &Self) -> (r: bool) {
        self.inner.eq(&other.inner)
    }
}

impl<R> vstd::std_specs::cmp::PartialEqSpecImpl for ResourceHandle<R> {
    open spec fn obeys_eq_spec() -> bool {
        true
    }

    open spec fn eq_spec(&self, other: &Self) -> bool {
        self@ == other@
    }
}

impl<R> Eq for ResourceHandle<R> {}

/// A handle to a resource of any kind.
#[derive(Debug)]
pub struct UntypedResourceHandle(Handle<ResourceEntry>);

impl View for UntypedResourceHandle {
    type V = u64;

    closed spec fn view(&self) -> u64 {
        self.0@
    }
}

impl UntypedResourceHandle {
    pub fn new(inner: Handle<ResourceEntry>) -> (r: Self)
        ensures
            r@ == inner@,
    {
        UntypedResourceHandle(inner)
    }

    pub fn handle(&self) -> (r: Handle<ResourceEntry>)
        ensures
            r@ == self@,
    {
        self.0
    }
}

impl Clone for UntypedResourceHandle {
    fn clone(&self) -> (r: Self)
        ensures
            r@ == self@,
    {
        UntypedResourceHandle(self.0)
    }
}

impl Copy for UntypedResourceHandle {}

impl PartialEq for UntypedResourceHandle {
    fn eq(&self, other: &Self) -> (r: bool) {
        self.0.eq(&other.0)
    }
}

impl vstd::std_specs::cmp::PartialEqSpecImpl for UntypedResourceHandle {
    open spec fn obeys_eq_spec() -> bool {
        true
    }

    open spec fn eq_spec(&self, other: &Self) -> bool {
        self@ == other@
    }
}

impl Eq for UntypedResourceHandle {}

} // verus!
