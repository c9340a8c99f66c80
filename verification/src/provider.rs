//! Providers, and the handles that name what a provider produces.

use std::any::TypeId;
use std::marker::PhantomData;
use vstd::prelude::*;

use crate::context::Context;
use crate::type_key::type_id_of;

verus! {

/// A component that produces values on demand.
///
/// `V` is the type in which the graph's context stores produced values. The
/// `activate` and `deactivate` hooks are called when demand for the
/// provider's type goes from zero to one and back to zero.
pub trait Provider<V> {
    /// Called when demand for the type transitions from zero to one.
    fn activate(&mut self) {
    }

    /// Produce the value; `ctx` holds what was produced so far in this step.
    fn produce(&mut self, ctx: &Context<V>) -> V;

    /// Called when demand for the type drops to zero.
    fn deactivate(&mut self) {
    }
}

/// A typed handle identifying a registered provider node.
pub struct ProviderHandle<T: 'static> {
    type_id: TypeId,
    _phantom: PhantomData<T>,
}

impl<T: 'static> ProviderHandle<T> {
    /// The key this handle names.
    pub closed spec fn key(&self) -> TypeId {
        self.type_id
    }

    /// A handle for `T`.
    pub fn new() -> (r: Self) {
        ProviderHandle { type_id: type_id_of::<T>(), _phantom: PhantomData }
    }

    /// A handle naming `key`.
    pub(crate) fn from_key(key: TypeId) -> (r: Self)
        ensures
            r.key() == key,
    {
        ProviderHandle { type_id: key, _phantom: PhantomData }
    }

    /// Returns the `TypeId` of the type this handle produces.
    pub fn type_id(&self) -> (r: TypeId)
        ensures
            r == self.key(),
    {
        self.type_id
    }
}

/// Anything that names a provider to depend on.
pub trait DepHandle {
    /// The key named.
    spec fn dep_key(&self) -> TypeId;

    /// Returns the `TypeId` of the type this handle represents.
    fn type_id(&self) -> (r: TypeId)
        ensures
            r == self.dep_key(),
    ;
}

impl<T: 'static> DepHandle for ProviderHandle<T> {
    closed spec fn dep_key(&self) -> TypeId {
        self.type_id
    }

    fn type_id(&self) -> (r: TypeId) {
        self.type_id
    }
}

impl<T: DepHandle + ?Sized> DepHandle for &T {
    open spec fn dep_key(&self) -> TypeId {
        (**self).dep_key()
    }

    fn type_id(&self) -> (r: TypeId) {
        (**self).type_id()
    }
}

} // verus!
