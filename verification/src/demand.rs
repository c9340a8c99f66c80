//! Demand handles.

use std::any::TypeId;
use std::marker::PhantomData;
use vstd::prelude::*;

verus! {

/// One demand reference to a type. Releasing it gives back the reference,
/// and with it, where it was the type's last, the references the type holds
/// on its dependencies.
pub struct ActivationToken {
    type_id: TypeId,
}

impl ActivationToken {
    /// The demanded type.
    pub closed spec fn root(&self) -> TypeId {
        self.type_id
    }

    pub(crate) fn new(type_id: TypeId) -> (r: Self)
        ensures
            r.root() == type_id,
    {
        ActivationToken { type_id }
    }

    /// The demanded type.
    pub fn type_id(&self) -> (r: TypeId)
        ensures
            r == self.root(),
    {
        self.type_id
    }
}

/// A handle representing active demand for a value of type `T`.
///
/// It is created by `PullGraph::want`, and its demand lasts until it is handed
/// back to `PullGraph::release`.
pub struct Demand<T: 'static> {
    token: ActivationToken,
    _phantom: PhantomData<T>,
}

impl<T: 'static> Demand<T> {
    /// What this demand acquired.
    pub closed spec fn token(&self) -> ActivationToken {
        self.token
    }

    pub fn new(token: ActivationToken) -> (r: Self)
        ensures
            r.token() == token,
    {
        Demand { token, _phantom: PhantomData }
    }

    /// What this demand acquired.
    pub fn activation(&self) -> (r: &ActivationToken)
        ensures
            *r == self.token(),
    {
        &self.token
    }

    /// Returns the `TypeId` of the type this demand is for.
    pub fn type_id(&self) -> (r: TypeId)
        ensures
            r == self.token().root(),
    {
        self.token.type_id()
    }
}

} // verus!
