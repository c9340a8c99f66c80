//! The central registry for demand-driven computation.

use std::any::TypeId;
use std::marker::PhantomData;
use vstd::prelude::*;

use crate::accounting::counts_fit;
use crate::activation::{activations, bump_all, deactivations, occ, unbump_all};
use crate::context::Context;
use crate::demand::Demand;
use crate::error::PullGraphError;
use crate::graph::{acyclic, has_cycle, reaches};
use crate::inner::{
    acquire_ok,
    acquisition,
    count,
    demanded,
    deps_map,
    no_cycle_through,
    registered_with,
    release_ok,
    release_sequence,
    Event,
    GraphView,
    PullGraphInner,
};
use crate::provider::{DepHandle, Provider, ProviderHandle};
use crate::type_key::type_id_of;

verus! {

/// The keys that a list of handles names, in order.
pub open spec fn dep_keys(deps: Seq<&dyn DepHandle>) -> Seq<TypeId> {
    deps.map_values(|d: &dyn DepHandle| d.dep_key())
}

/// The first of `ks` that `k` reaches in `m`, with none before it, as the pair
/// that a cycle error reports.
pub open spec fn first_cycle(m: Map<TypeId, Seq<TypeId>>, k: TypeId, ks: Seq<TypeId>, v: Seq<TypeId>) -> bool {
    exists|i: int|
        0 <= i < ks.len() && v == seq![k, ks[i]] && reaches(m, k, #[trigger] ks[i]) && forall|j: int|
            0 <= j < i ==> !reaches(m, k, #[trigger] ks[j])
}

/// What registering `k` with dependencies `ks` returns and leaves, for the
/// result `r` (the handle's key for success).
pub open spec fn registration_result(
    old: GraphView,
    new: GraphView,
    k: TypeId,
    ks: Seq<TypeId>,
    r: Result<TypeId, PullGraphError>,
) -> bool {
    match r {
        Ok(key) => {
            &&& key == k
            &&& no_cycle_through(old, k, ks)
            &&& !old.providers.contains_key(k)
            &&& new == registered_with(old, k, ks)
        },
        Err(PullGraphError::AlreadyRegistered(key)) => {
            &&& key == k
            &&& no_cycle_through(old, k, ks)
            &&& old.providers.contains_key(k)
            &&& new == old
        },
        Err(PullGraphError::DependencyCycle(v)) => {
            &&& first_cycle(old.dependents, k, ks, v@)
            &&& new == old
        },
        Err(PullGraphError::NoProvider(_)) => false,
    }
}

/// The central registry for demand-driven computation.
///
/// `P` is the type of the registered providers and `V` the type of the values
/// they produce. Register providers with `provide`, `provide_with_deps` or
/// `derive`; create demand with `want`; produce with a `Context`.
pub struct PullGraph<P, V> {
    pub(crate) inner: PullGraphInner<P>,
    pub(crate) _values: PhantomData<V>,
}

impl<P, V> View for PullGraph<P, V> {
    type V = GraphView;

    closed spec fn view(&self) -> GraphView {
        self.inner@
    }
}

impl<P: Provider<V>, V> PullGraph<P, V> {
    /// The graph's invariant: its registry's, and an acyclic dependency
    /// graph, which every registration keeps by checking for cycles first.
    pub closed spec fn wf(&self) -> bool {
        &&& self.inner.wf()
        &&& acyclic(deps_map(self@.providers))
    }

    /// The calls of provider hooks made so far, in order.
    pub closed spec fn events(&self) -> Seq<Event> {
        self.inner.events()
    }

    /// The registry.
    pub closed spec fn registry(&self) -> PullGraphInner<P> {
        self.inner
    }

    /// The graph's values are its registry's.
    pub proof fn lemma_registry(&self)
        ensures
            self.wf() == (self.registry().wf() && acyclic(deps_map(self@.providers))),
            self@ == self.registry()@,
            self.events() == self.registry().events(),
    {
    }

    pub(crate) proof fn lemma_registry_field(&self)
        ensures
            self.registry() == self.inner,
    {
    }

    /// Create a new, empty demand graph.
    pub fn new() -> (r: Self)
        ensures
            r.wf(),
            r@.providers == Map::<TypeId, crate::inner::EntryView>::empty(),
            r@.dependents == Map::<TypeId, Seq<TypeId>>::empty(),
            r.events() == Seq::<Event>::empty(),
    {
        PullGraph { inner: PullGraphInner::new(), _values: PhantomData }
    }

    /// The keys named by `deps`, in order.
    fn collect_keys(deps: &[&dyn DepHandle]) -> (r: Vec<TypeId>)
        ensures
            r@ == dep_keys(deps@),
    {
        let mut keys: Vec<TypeId> = Vec::new();
        let mut i: usize = 0;
        while i < deps.len()
            invariant
                i <= deps@.len(),
                keys@ == dep_keys(deps@).subrange(0, i as int),
            decreases deps@.len() - i,
        {
            let key = deps[i].type_id();
            keys.push(key);
            i = i + 1;
            assert(keys@ =~= dep_keys(deps@).subrange(0, i as int));
        }
        assert(keys@ =~= dep_keys(deps@));
        keys
    }

    /// Checks that making `type_id` depend on each of `dep_ids` closes no
    /// cycle; reports the first pair that would.
    fn check_cycles(&self, type_id: TypeId, dep_ids: &Vec<TypeId>) -> (r: Result<(), PullGraphError>)
        requires
            self.wf(),
        ensures
            match r {
                Ok(()) => no_cycle_through(self@, type_id, dep_ids@),
                Err(PullGraphError::DependencyCycle(v)) => first_cycle(
                    self@.dependents,
                    type_id,
                    dep_ids@,
                    v@,
                ),
                Err(_) => false,
            },
    {
        let mut i: usize = 0;
        while i < dep_ids.len()
            invariant
                self.wf(),
                i <= dep_ids@.len(),
                forall|j: int| 0 <= j < i ==> !reaches(self@.dependents, type_id, #[trigger] dep_ids@[j]),
            decreases dep_ids@.len() - i,
        {
            let dep_id = dep_ids[i];
            if has_cycle(self.inner.dependents(), type_id, dep_id) {
                let mut pair: Vec<TypeId> = Vec::new();
                pair.push(type_id);
                pair.push(dep_id);
                assert(pair@ =~= seq![type_id, dep_ids@[i as int]]);
                return Err(PullGraphError::DependencyCycle(pair));
            }
            i = i + 1;
        }
        Ok(())
    }

    /// Register a provider for type `T` with no dependencies.
    ///
    /// Returns a handle that can be used to declare dependencies in later
    /// registrations, or `AlreadyRegistered` if `T` has a provider.
    pub fn provide<T: 'static>(&mut self, provider: P) -> (r: Result<ProviderHandle<T>, PullGraphError>)
        requires
            old(self).wf(),
        ensures
            final(self).wf(),
            final(self).events() == old(self).events(),
            exists|k: TypeId|
                #[trigger] registration_result(
                    old(self)@,
                    final(self)@,
                    k,
                    Seq::empty(),
                    handle_key(r),
                ) && providers_after(old(self).registry(), final(self).registry(), k, provider, r is Ok),
    {
        let type_id = type_id_of::<T>();
        let no_deps: Vec<TypeId> = Vec::new();
        assert(no_cycle_through(self@, type_id, no_deps@));
        let r = self.inner.register_provider(type_id, provider, no_deps);
        match r {
            Ok(()) => {
                let h = ProviderHandle::from_key(type_id);
                assert(registration_result(old(self)@, self@, type_id, Seq::empty(), handle_key(Ok(h))));
                Ok(h)
            },
            Err(e) => {
                assert(registration_result(old(self)@, self@, type_id, Seq::empty(), handle_key::<T>(Err(e))));
                Err(e)
            },
        }
    }

    /// Registers `provider` for the key `type_id` with the dependencies
    /// `dependencies`, after checking for cycles: if `type_id` reaches one of
    /// them through the registered dependents, nothing is registered and the
    /// first such pair is reported; if `type_id` is registered already, the
    /// registry, its first provider included, is left as it was.
    pub fn register_key(&mut self, type_id: TypeId, dependencies: Vec<TypeId>, provider: P) -> (r: Result<(), PullGraphError>)
        requires
            old(self).wf(),
        ensures
            final(self).wf(),
            final(self).events() == old(self).events(),
            registration_result(old(self)@, final(self)@, type_id, dependencies@, unit_key(r, type_id)),
            providers_after(old(self).registry(), final(self).registry(), type_id, provider, r is Ok),
    {
        match self.check_cycles(type_id, &dependencies) {
            Ok(()) => {},
            Err(e) => {
                assert(registration_result(old(self)@, self@, type_id, dependencies@, unit_key(Err(e), type_id)));
                return Err(e);
            },
        }
        let ghost deps = dependencies@;
        let r = self.inner.register_provider(type_id, provider, dependencies);
        assert(registration_result(old(self)@, self@, type_id, deps, unit_key(r, type_id)));
        r
    }

    /// Registers `provider` for the key of `T` with the dependencies `deps`,
    /// after checking for cycles.
    fn register_with_deps<T: 'static>(&mut self, deps: &[&dyn DepHandle], provider: P) -> (r: Result<ProviderHandle<T>, PullGraphError>)
        requires
            old(self).wf(),
        ensures
            final(self).wf(),
            final(self).events() == old(self).events(),
            exists|k: TypeId|
                #[trigger] registration_result(
                    old(self)@,
                    final(self)@,
                    k,
                    dep_keys(deps@),
                    handle_key(r),
                ) && providers_after(old(self).registry(), final(self).registry(), k, provider, r is Ok),
    {
        let dep_type_ids = Self::collect_keys(deps);
        let type_id = type_id_of::<T>();
        match self.register_key(type_id, dep_type_ids, provider) {
            Ok(()) => {
                let h = ProviderHandle::from_key(type_id);
                assert(handle_key(Ok::<ProviderHandle<T>, PullGraphError>(h)) == unit_key(Ok(()), type_id));
                Ok(h)
            },
            Err(e) => {
                assert(handle_key::<T>(Err(e)) == unit_key(Err(e), type_id));
                Err(e)
            },
        }
    }

    /// Register a provider for type `T` with explicit dependencies.
    ///
    /// Dependencies are checked for cycles first: if `T` reaches one of them
    /// through the registered dependents, nothing is registered and the first
    /// such pair is reported.
    pub fn provide_with_deps<T: 'static>(&mut self, deps: &[&dyn DepHandle], provider: P) -> (r: Result<ProviderHandle<T>, PullGraphError>)
        requires
            old(self).wf(),
        ensures
            final(self).wf(),
            final(self).events() == old(self).events(),
            exists|k: TypeId|
                #[trigger] registration_result(
                    old(self)@,
                    final(self)@,
                    k,
                    dep_keys(deps@),
                    handle_key(r),
                ) && providers_after(old(self).registry(), final(self).registry(), k, provider, r is Ok),
    {
        self.register_with_deps(deps, provider)
    }

    /// Register a derived provider: a value produced by transforming
    /// dependencies. Registers as `provide_with_deps` does.
    pub fn derive<T: 'static>(&mut self, deps: &[&dyn DepHandle], transform: P) -> (r: Result<ProviderHandle<T>, PullGraphError>)
        requires
            old(self).wf(),
        ensures
            final(self).wf(),
            final(self).events() == old(self).events(),
            exists|k: TypeId|
                #[trigger] registration_result(
                    old(self)@,
                    final(self)@,
                    k,
                    dep_keys(deps@),
                    handle_key(r),
                ) && providers_after(old(self).registry(), final(self).registry(), k, transform, r is Ok),
    {
        self.register_with_deps(deps, transform)
    }

    /// Create demand for a value of type `T`.
    ///
    /// Returns a handle whose demand lasts until it is released, after
    /// activating `T`'s provider and, transitively, its dependencies where
    /// they had no demand; or `NoProvider` if `T` has no provider. Where
    /// demanding `T` would reach a dependency without a provider, nothing
    /// changes and `NoProvider` names that dependency. It asks only that no
    /// demand count can pass `usize::MAX`.
    pub fn want<T: 'static>(&mut self) -> (r: Result<Demand<T>, PullGraphError>)
        requires
            old(self).wf(),
            counts_fit(old(self)@.providers),
        ensures
            final(self).wf(),
            match r {
                Ok(d) => {
                    let k = d.token().root();
                    &&& old(self)@.providers.contains_key(k)
                    &&& acquire_ok(old(self)@, k)
                    &&& final(self)@ == (GraphView {
                        providers: bump_all(old(self)@.providers, acquisition(old(self)@, k)),
                        dependents: old(self)@.dependents,
                    })
                    &&& final(self).events() == old(self).events() + activations(
                        old(self)@.providers,
                        acquisition(old(self)@, k),
                    )
                    &&& old(self)@.providers[k].demand_count > 0 ==> final(self).events() == old(
                        self,
                    ).events()
                },
                Err(PullGraphError::NoProvider(m)) => {
                    &&& !old(self)@.providers.contains_key(m)
                    &&& final(self)@ == old(self)@
                    &&& final(self).events() == old(self).events()
                },
                Err(_) => false,
            },
    {
        let type_id = type_id_of::<T>();
        if !self.inner.contains(type_id) {
            return Err(PullGraphError::NoProvider(type_id));
        }
        match self.inner.missing_dependency(type_id) {
            Some(m) => {
                return Err(PullGraphError::NoProvider(m));
            },
            None => {},
        }
        proof {
            let p = self@.providers;
            let f = crate::activation::zero_set(p).len();
            self.inner.lemma_registry_ok();
            assert forall|x: TypeId| #[trigger] p.contains_key(x) implies p[x].demand_count + occ(
                acquisition(self@, type_id),
                x,
            ) <= usize::MAX by {
                crate::accounting::lemma_acquired_occ_bound(p, type_id, f, x);
                crate::activation::lemma_occ_single(type_id, x);
            }
        }
        let token = self.inner.acquire_activation(type_id);
        proof {
            crate::activation::lemma_deps_map_bump_all(old(self)@.providers, acquisition(old(self)@, type_id));
        }
        Ok(Demand::new(token))
    }

    /// Create demand for a value of type `T` where that is possible.
    ///
    /// This form asks nothing of the counts and checks the type at hand
    /// first. It returns `None`, changing nothing, where `T` is registered but
    /// demanding it would reach an unregistered dependency or overflow a
    /// demand count; otherwise what `want` returns.
    pub fn try_want<T: 'static>(&mut self) -> (r: Option<Result<Demand<T>, PullGraphError>>)
        requires
            old(self).wf(),
        ensures
            final(self).wf(),
            match r {
                None => {
                    &&& exists|k: TypeId|
                        #[trigger] old(self)@.providers.contains_key(k) && !acquire_ok(
                            old(self)@,
                            k,
                        )
                    &&& final(self)@ == old(self)@
                    &&& final(self).events() == old(self).events()
                },
                Some(Ok(d)) => {
                    let k = d.token().root();
                    &&& old(self)@.providers.contains_key(k)
                    &&& acquire_ok(old(self)@, k)
                    &&& final(self)@ == (GraphView {
                        providers: bump_all(old(self)@.providers, acquisition(old(self)@, k)),
                        dependents: old(self)@.dependents,
                    })
                    &&& final(self).events() == old(self).events() + activations(
                        old(self)@.providers,
                        acquisition(old(self)@, k),
                    )
                    &&& old(self)@.providers[k].demand_count > 0 ==> final(self).events() == old(
                        self,
                    ).events()
                },
                Some(Err(PullGraphError::NoProvider(k))) => {
                    &&& !old(self)@.providers.contains_key(k)
                    &&& final(self)@ == old(self)@
                    &&& final(self).events() == old(self).events()
                },
                Some(Err(_)) => false,
            },
    {
        let type_id = type_id_of::<T>();
        if !self.inner.contains(type_id) {
            return Some(Err(PullGraphError::NoProvider(type_id)));
        }
        if !self.inner.can_acquire(type_id) {
            assert(self@.providers.contains_key(type_id) && !acquire_ok(self@, type_id));
            return None;
        }
        let token = self.inner.acquire_activation(type_id);
        proof {
            crate::activation::lemma_deps_map_bump_all(old(self)@.providers, acquisition(old(self)@, type_id));
        }
        Some(Ok(Demand::new(token)))
    }

    /// Adds, for an existing demand, one more independent demand reference
    /// for the same type.
    pub fn clone_demand<T: 'static>(&mut self, demand: &Demand<T>) -> (r: Demand<T>)
        requires
            old(self).wf(),
            acquire_ok(old(self)@, demand.token().root()),
        ensures
            final(self).wf(),
            r.token().root() == demand.token().root(),
            final(self)@ == (GraphView {
                providers: bump_all(
                    old(self)@.providers,
                    acquisition(old(self)@, demand.token().root()),
                ),
                dependents: old(self)@.dependents,
            }),
            final(self).events() == old(self).events() + activations(
                old(self)@.providers,
                acquisition(old(self)@, demand.token().root()),
            ),
            old(self)@.providers[demand.token().root()].demand_count > 0 ==> final(self).events()
                == old(self).events(),
    {
        let token = self.inner.acquire_activation(demand.type_id());
        proof {
            crate::activation::lemma_deps_map_bump_all(
                old(self)@.providers,
                acquisition(old(self)@, demand.token().root()),
            );
        }
        Demand::new(token)
    }

    /// Releases a demand: drops its reference to its type and, where that
    /// was the type's last, deactivates it and releases its dependencies in
    /// turn.
    pub fn release<T: 'static>(&mut self, demand: Demand<T>)
        requires
            old(self).wf(),
            release_ok(old(self)@, demand.token().root()),
        ensures
            final(self).wf(),
            final(self)@ == (GraphView {
                providers: unbump_all(
                    old(self)@.providers,
                    release_sequence(old(self)@, demand.token().root()),
                ),
                dependents: old(self)@.dependents,
            }),
            final(self).events() == old(self).events() + deactivations(
                old(self)@.providers,
                release_sequence(old(self)@, demand.token().root()),
            ),
            old(self)@.providers[demand.token().root()].demand_count >= 2 ==> final(self).events()
                == old(self).events(),
    {
        proof {
            self.inner.lemma_registry_ok();
        }
        self.inner.release_activation(demand.type_id());
        proof {
            crate::inner::lemma_registry_ok_unbump_all(
                old(self)@,
                release_sequence(old(self)@, demand.token().root()),
            );
        }
    }

    /// Returns `true` if at least one active demand exists for type `T`.
    pub fn is_demanded<T: 'static>(&self) -> (r: bool)
        requires
            self.wf(),
        ensures
            exists|k: TypeId| r == #[trigger] demanded(self@.providers, k),
    {
        let type_id = type_id_of::<T>();
        let r = self.inner.is_demanded(type_id);
        assert(r == demanded(self@.providers, type_id));
        r
    }

    /// Returns the number of active demand references for type `T`.
    pub fn demand_count<T: 'static>(&self) -> (r: usize)
        requires
            self.wf(),
        ensures
            exists|k: TypeId| r == #[trigger] count(self@.providers, k),
    {
        let type_id = type_id_of::<T>();
        let r = self.inner.demand_count(type_id);
        assert(r == count(self@.providers, type_id));
        r
    }

    /// Create a `Context` for one execution step.
    pub fn context(&self) -> (r: Context<V>)
        ensures
            r.wf(),
            r.produced() == Map::<TypeId, V>::empty(),
            r.producing() == Seq::<TypeId>::empty(),
            r.returned() == Seq::<(TypeId, V)>::empty(),
            r.runs_once(),
    {
        Context::new()
    }

    /// The registry behind the graph.
    pub fn inner(&self) -> (r: &PullGraphInner<P>)
        ensures
            *r == self.registry(),
    {
        &self.inner
    }

    /// The registry behind the graph, for changes made directly to it.
    pub fn inner_mut(&mut self) -> (r: &mut PullGraphInner<P>)
        ensures
            *r == old(self).registry(),
            final(self).registry() == *final(r),
    {
        &mut self.inner
    }
}

/// The key a registration result names: the handle's on success, the error's
/// otherwise.
pub open spec fn handle_key<T: 'static>(r: Result<ProviderHandle<T>, PullGraphError>) -> Result<TypeId, PullGraphError> {
    match r {
        Ok(h) => Ok(h.key()),
        Err(e) => Err(e),
    }
}

/// The key a keyed registration result names: `k` on success, the error's
/// otherwise.
pub open spec fn unit_key(r: Result<(), PullGraphError>, k: TypeId) -> Result<TypeId, PullGraphError> {
    match r {
        Ok(()) => Ok(k),
        Err(e) => Err(e),
    }
}

/// The providers in place after registering `provider` for `k`: on success
/// `provider` for `k` and the rest as they were; on failure all as they were,
/// so that a refused registration keeps the first provider.
pub open spec fn providers_after<P>(
    old: PullGraphInner<P>,
    new: PullGraphInner<P>,
    k: TypeId,
    provider: P,
    ok: bool,
) -> bool {
    &&& ok ==> new.provider_of(k) == Some(provider)
    &&& forall|x: TypeId| (x != k || !ok) ==> #[trigger] new.provider_of(x) == old.provider_of(x)
}

impl<P: Provider<V>, V> Default for PullGraph<P, V> {
    fn default() -> (r: Self)
        ensures
            r.wf(),
            r@.providers == Map::<TypeId, crate::inner::EntryView>::empty(),
            r@.dependents == Map::<TypeId, Seq<TypeId>>::empty(),
            r.events() == Seq::<Event>::empty(),
    {
        Self::new()
    }
}

} // verus!
