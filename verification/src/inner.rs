//! The registry behind a pull graph: one entry per registered type, with its
//! demand count, activity flag, dependencies and provider, and the reverse
//! dependency map used for cycle checks.

use std::any::TypeId;
use vstd::prelude::*;

use crate::activation::{
    acquire_fits,
    acquired,
    acquired_all,
    activations,
    bump,
    bump_all,
    deactivation_event,
    deactivations,
    lemma_acquired_all_step,
    lemma_activations_concat,
    lemma_bump_all,
    lemma_bump_all_concat,
    lemma_occ_bounds,
    lemma_occ_concat,
    lemma_occ_single,
    lemma_deactivations_concat,
    lemma_live_set_unbump,
    lemma_live_set_unbump_all,
    lemma_release_fits_split,
    lemma_released_all_step,
    lemma_released_nonempty,
    lemma_single,
    lemma_unbump_all,
    lemma_unbump_all_concat,
    lemma_unbump_all_le,
    live_set,
    lemma_zero_set_bump,
    lemma_zero_set_bump_all,
    occ,
    occurrences,
    release_fits,
    released,
    released_all,
    unbump,
    unbump_all,
    zero_set,
};
use crate::context::Context;
use crate::demand::ActivationToken;
use crate::error::PullGraphError;
use crate::graph::{
    acyclic,
    edge,
    reaches,
    Dependents,
};
use crate::keyed::{
    keyed_map,
    keys_distinct,
    lemma_keyed_finite,
    lemma_keyed_index,
    lemma_keyed_lookup,
    lemma_keyed_push,
    lemma_keyed_remove,
    lemma_keyed_update,
    Keyed,
};
use crate::provider::Provider;
use crate::type_key::same_type;

verus! {

broadcast use vstd::set::group_set_axioms, vstd::seq::group_seq_axioms, vstd::map::group_map_axioms;

/// What the registry holds for one type, as values.
pub struct EntryView {
    /// Number of live demand references.
    pub demand_count: nat,
    /// Whether the provider is switched on.
    pub active: bool,
    /// The types this provider reads, in registration order.
    pub dependencies: Seq<TypeId>,
    /// Whether the provider itself is in place (it is out while it runs).
    pub has_provider: bool,
}

/// A call of a provider's hook, as recorded in the registry's history.
pub enum Event {
    /// `activate` was called on the provider of the type.
    Activated(TypeId),
    /// `deactivate` was called on the provider of the type.
    Deactivated(TypeId),
    /// `produce` was called on the provider of the type.
    Produced(TypeId),
}

/// The registry as values: entries by type, and the reverse dependency map.
pub struct GraphView {
    pub providers: Map<TypeId, EntryView>,
    pub dependents: Map<TypeId, Seq<TypeId>>,
}

/// The registry's entry for one type.
pub struct ProviderEntry<P> {
    type_id: TypeId,
    provider: Option<P>,
    demand_count: usize,
    active: bool,
    dependencies: Vec<TypeId>,
}

impl<P> Keyed for ProviderEntry<P> {
    type Val = EntryView;

    closed spec fn key(&self) -> TypeId {
        self.type_id
    }

    closed spec fn val(&self) -> EntryView {
        EntryView {
            demand_count: self.demand_count as nat,
            active: self.active,
            dependencies: self.dependencies@,
            has_provider: self.provider is Some,
        }
    }
}

/// The registry behind a pull graph.
pub struct PullGraphInner<P> {
    pub(crate) providers: Vec<ProviderEntry<P>>,
    pub(crate) dependents: Dependents,
    pub(crate) events: Ghost<Seq<Event>>,
}

/// The dependency lists of the registered types, as a map.
pub open spec fn deps_map(p: Map<TypeId, EntryView>) -> Map<TypeId, Seq<TypeId>> {
    p.map_values(|e: EntryView| e.dependencies)
}

/// The demand count of `k`, zero for an unregistered type.
pub open spec fn count(p: Map<TypeId, EntryView>, k: TypeId) -> nat {
    if p.contains_key(k) {
        p[k].demand_count
    } else {
        0
    }
}

/// `k` is registered and has live demand.
pub open spec fn demanded(p: Map<TypeId, EntryView>, k: TypeId) -> bool {
    p.contains_key(k) && p[k].demand_count > 0
}

/// A type is active exactly while it has demand.
pub open spec fn active_matches(p: Map<TypeId, EntryView>) -> bool {
    forall|k: TypeId| #[trigger]
        p.contains_key(k) ==> (p[k].active <==> p[k].demand_count > 0)
}

/// Every dependency edge `a -> b` of a registered type is listed in the
/// reverse map (`a` under `b`).
pub open spec fn covered(g: GraphView) -> bool {
    forall|a: TypeId, b: TypeId| #[trigger]
        edge(deps_map(g.providers), a, b) ==> edge(g.dependents, b, a)
}

/// The invariant of the registry's values: activity matches demand, every
/// dependency edge is in the reverse map, and finitely many types are
/// registered.
pub open spec fn registry_ok(g: GraphView) -> bool {
    &&& active_matches(g.providers)
    &&& covered(g)
    &&& g.providers.dom().finite()
}

/// The registry's invariant with an acyclic dependency graph, as the graph
/// keeps it by checking every registration for cycles.
pub open spec fn graph_ok(g: GraphView) -> bool {
    &&& registry_ok(g)
    &&& acyclic(deps_map(g.providers))
}

/// Registering `k` with `deps` would close no cycle: none of `deps` is
/// reached from `k` in the reverse dependency map.
pub open spec fn no_cycle_through(g: GraphView, k: TypeId, deps: Seq<TypeId>) -> bool {
    forall|i: int| 0 <= i < deps.len() ==> !reaches(g.dependents, k, #[trigger] deps[i])
}

/// `e` with its provider in place or out.
pub open spec fn with_provider(e: EntryView, present: bool) -> EntryView {
    EntryView {
        demand_count: e.demand_count,
        active: e.active,
        dependencies: e.dependencies,
        has_provider: present,
    }
}

/// The fresh entry of a newly registered provider.
pub open spec fn fresh_entry(deps: Seq<TypeId>) -> EntryView {
    EntryView { demand_count: 0, active: false, dependencies: deps, has_provider: true }
}

/// The list held under `k`, empty if none.
pub open spec fn list_of(m: Map<TypeId, Seq<TypeId>>, k: TypeId) -> Seq<TypeId> {
    if m.contains_key(k) {
        m[k]
    } else {
        Seq::empty()
    }
}

/// `m` after `k` is appended under each of `deps`, in order.
pub open spec fn with_dependent(
    m: Map<TypeId, Seq<TypeId>>,
    deps: Seq<TypeId>,
    k: TypeId,
) -> Map<TypeId, Seq<TypeId>>
    decreases deps.len(),
{
    if deps.len() == 0 {
        m
    } else {
        let m1 = with_dependent(m, deps.drop_last(), k);
        m1.insert(deps.last(), list_of(m1, deps.last()).push(k))
    }
}

/// The registry after registering `k` with `deps`.
pub open spec fn registered_with(g: GraphView, k: TypeId, deps: Seq<TypeId>) -> GraphView {
    GraphView {
        providers: g.providers.insert(k, fresh_entry(deps)),
        dependents: with_dependent(g.dependents, deps, k),
    }
}

/// Appending under keys keeps every edge, and adds one from each key to `k`.
pub proof fn lemma_with_dependent(m: Map<TypeId, Seq<TypeId>>, deps: Seq<TypeId>, k: TypeId)
    ensures
        forall|a: TypeId, b: TypeId| edge(m, a, b) ==> #[trigger] edge(with_dependent(m, deps, k), a, b),
        forall|i: int| 0 <= i < deps.len() ==> #[trigger] edge(with_dependent(m, deps, k), deps[i], k),
    decreases deps.len(),
{
    if deps.len() > 0 {
        let m1 = with_dependent(m, deps.drop_last(), k);
        lemma_with_dependent(m, deps.drop_last(), k);
        let d = deps.last();
        let m2 = m1.insert(d, list_of(m1, d).push(k));
        assert(m2 == with_dependent(m, deps, k));
        assert(m2[d][m2[d].len() - 1] == k);
        assert forall|a: TypeId, b: TypeId| edge(m1, a, b) implies edge(m2, a, b) by {
            if a == d {
                let j = choose|j: int| 0 <= j < m1[a].len() && m1[a][j] == b;
                assert(m2[a][j] == b);
            }
        }
        assert forall|i: int| 0 <= i < deps.len() implies #[trigger] edge(m2, deps[i], k) by {
            if i < deps.len() - 1 {
                assert(deps.drop_last()[i] == deps[i]);
                assert(edge(m1, deps[i], k));
            }
        }
    }
}

/// The types that demanding `k` acquires, in order.
pub open spec fn acquisition(g: GraphView, k: TypeId) -> Seq<TypeId> {
    acquired(g.providers, k, zero_set(g.providers).len())
}

/// Demanding `k` is possible: what it acquires is registered and no count
/// would overflow.
pub open spec fn acquire_ok(g: GraphView, k: TypeId) -> bool {
    acquire_fits(g.providers, acquisition(g, k))
}

/// The types that releasing one reference to `k` releases, in order.
pub open spec fn release_sequence(g: GraphView, k: TypeId) -> Seq<TypeId> {
    released(g.providers, k, live_set(g.providers).len())
}

/// Releasing one reference to `k` is possible: what it releases is
/// registered and no count would go below zero.
pub open spec fn release_ok(g: GraphView, k: TypeId) -> bool {
    release_fits(g.providers, release_sequence(g, k))
}

/// Adding demand references keeps the registry's invariant.
pub proof fn lemma_registry_ok_bump_all(g: GraphView, s: Seq<TypeId>)
    requires
        registry_ok(g),
    ensures
        registry_ok(GraphView { providers: bump_all(g.providers, s), dependents: g.dependents }),
        deps_map(bump_all(g.providers, s)) == deps_map(g.providers),
{
    lemma_bump_all(g.providers, s);
    let q = bump_all(g.providers, s);
    assert(deps_map(q) =~= deps_map(g.providers));
}

/// Dropping demand references keeps the registry's invariant.
pub proof fn lemma_registry_ok_unbump_all(g: GraphView, s: Seq<TypeId>)
    requires
        registry_ok(g),
        release_fits(g.providers, s),
    ensures
        registry_ok(GraphView { providers: unbump_all(g.providers, s), dependents: g.dependents }),
        deps_map(unbump_all(g.providers, s)) == deps_map(g.providers),
{
    lemma_unbump_all(g.providers, s);
    let q = unbump_all(g.providers, s);
    assert(deps_map(q) =~= deps_map(g.providers));
}

impl<P> View for PullGraphInner<P> {
    type V = GraphView;

    closed spec fn view(&self) -> GraphView {
        GraphView { providers: keyed_map(self.providers@), dependents: self.dependents@ }
    }
}

impl<P> PullGraphInner<P> {
    /// The registry's own invariant.
    pub closed spec fn wf(&self) -> bool {
        &&& keys_distinct(self.providers@)
        &&& self.dependents.wf()
        &&& registry_ok(self@)
    }

    /// What the invariant says of the registry's values.
    pub proof fn lemma_registry_ok(&self)
        requires
            self.wf(),
        ensures
            registry_ok(self@),
    {
    }

    /// The calls of provider hooks made so far, in order.
    pub closed spec fn events(&self) -> Seq<Event> {
        self.events@
    }

    /// The provider in place for `k`, if any.
    pub closed spec fn provider_of(&self, k: TypeId) -> Option<P> {
        let s = self.providers@;
        if exists|i: int| 0 <= i < s.len() && s[i].type_id == k {
            s[choose|i: int| 0 <= i < s.len() && s[i].type_id == k].provider
        } else {
            None
        }
    }

    proof fn lemma_provider_of(&self, i: int)
        requires
            keys_distinct(self.providers@),
            0 <= i < self.providers@.len(),
        ensures
            self.provider_of(self.providers@[i].type_id) == self.providers@[i].provider,
    {
        let s = self.providers@;
        let k = s[i].type_id;
        let j = choose|j: int| 0 <= j < s.len() && s[j].type_id == k;
        assert(s[j].key() == s[i].key());
    }

    /// An empty registry.
    pub fn new() -> (r: Self)
        ensures
            r.wf(),
            r@.providers == Map::<TypeId, EntryView>::empty(),
            r@.dependents == Map::<TypeId, Seq<TypeId>>::empty(),
            r.events() == Seq::<Event>::empty(),
    {
        let r = PullGraphInner {
            providers: Vec::new(),
            dependents: Dependents::new(),
            events: Ghost(Seq::empty()),
        };
        assert(r@.providers =~= Map::<TypeId, EntryView>::empty());
        proof {
            lemma_keyed_finite(r.providers@);
        }
        r
    }

    /// The index of the entry for `k`, if registered.
    fn find(&self, k: &TypeId) -> (r: Option<usize>)
        requires
            self.wf(),
        ensures
            match r {
                Some(i) => {
                    &&& i < self.providers@.len()
                    &&& self.providers@[i as int].type_id == *k
                    &&& self@.providers.contains_key(*k)
                    &&& self@.providers[*k] == self.providers@[i as int].val()
                },
                None => !self@.providers.contains_key(*k),
            },
    {
        let mut i: usize = 0;
        while i < self.providers.len()
            invariant
                self.wf(),
                i <= self.providers@.len(),
                forall|j: int| 0 <= j < i ==> self.providers@[j].type_id != *k,
            decreases self.providers@.len() - i,
        {
            if same_type(&self.providers[i].type_id, k) {
                proof {
                    lemma_keyed_lookup(self.providers@, i as int);
                }
                return Some(i);
            }
            i = i + 1;
        }
        proof {
            if self@.providers.contains_key(*k) {
                let j = lemma_keyed_index(self.providers@, *k);
                assert(self.providers@[j].type_id == *k);
            }
        }
        None
    }

    /// Whether a provider is registered for `k`.
    pub fn contains(&self, k: TypeId) -> (r: bool)
        requires
            self.wf(),
        ensures
            r == self@.providers.contains_key(k),
    {
        self.find(&k).is_some()
    }

    /// Whether `k` is registered and has live demand.
    pub fn is_demanded(&self, type_id: TypeId) -> (r: bool)
        requires
            self.wf(),
        ensures
            r == demanded(self@.providers, type_id),
    {
        match self.find(&type_id) {
            Some(i) => self.providers[i].demand_count > 0,
            None => false,
        }
    }

    /// The demand count of `k` (zero if unregistered).
    pub fn demand_count(&self, type_id: TypeId) -> (r: usize)
        requires
            self.wf(),
        ensures
            r == count(self@.providers, type_id),
    {
        match self.find(&type_id) {
            Some(i) => self.providers[i].demand_count,
            None => 0,
        }
    }

    /// The dependencies of `k` (empty if unregistered).
    pub fn get_dependencies(&self, type_id: TypeId) -> (r: Vec<TypeId>)
        requires
            self.wf(),
        ensures
            r@ == (if self@.providers.contains_key(type_id) {
                self@.providers[type_id].dependencies
            } else {
                Seq::empty()
            }),
    {
        match self.find(&type_id) {
            Some(i) => crate::graph::copy_keys(&self.providers[i].dependencies),
            None => Vec::new(),
        }
    }

    /// The reverse dependency map.
    pub fn dependents(&self) -> (r: &Dependents)
        requires
            self.wf(),
        ensures
            r.wf(),
            r@ == self@.dependents,
    {
        &self.dependents
    }

    /// Registers `provider` for `type_id`, reading `dependencies`. Fails if a
    /// provider is already registered for the type; the registry is then
    /// unchanged.
    pub fn register_provider(
        &mut self,
        type_id: TypeId,
        provider: P,
        dependencies: Vec<TypeId>,
    ) -> (r: Result<(), PullGraphError>)
        requires
            old(self).wf(),
        ensures
            final(self).wf(),
            final(self).events() == old(self).events(),
            match r {
                Ok(()) => {
                    &&& !old(self)@.providers.contains_key(type_id)
                    &&& final(self)@ == registered_with(old(self)@, type_id, dependencies@)
                    &&& acyclic(deps_map(old(self)@.providers)) && no_cycle_through(
                        old(self)@,
                        type_id,
                        dependencies@,
                    ) ==> acyclic(deps_map(final(self)@.providers))
                    &&& final(self).provider_of(type_id) == Some(provider)
                    &&& forall|k: TypeId|
                        k != type_id ==> #[trigger] final(self).provider_of(k) == old(
                            self,
                        ).provider_of(k)
                },
                Err(e) => {
                    &&& old(self)@.providers.contains_key(type_id)
                    &&& e == PullGraphError::AlreadyRegistered(type_id)
                    &&& final(self)@ == old(self)@
                    &&& forall|k: TypeId| #[trigger]
                        final(self).provider_of(k) == old(self).provider_of(k)
                },
            },
    {
        if self.find(&type_id).is_some() {
            return Err(PullGraphError::AlreadyRegistered(type_id));
        }
        let ghost g0 = self@;
        let deps_copy = crate::graph::copy_keys(&dependencies);
        let entry = ProviderEntry {
            type_id,
            provider: Some(provider),
            demand_count: 0,
            active: false,
            dependencies: deps_copy,
        };
        proof {
            lemma_keyed_push(self.providers@, entry);
        }
        self.providers.push(entry);
        proof {
            lemma_keyed_finite(self.providers@);
            self.lemma_provider_of((self.providers@.len() - 1) as int);
            assert forall|k: TypeId| k != type_id implies #[trigger] self.provider_of(k) == old(
                self,
            ).provider_of(k) by {
                let s0 = old(self).providers@;
                let s1 = self.providers@;
                if exists|j: int| 0 <= j < s0.len() && s0[j].type_id == k {
                    let j = choose|j: int| 0 <= j < s0.len() && s0[j].type_id == k;
                    old(self).lemma_provider_of(j);
                    assert(s1[j] == s0[j]);
                    self.lemma_provider_of(j);
                } else {
                    assert forall|j: int| 0 <= j < s1.len() implies s1[j].type_id != k by {
                        if j < s0.len() {
                            assert(s1[j] == s0[j]);
                        }
                    }
                }
            }
        }
        let ghost p1 = self.providers@;
        let ghost ev = self.events@;
        assert(keyed_map(p1) == g0.providers.insert(type_id, fresh_entry(dependencies@)));
        let mut i: usize = 0;
        while i < dependencies.len()
            invariant
                self.providers@ == p1,
                self.events@ == ev,
                forall|k: TypeId|
                    k != type_id ==> #[trigger] self.provider_of(k) == old(self).provider_of(k),
                self.dependents.wf(),
                i <= dependencies@.len(),
                self.dependents@ == with_dependent(
                    g0.dependents,
                    dependencies@.subrange(0, i as int),
                    type_id,
                ),
            decreases dependencies@.len() - i,
        {
            let ghost prev = *self;
            self.dependents.push_dependent(dependencies[i], type_id);
            proof {
                assert forall|k: TypeId| k != type_id implies #[trigger] self.provider_of(k)
                    == old(self).provider_of(k) by {
                    assert(self.providers@ == prev.providers@);
                    assert(self.provider_of(k) == prev.provider_of(k));
                }
                let pre = dependencies@.subrange(0, i as int);
                let post = dependencies@.subrange(0, i + 1);
                assert(post.drop_last() =~= pre);
                assert(post.last() == dependencies@[i as int]);
            }
            i = i + 1;
        }
        assert(dependencies@.subrange(0, dependencies@.len() as int) =~= dependencies@);
        proof {
            let g1 = self@;
            assert(g1 == registered_with(g0, type_id, dependencies@));
            crate::laws::lemma_registration_shape(g0, type_id, dependencies@);
            if acyclic(deps_map(g0.providers)) && no_cycle_through(g0, type_id, dependencies@) {
                crate::laws::law_registration_keeps_acyclic(g0, type_id, dependencies@);
            }
        }
        Ok(())
    }
}

impl<P> PullGraphInner<P> {
    /// Adds one demand reference to `type_id`; if it had none, activates its
    /// provider and adds references to its dependencies in turn.
    fn acquire_into<V>(&mut self, type_id: TypeId, Ghost(fuel): Ghost<nat>)
        where P: Provider<V>
        requires
            old(self).wf(),
            zero_set(old(self)@.providers).len() <= fuel,
            acquire_fits(old(self)@.providers, acquired(old(self)@.providers, type_id, fuel)),
        ensures
            final(self).wf(),
            final(self)@.dependents == old(self)@.dependents,
            final(self)@.providers == bump_all(
                old(self)@.providers,
                acquired(old(self)@.providers, type_id, fuel),
            ),
            final(self).events() == old(self).events() + activations(
                old(self)@.providers,
                acquired(old(self)@.providers, type_id, fuel),
            ),
        decreases fuel,
    {
        let ghost p0 = self@.providers;
        let ghost s = acquired(p0, type_id, fuel);
        proof {
            crate::activation::lemma_acquired_nonempty(p0, type_id, fuel);
            assert(p0.contains_key(s[0]));
        }
        let i = match self.find(&type_id) {
            Some(i) => i,
            None => {
                assert(false);
                return;
            },
        };
        proof {
            lemma_occ_bounds(s, type_id);
            assert(s.contains(type_id)) by {
                assert(s[0] == type_id);
            }
            assert(p0[type_id].demand_count + occ(s, type_id) <= usize::MAX);
        }
        let was_zero = self.providers[i].demand_count == 0;
        let c = self.providers[i].demand_count;
        self.providers[i].demand_count = c + 1;
        self.providers[i].active = true;
        proof {
            assert(self.providers@ =~= old(self).providers@.update(
                i as int,
                self.providers@[i as int],
            ));
            lemma_keyed_update(old(self).providers@, i as int, self.providers@[i as int]);
            assert(keyed_map(self.providers@) =~= bump(p0, type_id));
            crate::activation::lemma_single(p0, type_id);
            lemma_registry_ok_bump_all(old(self)@, seq![type_id]);
            lemma_keyed_finite(self.providers@);
        }
        if was_zero {
            let taken = self.providers[i].provider.take();
            match taken {
                Some(mut provider) => {
                    provider.activate();
                    self.providers[i].provider = Some(provider);
                    proof {
                        self.events@ = self.events@.push(Event::Activated(type_id));
                    }
                },
                None => {},
            }
            proof {
                assert(self.providers@ =~= old(self).providers@.update(
                    i as int,
                    self.providers@[i as int],
                ));
                lemma_keyed_update(old(self).providers@, i as int, self.providers@[i as int]);
                assert(keyed_map(self.providers@) =~= bump(p0, type_id));
                lemma_keyed_finite(self.providers@);
            }
            let deps = crate::graph::copy_keys(&self.providers[i].dependencies);
            let ghost p1 = bump(p0, type_id);
            let ghost f1 = (fuel - 1) as nat;
            proof {
                assert(p0.dom().finite());
                assert(zero_set(p0).contains(type_id));
                assert(zero_set(p0).finite());
                assert(zero_set(p0).len() > 0);
                lemma_zero_set_bump(p0, type_id);
                assert(s == seq![type_id] + acquired_all(p1, deps@, f1));
                crate::activation::lemma_single(p0, type_id);
                let e = Seq::<TypeId>::empty();
                assert(deps@.skip(0) =~= deps@);
                assert(e + acquired_all(p1, deps@, f1) =~= acquired_all(p1, deps@, f1));
                assert(bump_all(p1, e) == p1);
                assert(seq![type_id] + e =~= seq![type_id]);
                assert(acquired_all(p1, deps@, f1) == e + acquired_all(
                    bump_all(p1, e),
                    deps@.skip(0),
                    f1,
                ));
            }
            let mut j: usize = 0;
            while j < deps.len()
                invariant
                    self.wf(),
                    p1 == bump(p0, type_id),
                    s == seq![type_id] + acquired_all(p1, deps@, f1),
                    acquire_fits(p0, s),
                    j <= deps@.len(),
                    zero_set(p1).len() <= f1,
                    f1 + 1 == fuel,
                    p1.dom().finite(),
                    self@.dependents == old(self)@.dependents,
                    exists|pre: Seq<TypeId>| {
                        &&& #[trigger] acquired_all(p1, deps@, f1) == pre + acquired_all(
                            bump_all(p1, pre),
                            deps@.skip(j as int),
                            f1,
                        )
                        &&& self@.providers == bump_all(p1, pre)
                        &&& self.events() == old(self).events() + activations(
                            p0,
                            seq![type_id] + pre,
                        )
                    },
                decreases deps@.len() - j,
            {
                let ghost pre = choose|pre: Seq<TypeId>| {
                    &&& #[trigger] acquired_all(p1, deps@, f1) == pre + acquired_all(
                        bump_all(p1, pre),
                        deps@.skip(j as int),
                        f1,
                    )
                    &&& self@.providers == bump_all(p1, pre)
                    &&& self.events() == old(self).events() + activations(
                        p0,
                        seq![type_id] + pre,
                    )
                };
                let ghost q = bump_all(p1, pre);
                let ghost piece = acquired(q, deps@[j as int], f1);
                let ghost rest = acquired_all(bump_all(q, piece), deps@.skip(j + 1), f1);
                proof {
                    lemma_acquired_all_step(q, deps@, j as int, f1);
                    lemma_zero_set_bump_all(p1, pre);
                    vstd::set_lib::lemma_len_subset(zero_set(q), zero_set(p1));
                    // what remains to acquire fits
                    let whole = seq![type_id] + pre + piece + rest;
                    assert(s =~= whole);
                    lemma_bump_all(p1, pre);
                    lemma_bump_all_concat(p0, seq![type_id], pre);
                    crate::activation::lemma_single(p0, type_id);
                    assert forall|x: TypeId| #[trigger] q.contains_key(x) implies q[x].demand_count
                        + occ(piece, x) <= usize::MAX by {
                        lemma_occ_concat(seq![type_id] + pre + piece, rest, x);
                        lemma_occ_concat(seq![type_id] + pre, piece, x);
                        lemma_occ_concat(seq![type_id], pre, x);
                        lemma_bump_all(p0, seq![type_id] + pre);
                        assert(bump_all(p0, seq![type_id] + pre) == q);
                    }
                    assert forall|k: int| 0 <= k < piece.len() implies q.contains_key(
                        #[trigger] piece[k],
                    ) by {
                        let idx = 1 + pre.len() + k;
                        assert(s[idx] == piece[k]);
                        assert(p0.contains_key(s[idx]));
                    }
                }
                self.acquire_into(deps[j], Ghost(f1));
                proof {
                    lemma_bump_all_concat(p1, pre, piece);
                    lemma_activations_concat(p0, seq![type_id] + pre, piece);
                    lemma_bump_all_concat(p0, seq![type_id], pre);
                    crate::activation::lemma_single(p0, type_id);
                    assert(seq![type_id] + (pre + piece) =~= seq![type_id] + pre + piece);
                    assert(acquired_all(p1, deps@, f1) == (pre + piece) + acquired_all(
                        bump_all(p1, pre + piece),
                        deps@.skip(j + 1),
                        f1,
                    ));
                }
                j = j + 1;
            }
            proof {
                let pre = choose|pre: Seq<TypeId>| {
                    &&& #[trigger] acquired_all(p1, deps@, f1) == pre + acquired_all(
                        bump_all(p1, pre),
                        deps@.skip(j as int),
                        f1,
                    )
                    &&& self@.providers == bump_all(p1, pre)
                    &&& self.events() == old(self).events() + activations(
                        p0,
                        seq![type_id] + pre,
                    )
                };
                assert(deps@.skip(j as int) =~= Seq::<TypeId>::empty());
                assert(acquired_all(p1, deps@, f1) =~= pre);
                lemma_bump_all_concat(p0, seq![type_id], pre);
                crate::activation::lemma_single(p0, type_id);
            }
        } else {
            proof {
                assert(s == seq![type_id]);
                crate::activation::lemma_single(p0, type_id);
                lemma_keyed_finite(self.providers@);
            }
        }
    }

    /// Adds one demand reference to `type_id` and, where it had none,
    /// activates its provider and demands its dependencies in turn.
    pub fn acquire_activation<V>(&mut self, type_id: TypeId) -> (token: ActivationToken)
        where P: Provider<V>
        requires
            old(self).wf(),
            acquire_ok(old(self)@, type_id),
        ensures
            final(self).wf(),
            token.root() == type_id,
            final(self)@ == (GraphView {
                providers: bump_all(old(self)@.providers, acquisition(old(self)@, type_id)),
                dependents: old(self)@.dependents,
            }),
            final(self).events() == old(self).events() + activations(
                old(self)@.providers,
                acquisition(old(self)@, type_id),
            ),
            forall|i: int|
                old(self).events().len() <= i < final(self).events().len() ==> {
                    let e = #[trigger] final(self).events()[i];
                    &&& e is Activated
                    &&& old(self)@.providers.contains_key(e->Activated_0)
                    &&& old(self)@.providers[e->Activated_0].demand_count == 0
                },
            final(self).events().skip(old(self).events().len() as int).no_duplicates(),
            old(self)@.providers[type_id].demand_count > 0 ==> final(self).events() == old(
                self,
            ).events(),
    {
        let ghost p = self@.providers;
        let ghost ev = self.events();
        self.acquire_into(type_id, Ghost(zero_set(self@.providers).len()));
        proof {
            let acq = acquisition(old(self)@, type_id);
            let a = activations(p, acq);
            crate::activation::lemma_activations_fresh(p, acq);
            crate::activation::lemma_acquired_nonempty(p, type_id, zero_set(p).len());
            assert(self.events().skip(ev.len() as int) =~= a);
            assert forall|i: int| ev.len() <= i < self.events().len() implies {
                let e = #[trigger] self.events()[i];
                &&& e is Activated
                &&& p.contains_key(e->Activated_0)
                &&& p[e->Activated_0].demand_count == 0
            } by {
                assert(self.events()[i] == a[i - ev.len()]);
                assert(crate::activation::fresh_activation(p, acq, a[i - ev.len()]));
            }
            if p[type_id].demand_count > 0 {
                assert(acq == seq![type_id]);
                if a.len() > 0 {
                    assert(crate::activation::fresh_activation(p, acq, a[0]));
                    assert(acq.contains(a[0]->Activated_0));
                    assert(acq[0] == type_id);
                }
                assert(a =~= Seq::<Event>::empty());
                assert(self.events() =~= ev);
            }
        }
        ActivationToken::new(type_id)
    }

    /// Drops one demand reference to `type_id`; when that was its last, the
    /// type is inactive, its provider's `deactivate` is called, and one
    /// reference to each of its dependencies is dropped in turn.
    fn release_into<V>(&mut self, type_id: TypeId, Ghost(fuel): Ghost<nat>)
        where P: Provider<V>
        requires
            old(self).wf(),
            live_set(old(self)@.providers).len() <= fuel,
            release_fits(old(self)@.providers, released(old(self)@.providers, type_id, fuel)),
        ensures
            final(self).wf(),
            final(self)@.dependents == old(self)@.dependents,
            final(self)@.providers == unbump_all(
                old(self)@.providers,
                released(old(self)@.providers, type_id, fuel),
            ),
            final(self).events() == old(self).events() + deactivations(
                old(self)@.providers,
                released(old(self)@.providers, type_id, fuel),
            ),
        decreases fuel,
    {
        let ghost p0 = self@.providers;
        let ghost s = released(p0, type_id, fuel);
        proof {
            lemma_released_nonempty(p0, type_id, fuel);
            assert(p0.contains_key(s[0]));
            assert(s =~= seq![type_id] + s.skip(1));
            lemma_release_fits_split(p0, seq![type_id], s.skip(1));
            lemma_single(p0, type_id);
        }
        let i = match self.find(&type_id) {
            Some(i) => i,
            None => {
                assert(false);
                return;
            },
        };
        proof {
            lemma_occ_single(type_id, type_id);
        }
        let c = self.providers[i].demand_count;
        self.providers[i].demand_count = c - 1;
        let last = c == 1;
        if last {
            self.providers[i].active = false;
            let taken = self.providers[i].provider.take();
            match taken {
                Some(mut provider) => {
                    provider.deactivate();
                    self.providers[i].provider = Some(provider);
                    proof {
                        self.events@ = self.events@.push(Event::Deactivated(type_id));
                    }
                },
                None => {},
            }
        }
        proof {
            assert(self.providers@ =~= old(self).providers@.update(
                i as int,
                self.providers@[i as int],
            ));
            lemma_keyed_update(old(self).providers@, i as int, self.providers@[i as int]);
            assert(keyed_map(self.providers@) =~= unbump(p0, type_id));
            lemma_registry_ok_unbump_all(old(self)@, seq![type_id]);
            lemma_keyed_finite(self.providers@);
            assert(deactivation_event(p0, type_id) =~= if c == 1 && self.providers@[i as int].provider is Some {
                seq![Event::Deactivated(type_id)]
            } else {
                Seq::<Event>::empty()
            });
        }
        if last {
            let deps = crate::graph::copy_keys(&self.providers[i].dependencies);
            let ghost p1 = unbump(p0, type_id);
            let ghost f1 = (fuel - 1) as nat;
            proof {
                self.lemma_registry_ok();
                assert(p0.dom().finite());
                assert(live_set(p0).contains(type_id));
                assert(live_set(p0).len() > 0);
                lemma_live_set_unbump(p0, type_id);
                assert(deps@ == p0[type_id].dependencies);
                assert(s == seq![type_id] + released_all(p1, deps@, f1));
                let e = Seq::<TypeId>::empty();
                assert(deps@.skip(0) =~= deps@);
                assert(unbump_all(p1, e) == p1);
                assert(seq![type_id] + e =~= seq![type_id]);
                assert(released_all(p1, deps@, f1) =~= e + released_all(
                    unbump_all(p1, e),
                    deps@.skip(0),
                    f1,
                ));
            }
            let mut j: usize = 0;
            while j < deps.len()
                invariant
                    self.wf(),
                    p1 == unbump(p0, type_id),
                    s == seq![type_id] + released_all(p1, deps@, f1),
                    release_fits(p0, s),
                    j <= deps@.len(),
                    live_set(p1).len() <= f1,
                    f1 + 1 == fuel,
                    p1.dom().finite(),
                    unbump_all(p0, seq![type_id]) == p1,
                    deactivations(p0, seq![type_id]) == deactivation_event(p0, type_id),
                    self@.dependents == old(self)@.dependents,
                    exists|pre: Seq<TypeId>| {
                        &&& #[trigger] released_all(p1, deps@, f1) == pre + released_all(
                            unbump_all(p1, pre),
                            deps@.skip(j as int),
                            f1,
                        )
                        &&& self@.providers == unbump_all(p1, pre)
                        &&& self.events() == old(self).events() + deactivations(
                            p0,
                            seq![type_id] + pre,
                        )
                    },
                decreases deps@.len() - j,
            {
                let ghost pre = choose|pre: Seq<TypeId>| {
                    &&& #[trigger] released_all(p1, deps@, f1) == pre + released_all(
                        unbump_all(p1, pre),
                        deps@.skip(j as int),
                        f1,
                    )
                    &&& self@.providers == unbump_all(p1, pre)
                    &&& self.events() == old(self).events() + deactivations(
                        p0,
                        seq![type_id] + pre,
                    )
                };
                let ghost q = unbump_all(p1, pre);
                let ghost piece = released(q, deps@[j as int], f1);
                let ghost rest = released_all(unbump_all(q, piece), deps@.skip(j + 1), f1);
                proof {
                    lemma_released_all_step(q, deps@, j as int, f1);
                    lemma_live_set_unbump_all(p1, pre);
                    vstd::set_lib::lemma_len_subset(live_set(q), live_set(p1));
                    let head = seq![type_id] + pre;
                    assert(s =~= head + (piece + rest));
                    lemma_release_fits_split(p0, head, piece + rest);
                    lemma_unbump_all_concat(p0, seq![type_id], pre);
                    assert(unbump_all(p0, head) == q);
                    lemma_release_fits_split(q, piece, rest);
                }
                self.release_into(deps[j], Ghost(f1));
                proof {
                    lemma_unbump_all_concat(p1, pre, piece);
                    let head = seq![type_id] + pre;
                    lemma_deactivations_concat(p0, head, piece);
                    lemma_unbump_all_concat(p0, seq![type_id], pre);
                    assert(seq![type_id] + (pre + piece) =~= head + piece);
                    assert(released_all(p1, deps@, f1) == (pre + piece) + released_all(
                        unbump_all(p1, pre + piece),
                        deps@.skip(j + 1),
                        f1,
                    ));
                }
                j = j + 1;
            }
            proof {
                let pre = choose|pre: Seq<TypeId>| {
                    &&& #[trigger] released_all(p1, deps@, f1) == pre + released_all(
                        unbump_all(p1, pre),
                        deps@.skip(j as int),
                        f1,
                    )
                    &&& self@.providers == unbump_all(p1, pre)
                    &&& self.events() == old(self).events() + deactivations(
                        p0,
                        seq![type_id] + pre,
                    )
                };
                assert(deps@.skip(j as int) =~= Seq::<TypeId>::empty());
                assert(released_all(p1, deps@, f1) =~= pre);
                lemma_unbump_all_concat(p0, seq![type_id], pre);
            }
        } else {
            proof {
                assert(s == seq![type_id]);
            }
        }
    }

    /// Drops one demand reference to `type_id`; when that was its last, the
    /// type is inactive, its provider's `deactivate` is called, and its
    /// dependencies are released in turn, so that every reference that
    /// demanding it took is given back.
    pub fn release_activation<V>(&mut self, type_id: TypeId)
        where P: Provider<V>
        requires
            old(self).wf(),
            release_ok(old(self)@, type_id),
        ensures
            final(self).wf(),
            final(self)@ == (GraphView {
                providers: unbump_all(old(self)@.providers, release_sequence(old(self)@, type_id)),
                dependents: old(self)@.dependents,
            }),
            final(self).events() == old(self).events() + deactivations(
                old(self)@.providers,
                release_sequence(old(self)@, type_id),
            ),
            old(self)@.providers[type_id].demand_count >= 2 ==> final(self).events() == old(
                self,
            ).events() && final(self)@.providers == unbump(old(self)@.providers, type_id),
    {
        proof {
            if self@.providers.contains_key(type_id) && self@.providers[type_id].demand_count >= 2 {
                crate::laws::law_release_keeps_other_references(self@, type_id);
            }
        }
        let ghost ev = self.events();
        self.release_into(type_id, Ghost(live_set(self@.providers).len()));
        proof {
            if old(self)@.providers.contains_key(type_id) && old(self)@.providers[type_id].demand_count >= 2 {
                assert(self.events() =~= ev);
            }
        }
    }

    /// Appends to `out` what releasing one reference to `type_id` would
    /// release once the references in `out` are released, leaving the
    /// registry as it is. Returns `false` where that would meet an
    /// unregistered type or a type without demand.
    fn plan_release_into(&self, type_id: TypeId, out: &mut Vec<TypeId>, Ghost(fuel): Ghost<nat>) -> (ok: bool)
        requires
            self.wf(),
            live_set(unbump_all(self@.providers, old(out)@)).len() <= fuel,
            release_fits(self@.providers, old(out)@),
        ensures
            ok ==> final(out)@ == old(out)@ + released(
                unbump_all(self@.providers, old(out)@),
                type_id,
                fuel,
            ),
            ok ==> release_fits(self@.providers, final(out)@),
            !ok ==> !release_fits(
                self@.providers,
                old(out)@ + released(unbump_all(self@.providers, old(out)@), type_id, fuel),
            ),
        decreases fuel,
    {
        let ghost p0 = self@.providers;
        let ghost o0 = out@;
        let ghost q0 = unbump_all(p0, o0);
        let ghost s = released(q0, type_id, fuel);
        proof {
            lemma_released_nonempty(q0, type_id, fuel);
            lemma_unbump_all(p0, o0);
            self.lemma_registry_ok();
            assert((o0 + s)[o0.len() as int] == type_id);
        }
        let i = match self.find(&type_id) {
            Some(i) => i,
            None => {
                return false;
            },
        };
        let n = occurrences(out, &type_id);
        let c = self.providers[i].demand_count;
        if n >= c {
            proof {
                lemma_occ_concat(o0, s, type_id);
                lemma_occ_bounds(s, type_id);
                assert(s.contains(type_id)) by {
                    assert(s[0] == type_id);
                }
            }
            return false;
        }
        let expand = c - n == 1;
        out.push(type_id);
        proof {
            assert(out@ =~= o0 + seq![type_id]);
            lemma_occ_single(type_id, type_id);
            assert forall|x: TypeId| #[trigger] p0.contains_key(x) implies occ(out@, x)
                <= p0[x].demand_count by {
                lemma_occ_concat(o0, seq![type_id], x);
                lemma_occ_single(type_id, x);
            }
            assert forall|k: int| 0 <= k < out@.len() implies p0.contains_key(#[trigger] out@[k]) by {
                if k < o0.len() {
                    assert(out@[k] == o0[k]);
                }
            }
            assert(expand == (q0[type_id].demand_count == 1));
            lemma_unbump_all_concat(p0, o0, seq![type_id]);
            lemma_single(q0, type_id);
        }
        if expand {
            let deps = crate::graph::copy_keys(&self.providers[i].dependencies);
            let ghost q1 = unbump(q0, type_id);
            let ghost f1 = (fuel - 1) as nat;
            proof {
                lemma_unbump_all_le(p0, o0);
                assert(q0.dom().finite());
                assert(live_set(q0).contains(type_id));
                assert(live_set(q0).len() > 0);
                lemma_live_set_unbump(q0, type_id);
                assert(q1.dom() =~= q0.dom());
                assert(deps@ == q0[type_id].dependencies);
                assert(s == seq![type_id] + released_all(q1, deps@, f1));
                let e = Seq::<TypeId>::empty();
                assert(deps@.skip(0) =~= deps@);
                assert(unbump_all(q1, e) == q1);
                assert(out@ =~= o0 + seq![type_id] + e);
                assert(released_all(q1, deps@, f1) =~= e + released_all(
                    unbump_all(q1, e),
                    deps@.skip(0),
                    f1,
                ));
            }
            let mut j: usize = 0;
            while j < deps.len()
                invariant
                    self.wf(),
                    p0 == self@.providers,
                    o0 == old(out)@,
                    q0 == unbump_all(p0, o0),
                    q1 == unbump(q0, type_id),
                    q1 == unbump_all(p0, o0 + seq![type_id]),
                    s == released(q0, type_id, fuel),
                    s == seq![type_id] + released_all(q1, deps@, f1),
                    j <= deps@.len(),
                    live_set(q1).len() <= f1,
                    f1 + 1 == fuel,
                    q1.dom().finite(),
                    release_fits(p0, out@),
                    exists|pre: Seq<TypeId>| {
                        &&& #[trigger] released_all(q1, deps@, f1) == pre + released_all(
                            unbump_all(q1, pre),
                            deps@.skip(j as int),
                            f1,
                        )
                        &&& out@ == o0 + seq![type_id] + pre
                    },
                decreases deps@.len() - j,
            {
                let ghost pre = choose|pre: Seq<TypeId>| {
                    &&& #[trigger] released_all(q1, deps@, f1) == pre + released_all(
                        unbump_all(q1, pre),
                        deps@.skip(j as int),
                        f1,
                    )
                    &&& out@ == o0 + seq![type_id] + pre
                };
                let ghost q = unbump_all(q1, pre);
                let ghost piece = released(q, deps@[j as int], f1);
                let ghost rest = released_all(unbump_all(q, piece), deps@.skip(j + 1), f1);
                proof {
                    lemma_released_all_step(q, deps@, j as int, f1);
                    lemma_live_set_unbump_all(q1, pre);
                    vstd::set_lib::lemma_len_subset(live_set(q), live_set(q1));
                    lemma_unbump_all_concat(p0, o0 + seq![type_id], pre);
                    assert(unbump_all(p0, out@) == q);
                }
                let ok = self.plan_release_into(deps[j], out, Ghost(f1));
                if !ok {
                    proof {
                        assert(!release_fits(p0, o0 + seq![type_id] + pre + piece));
                        assert(released_all(q1, deps@, f1) == pre + (piece + rest));
                        assert(s == seq![type_id] + (pre + (piece + rest)));
                        let whole = o0 + s;
                        assert(whole =~= (o0 + seq![type_id] + pre + piece) + rest);
                        if release_fits(p0, whole) {
                            lemma_release_fits_split(p0, o0 + seq![type_id] + pre + piece, rest);
                        }
                    }
                    return false;
                }
                proof {
                    lemma_unbump_all_concat(q1, pre, piece);
                    assert(o0 + seq![type_id] + (pre + piece) =~= out@);
                    assert(released_all(q1, deps@, f1) == (pre + piece) + released_all(
                        unbump_all(q1, pre + piece),
                        deps@.skip(j + 1),
                        f1,
                    ));
                }
                j = j + 1;
            }
            proof {
                let pre = choose|pre: Seq<TypeId>| {
                    &&& #[trigger] released_all(q1, deps@, f1) == pre + released_all(
                        unbump_all(q1, pre),
                        deps@.skip(j as int),
                        f1,
                    )
                    &&& out@ == o0 + seq![type_id] + pre
                };
                assert(deps@.skip(j as int) =~= Seq::<TypeId>::empty());
                assert(released_all(q1, deps@, f1) =~= pre);
                assert(out@ =~= o0 + s);
            }
        } else {
            proof {
                assert(s == seq![type_id]);
                assert(out@ =~= o0 + s);
            }
        }
        true
    }

    /// Whether releasing one reference to `type_id` is possible: everything
    /// it would release is registered and keeps a count of at least zero.
    pub fn can_release(&self, type_id: TypeId) -> (r: bool)
        requires
            self.wf(),
        ensures
            r == release_ok(self@, type_id),
    {
        let ghost p = self@.providers;
        let ghost s = release_sequence(self@, type_id);
        let mut out: Vec<TypeId> = Vec::new();
        let ghost e = out@;
        proof {
            assert(unbump_all(p, e) == p);
            assert(e + s =~= s);
        }
        let ok = self.plan_release_into(type_id, &mut out, Ghost(live_set(p).len()));
        proof {
            if ok {
                assert(out@ =~= s);
            }
        }
        ok
    }

    /// Appends to `out` what acquiring `type_id` would acquire once the types
    /// already in `out` are acquired, leaving the registry as it is. Returns
    /// `false` where that meets an unregistered type.
    fn plan_into(&self, type_id: TypeId, out: &mut Vec<TypeId>, Ghost(fuel): Ghost<nat>) -> (missing: Option<TypeId>)
        requires
            self.wf(),
            zero_set(bump_all(self@.providers, old(out)@)).len() <= fuel,
            forall|i: int| 0 <= i < old(out)@.len() ==> self@.providers.contains_key(#[trigger] old(out)@[i]),
        ensures
            missing is None ==> final(out)@ == old(out)@ + acquired(
                bump_all(self@.providers, old(out)@),
                type_id,
                fuel,
            ),
            missing is None ==> forall|i: int|
                0 <= i < final(out)@.len() ==> self@.providers.contains_key(#[trigger] final(out)@[i]),
            missing matches Some(m) ==> !self@.providers.contains_key(m) && acquired(
                bump_all(self@.providers, old(out)@),
                type_id,
                fuel,
            ).contains(m),
        decreases fuel,
    {
        let ghost p0 = self@.providers;
        let ghost q0 = bump_all(p0, out@);
        let ghost s = acquired(q0, type_id, fuel);
        proof {
            crate::activation::lemma_acquired_nonempty(q0, type_id, fuel);
            lemma_bump_all(p0, out@);
            self.lemma_registry_ok();
        }
        let i = match self.find(&type_id) {
            Some(i) => i,
            None => {
                assert(!p0.contains_key(s[0]));
                return Some(type_id);
            },
        };
        let seen = crate::type_key::contains_key(out, &type_id);
        let fresh = self.providers[i].demand_count == 0 && !seen;
        proof {
            lemma_occ_bounds(old(out)@, type_id);
            assert(fresh == (q0[type_id].demand_count == 0));
        }
        out.push(type_id);
        if fresh {
            let deps = crate::graph::copy_keys(&self.providers[i].dependencies);
            let ghost q1 = bump(q0, type_id);
            let ghost f1 = (fuel - 1) as nat;
            proof {
                assert(q0.dom().finite());
                assert(zero_set(q0).contains(type_id));
                assert(zero_set(q0).len() > 0);
                lemma_zero_set_bump(q0, type_id);
                assert(deps@ == q0[type_id].dependencies);
                assert(s == seq![type_id] + acquired_all(q1, deps@, f1));
                crate::activation::lemma_single(q0, type_id);
                lemma_bump_all_concat(p0, old(out)@, seq![type_id]);
                assert(out@ =~= old(out)@ + seq![type_id]);
                let e = Seq::<TypeId>::empty();
                assert(deps@.skip(0) =~= deps@);
                assert(bump_all(q1, e) == q1);
                assert(out@ =~= old(out)@ + seq![type_id] + e);
                assert(acquired_all(q1, deps@, f1) =~= e + acquired_all(
                    bump_all(q1, e),
                    deps@.skip(0),
                    f1,
                ));
            }
            let mut j: usize = 0;
            while j < deps.len()
                invariant
                    self.wf(),
                    p0 == self@.providers,
                    q0 == bump_all(p0, old(out)@),
                    q1 == bump(q0, type_id),
                    q1 == bump_all(p0, old(out)@ + seq![type_id]),
                    s == acquired(q0, type_id, fuel),
                    s == seq![type_id] + acquired_all(q1, deps@, f1),
                    j <= deps@.len(),
                    zero_set(q1).len() <= f1,
                    f1 + 1 == fuel,
                    q1.dom() == p0.dom(),
                    forall|k: int| 0 <= k < out@.len() ==> p0.contains_key(#[trigger] out@[k]),
                    exists|pre: Seq<TypeId>| {
                        &&& #[trigger] acquired_all(q1, deps@, f1) == pre + acquired_all(
                            bump_all(q1, pre),
                            deps@.skip(j as int),
                            f1,
                        )
                        &&& out@ == old(out)@ + seq![type_id] + pre
                    },
                decreases deps@.len() - j,
            {
                let ghost pre = choose|pre: Seq<TypeId>| {
                    &&& #[trigger] acquired_all(q1, deps@, f1) == pre + acquired_all(
                        bump_all(q1, pre),
                        deps@.skip(j as int),
                        f1,
                    )
                    &&& out@ == old(out)@ + seq![type_id] + pre
                };
                let ghost q = bump_all(q1, pre);
                let ghost piece = acquired(q, deps@[j as int], f1);
                let ghost rest = acquired_all(bump_all(q, piece), deps@.skip(j + 1), f1);
                proof {
                    lemma_acquired_all_step(q, deps@, j as int, f1);
                    lemma_zero_set_bump_all(q1, pre);
                    vstd::set_lib::lemma_len_subset(zero_set(q), zero_set(q1));
                    lemma_bump_all_concat(p0, old(out)@ + seq![type_id], pre);
                    assert(old(out)@ + seq![type_id] + pre == out@);
                    assert(bump_all(p0, out@) == q);
                }
                let found = self.plan_into(deps[j], out, Ghost(f1));
                if let Some(m) = found {
                    proof {
                        let whole = seq![type_id] + pre + piece + rest;
                        assert(s =~= whole);
                        let k = choose|k: int| 0 <= k < piece.len() && piece[k] == m;
                        assert(s[1 + pre.len() + k] == piece[k]);
                    }
                    return Some(m);
                }
                proof {
                    lemma_bump_all_concat(q1, pre, piece);
                    assert(old(out)@ + seq![type_id] + (pre + piece) =~= out@);
                    assert(acquired_all(q1, deps@, f1) == (pre + piece) + acquired_all(
                        bump_all(q1, pre + piece),
                        deps@.skip(j + 1),
                        f1,
                    ));
                }
                j = j + 1;
            }
            proof {
                let pre = choose|pre: Seq<TypeId>| {
                    &&& #[trigger] acquired_all(q1, deps@, f1) == pre + acquired_all(
                        bump_all(q1, pre),
                        deps@.skip(j as int),
                        f1,
                    )
                    &&& out@ == old(out)@ + seq![type_id] + pre
                };
                assert(deps@.skip(j as int) =~= Seq::<TypeId>::empty());
                assert(acquired_all(q1, deps@, f1) =~= pre);
                assert(out@ =~= old(out)@ + s);
            }
        } else {
            proof {
                assert(s == seq![type_id]);
                assert(out@ =~= old(out)@ + s);
            }
        }
        None
    }

    /// Whether demanding `type_id` is possible: everything it would acquire
    /// is registered and no demand count would pass `usize::MAX`.
    pub fn can_acquire(&self, type_id: TypeId) -> (r: bool)
        requires
            self.wf(),
        ensures
            r == acquire_ok(self@, type_id),
    {
        let ghost p = self@.providers;
        let ghost s = acquisition(self@, type_id);
        let mut out: Vec<TypeId> = Vec::new();
        let ghost e = out@;
        proof {
            assert(bump_all(p, e) == p);
        }
        let missing = self.plan_into(type_id, &mut out, Ghost(zero_set(p).len()));
        if let Some(m) = missing {
            proof {
                let k = choose|k: int| 0 <= k < s.len() && s[k] == m;
                assert(!p.contains_key(s[k]));
            }
            return false;
        }
        assert(out@ =~= s);
        let mut i: usize = 0;
        while i < out.len()
            invariant
                self.wf(),
                p == self@.providers,
                s == acquisition(self@, type_id),
                out@ == s,
                i <= s.len(),
                forall|k: int| 0 <= k < s.len() ==> p.contains_key(#[trigger] s[k]),
                forall|j: int|
                    0 <= j < i ==> p[#[trigger] s[j]].demand_count + occ(s, s[j]) <= usize::MAX,
            decreases s.len() - i,
        {
            let n = occurrences(&out, &out[i]);
            match self.find(&out[i]) {
                None => {
                    assert(p.contains_key(s[i as int]));
                    return false;
                },
                Some(idx) => {
                    if self.providers[idx].demand_count > usize::MAX - n {
                        assert(p.contains_key(s[i as int]));
                        return false;
                    }
                },
            }
            i = i + 1;
        }
        proof {
            assert forall|x: TypeId| #[trigger] p.contains_key(x) implies p[x].demand_count + occ(
                s,
                x,
            ) <= usize::MAX by {
                lemma_occ_bounds(s, x);
                if s.contains(x) {
                    let j = choose|j: int| 0 <= j < s.len() && s[j] == x;
                    assert(p[s[j]].demand_count + occ(s, s[j]) <= usize::MAX);
                }
            }
        }
        true
    }

    /// A type without provider that demanding `type_id` would reach, if any.
    pub fn missing_dependency(&self, type_id: TypeId) -> (r: Option<TypeId>)
        requires
            self.wf(),
        ensures
            r is None <==> forall|i: int|
                0 <= i < acquisition(self@, type_id).len() ==> self@.providers.contains_key(
                    #[trigger] acquisition(self@, type_id)[i],
                ),
            r matches Some(m) ==> !self@.providers.contains_key(m) && acquisition(
                self@,
                type_id,
            ).contains(m),
    {
        let ghost p = self@.providers;
        let mut out: Vec<TypeId> = Vec::new();
        let ghost e = out@;
        proof {
            assert(bump_all(p, e) == p);
            assert(e + acquisition(self@, type_id) =~= acquisition(self@, type_id));
        }
        let r = self.plan_into(type_id, &mut out, Ghost(zero_set(p).len()));
        proof {
            if let Some(m) = r {
                let k = choose|k: int|
                    0 <= k < acquisition(self@, type_id).len() && acquisition(self@, type_id)[k] == m;
                assert(!p.contains_key(acquisition(self@, type_id)[k]));
            } else {
                assert(out@ =~= acquisition(self@, type_id));
            }
        }
        r
    }

    /// Whether every type with demand has its provider in place.
    pub fn providers_in_place(&self) -> (r: bool)
        requires
            self.wf(),
        ensures
            r == crate::context::providers_present(self@.providers),
    {
        let mut i: usize = 0;
        while i < self.providers.len()
            invariant
                self.wf(),
                i <= self.providers@.len(),
                forall|j: int|
                    0 <= j < i ==> #[trigger] self.providers@[j].provider is Some
                        || self.providers@[j].demand_count == 0,
            decreases self.providers@.len() - i,
        {
            if self.providers[i].provider.is_none() && self.providers[i].demand_count > 0 {
                proof {
                    lemma_keyed_lookup(self.providers@, i as int);
                    assert(demanded(self@.providers, self.providers@[i as int].type_id));
                    assert(!self@.providers[self.providers@[i as int].type_id].has_provider);
                }
                return false;
            }
            i = i + 1;
        }
        proof {
            assert forall|k: TypeId| #[trigger] demanded(self@.providers, k) implies self@.providers[k].has_provider by {
                let j = lemma_keyed_index(self.providers@, k);
                lemma_keyed_lookup(self.providers@, j);
                assert(self.providers@[j].provider is Some || self.providers@[j].demand_count == 0);
            }
        }
        true
    }

    /// Takes the provider of `type_id` out of its entry: `None` if the type is
    /// unregistered, `Some(None)` if its provider is already out.
    pub fn take_provider(&mut self, type_id: TypeId) -> (r: Option<Option<P>>)
        requires
            old(self).wf(),
        ensures
            final(self).wf(),
            final(self).events() == old(self).events(),
            final(self)@.dependents == old(self)@.dependents,
            match r {
                None => {
                    &&& !old(self)@.providers.contains_key(type_id)
                    &&& final(self)@ == old(self)@
                },
                Some(taken) => {
                    &&& old(self)@.providers.contains_key(type_id)
                    &&& taken == old(self).provider_of(type_id)
                    &&& (taken is Some <==> old(self)@.providers[type_id].has_provider)
                    &&& final(self)@.providers == old(self)@.providers.insert(
                        type_id,
                        with_provider(old(self)@.providers[type_id], false),
                    )
                },
            },
    {
        match self.find(&type_id) {
            Some(i) => {
                proof {
                    self.lemma_provider_of(i as int);
                }
                let taken = self.providers[i].provider.take();
                proof {
                    assert(self.providers@ =~= old(self).providers@.update(
                        i as int,
                        self.providers@[i as int],
                    ));
                    lemma_keyed_update(old(self).providers@, i as int, self.providers@[i as int]);
                    lemma_keyed_finite(self.providers@);
                    let q = keyed_map(self.providers@);
                    assert(deps_map(q) =~= deps_map(old(self)@.providers));
                }
                Some(taken)
            },
            None => None,
        }
    }

    /// Runs the provider of `type_id` on `ctx`: takes it out of its entry,
    /// calls its `produce`, and puts it back.
    pub fn run_provider<V>(&mut self, type_id: TypeId, ctx: &Context<V>) -> (r: V)
        where P: Provider<V>
        requires
            old(self).wf(),
            old(self)@.providers.contains_key(type_id),
            old(self)@.providers[type_id].has_provider,
        ensures
            final(self).wf(),
            final(self)@ == old(self)@,
            final(self).events() == old(self).events().push(Event::Produced(type_id)),
    {
        let i = self.find(&type_id).unwrap();
        proof {
            lemma_keyed_lookup(self.providers@, i as int);
        }
        let taken = self.providers[i].provider.take();
        let mut provider = taken.unwrap();
        let value = provider.produce(ctx);
        self.providers[i].provider = Some(provider);
        proof {
            self.events@ = self.events@.push(Event::Produced(type_id));
            assert(self.providers@ =~= old(self).providers@.update(
                i as int,
                self.providers@[i as int],
            ));
            lemma_keyed_update(old(self).providers@, i as int, self.providers@[i as int]);
            assert(keyed_map(self.providers@) =~= old(self)@.providers);
        }
        value
    }

    /// Puts `provider` back into the entry of `type_id`; does nothing (and
    /// drops it) if the type is not registered.
    pub fn restore_provider(&mut self, type_id: TypeId, provider: P)
        requires
            old(self).wf(),
        ensures
            final(self).wf(),
            final(self).events() == old(self).events(),
            final(self)@.dependents == old(self)@.dependents,
            old(self)@.providers.contains_key(type_id) ==> {
                &&& final(self)@.providers == old(self)@.providers.insert(
                    type_id,
                    with_provider(old(self)@.providers[type_id], true),
                )
                &&& final(self).provider_of(type_id) == Some(provider)
            },
            !old(self)@.providers.contains_key(type_id) ==> final(self)@ == old(self)@,
    {
        match self.find(&type_id) {
            Some(i) => {
                self.providers[i].provider = Some(provider);
                proof {
                    assert(self.providers@ =~= old(self).providers@.update(
                        i as int,
                        self.providers@[i as int],
                    ));
                    lemma_keyed_update(old(self).providers@, i as int, self.providers@[i as int]);
                    lemma_keyed_finite(self.providers@);
                    self.lemma_provider_of(i as int);
                    let q = keyed_map(self.providers@);
                    assert(deps_map(q) =~= deps_map(old(self)@.providers));
                }
            },
            None => {},
        }
    }

    /// Removes the entry of `type_id`, if any. The reverse dependency map
    /// keeps what it listed.
    pub fn remove_provider(&mut self, type_id: TypeId)
        requires
            old(self).wf(),
        ensures
            final(self).wf(),
            final(self).events() == old(self).events(),
            final(self)@ == (GraphView {
                providers: old(self)@.providers.remove(type_id),
                dependents: old(self)@.dependents,
            }),
    {
        match self.find(&type_id) {
            Some(i) => {
                proof {
                    lemma_keyed_remove(self.providers@, i as int);
                }
                let _removed = self.providers.remove(i);
                proof {
                    lemma_keyed_finite(self.providers@);
                    let q = keyed_map(self.providers@);
                    assert forall|a: TypeId, b: TypeId| #[trigger]
                        edge(deps_map(q), a, b) implies edge(self@.dependents, b, a) by {
                        assert(edge(deps_map(old(self)@.providers), a, b));
                    }
                    assert(deps_map(q) =~= deps_map(old(self)@.providers).remove(type_id));
                }
            },
            None => {
                assert(old(self)@.providers.remove(type_id) =~= old(self)@.providers);
            },
        }
    }

    /// Takes the provider of `type_id` out of its entry and drops it.
    pub fn null_provider(&mut self, type_id: TypeId)
        requires
            old(self).wf(),
        ensures
            final(self).wf(),
            final(self).events() == old(self).events(),
            final(self)@.dependents == old(self)@.dependents,
            old(self)@.providers.contains_key(type_id) ==> final(self)@.providers
                == old(self)@.providers.insert(
                type_id,
                with_provider(old(self)@.providers[type_id], false),
            ),
            !old(self)@.providers.contains_key(type_id) ==> final(self)@ == old(self)@,
    {
        let _dropped = self.take_provider(type_id);
    }

    /// Lists `dependent` under `dependency` in the reverse dependency map.
    pub fn add_dependent(&mut self, dependency: TypeId, dependent: TypeId)
        requires
            old(self).wf(),
        ensures
            final(self).wf(),
            final(self).events() == old(self).events(),
            final(self)@ == (GraphView {
                providers: old(self)@.providers,
                dependents: old(self)@.dependents.insert(
                    dependency,
                    list_of(old(self)@.dependents, dependency).push(dependent),
                ),
            }),
    {
        self.dependents.push_dependent(dependency, dependent);
        proof {
            lemma_with_dependent(old(self)@.dependents, seq![dependency], dependent);
            assert(seq![dependency].drop_last() =~= Seq::<TypeId>::empty());
            assert(with_dependent(old(self)@.dependents, Seq::<TypeId>::empty(), dependent)
                == old(self)@.dependents);
            assert(with_dependent(old(self)@.dependents, seq![dependency], dependent)
                == self@.dependents);
        }
    }
}

} // verus!
