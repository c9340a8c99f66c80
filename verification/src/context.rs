//! The values produced during one execution step, and production on demand.

use std::any::TypeId;
use vstd::prelude::*;

use crate::graph::{
    acyclic,
    edge,
    is_path,
    lemma_acyclic_no_loop,
    lemma_push_to_set,
    lemma_reaches_plus_step,
    reaches_plus,
};
use crate::inner::{deps_map, demanded, EntryView, Event, GraphView, PullGraphInner};
use crate::keyed::{
    keyed_map,
    keys_distinct,
    lemma_keyed_index,
    lemma_keyed_lookup,
    lemma_keyed_push,
    Keyed,
};
use crate::provider::Provider;
use crate::pullgraph::PullGraph;
use crate::type_key::{contains_key, same_type, type_id_of};

verus! {

broadcast use vstd::set::group_set_axioms, vstd::seq::group_seq_axioms, vstd::map::group_map_axioms;

/// A value produced for a type.
pub struct Produced<V> {
    type_id: TypeId,
    value: V,
}

impl<V> Keyed for Produced<V> {
    type Val = V;

    closed spec fn key(&self) -> TypeId {
        self.type_id
    }

    closed spec fn val(&self) -> V {
        self.value
    }
}

/// Owns values produced during one execution step.
pub struct Context<V> {
    produced: Vec<Produced<V>>,
    producing: Vec<TypeId>,
    returned: Ghost<Seq<(TypeId, V)>>,
}

/// Every type of `s` has its provider in place.
pub open spec fn providers_ready(p: Map<TypeId, EntryView>, s: Seq<TypeId>) -> bool {
    forall|i: int| 0 <= i < s.len() ==> #[trigger] p[s[i]].has_provider
}

/// Every type with demand has its provider in place.
pub open spec fn providers_present(p: Map<TypeId, EntryView>) -> bool {
    forall|k: TypeId| #[trigger] demanded(p, k) ==> p[k].has_provider
}

/// The types that producing `k` produces, in order, given the types already
/// produced (`done`) and those whose production is under way (`busy`):
/// nothing if `k` is produced, under way, or not demanded; otherwise what its
/// dependencies produce in turn, then `k`.
pub open spec fn production(
    p: Map<TypeId, EntryView>,
    done: Set<TypeId>,
    busy: Set<TypeId>,
    k: TypeId,
) -> Seq<TypeId>
    decreases p.dom().difference(busy).len(), 0nat, 0nat,
{
    if done.contains(k) || busy.contains(k) || !demanded(p, k) || !p.dom().finite() {
        seq![]
    } else {
        proof {
            lemma_busy_measure(p, busy, k);
        }
        production_all(p, done, busy.insert(k), p[k].dependencies).push(k)
    }
}

/// What producing each of `ds` in turn produces.
pub open spec fn production_all(
    p: Map<TypeId, EntryView>,
    done: Set<TypeId>,
    busy: Set<TypeId>,
    ds: Seq<TypeId>,
) -> Seq<TypeId>
    decreases p.dom().difference(busy).len(), 1nat, ds.len(),
{
    if ds.len() == 0 {
        seq![]
    } else {
        let first = production(p, done, busy, ds[0]);
        first + production_all(p, done + first.to_set(), busy, ds.drop_first())
    }
}

/// Marking a registered type as under way leaves fewer registered types that
/// are not.
pub proof fn lemma_busy_measure(p: Map<TypeId, EntryView>, busy: Set<TypeId>, k: TypeId)
    requires
        p.dom().finite(),
        p.contains_key(k),
        !busy.contains(k),
    ensures
        p.dom().difference(busy.insert(k)).len() < p.dom().difference(busy).len(),
{
    assert(p.dom().difference(busy.insert(k)) =~= p.dom().difference(busy).remove(k));
}

/// The production history entries for `s`.
pub open spec fn produced_events(s: Seq<TypeId>) -> Seq<Event> {
    s.map_values(|k: TypeId| Event::Produced(k))
}

/// Only demanded types are produced.
pub proof fn lemma_production_demanded(
    p: Map<TypeId, EntryView>,
    done: Set<TypeId>,
    busy: Set<TypeId>,
    k: TypeId,
)
    ensures
        forall|i: int|
            0 <= i < production(p, done, busy, k).len() ==> demanded(
                p,
                #[trigger] production(p, done, busy, k)[i],
            ),
    decreases p.dom().difference(busy).len(), 0nat, 0nat,
{
    if done.contains(k) || busy.contains(k) || !demanded(p, k) || !p.dom().finite() {
    } else {
        lemma_busy_measure(p, busy, k);
        lemma_production_all_demanded(p, done, busy.insert(k), p[k].dependencies);
        let inner = production_all(p, done, busy.insert(k), p[k].dependencies);
        assert forall|i: int| 0 <= i < inner.push(k).len() implies demanded(
            p,
            #[trigger] inner.push(k)[i],
        ) by {
            if i < inner.len() {
                assert(inner.push(k)[i] == inner[i]);
            }
        }
    }
}

pub proof fn lemma_production_all_demanded(
    p: Map<TypeId, EntryView>,
    done: Set<TypeId>,
    busy: Set<TypeId>,
    ds: Seq<TypeId>,
)
    ensures
        forall|i: int|
            0 <= i < production_all(p, done, busy, ds).len() ==> demanded(
                p,
                #[trigger] production_all(p, done, busy, ds)[i],
            ),
    decreases p.dom().difference(busy).len(), 1nat, ds.len(),
{
    if ds.len() > 0 {
        let first = production(p, done, busy, ds[0]);
        let rest = production_all(p, done + first.to_set(), busy, ds.drop_first());
        lemma_production_demanded(p, done, busy, ds[0]);
        lemma_production_all_demanded(p, done + first.to_set(), busy, ds.drop_first());
        let all = first + rest;
        assert forall|i: int| 0 <= i < all.len() implies demanded(p, #[trigger] all[i]) by {
            if i >= first.len() {
                assert(all[i] == rest[i - first.len()]);
            }
        }
    }
}

/// In `s`, every demanded dependency of each produced type is held before
/// it: in `done`, or produced earlier in `s`.
pub open spec fn deps_before(p: Map<TypeId, EntryView>, done: Set<TypeId>, s: Seq<TypeId>) -> bool {
    forall|i: int, d: TypeId|
        #![trigger s[i], p[s[i]].dependencies.contains(d)]
        0 <= i < s.len() && p[s[i]].dependencies.contains(d) && demanded(p, d) ==> done.contains(d)
            || s.take(i).contains(d)
}

/// Dependencies are produced before what depends on them, and a demanded
/// type is held once its production is over.
pub proof fn lemma_production_deps_first(
    p: Map<TypeId, EntryView>,
    done: Set<TypeId>,
    busy: Set<TypeId>,
    k: TypeId,
)
    requires
        p.dom().finite(),
        acyclic(deps_map(p)),
        forall|b: TypeId| #[trigger] busy.contains(b) ==> reaches_plus(deps_map(p), b, k),
    ensures
        deps_before(p, done, production(p, done, busy, k)),
        demanded(p, k) ==> done.contains(k) || production(p, done, busy, k).contains(k),
    decreases p.dom().difference(busy).len(), 0nat, 0nat,
{
    let s = production(p, done, busy, k);
    if busy.contains(k) {
        lemma_acyclic_no_loop(deps_map(p), k);
    }
    if done.contains(k) || busy.contains(k) || !demanded(p, k) {
    } else {
        lemma_busy_measure(p, busy, k);
        let ds = p[k].dependencies;
        let busy1 = busy.insert(k);
        assert forall|b: TypeId, j: int|
            busy1.contains(b) && 0 <= j < ds.len() implies #[trigger] reaches_plus(
            deps_map(p),
            b,
            ds[j],
        ) by {
            assert(edge(deps_map(p), k, ds[j]));
            if b == k {
                assert(is_path(deps_map(p), seq![k, ds[j]]));
            } else {
                lemma_reaches_plus_step(deps_map(p), b, k, ds[j]);
            }
        }
        lemma_production_all_deps_first(p, done, busy1, ds);
        let inner = production_all(p, done, busy1, ds);
        assert(s == inner.push(k));
        assert forall|i: int, d: TypeId|
            #![trigger s[i], p[s[i]].dependencies.contains(d)]
            0 <= i < s.len() && p[s[i]].dependencies.contains(d) && demanded(p, d) implies done.contains(d)
                || s.take(i).contains(d) by {
            if i < inner.len() {
                assert(s[i] == inner[i]);
                assert(s.take(i) =~= inner.take(i));
            } else {
                assert(s[i] == k);
                assert(s.take(i) =~= inner);
                let j = choose|j: int| 0 <= j < ds.len() && ds[j] == d;
                assert(demanded(p, ds[j]));
            }
        }
        assert(s[s.len() - 1] == k);
    }
}

pub proof fn lemma_production_all_deps_first(
    p: Map<TypeId, EntryView>,
    done: Set<TypeId>,
    busy: Set<TypeId>,
    ds: Seq<TypeId>,
)
    requires
        p.dom().finite(),
        acyclic(deps_map(p)),
        forall|b: TypeId, j: int|
            busy.contains(b) && 0 <= j < ds.len() ==> #[trigger] reaches_plus(deps_map(p), b, ds[j]),
    ensures
        deps_before(p, done, production_all(p, done, busy, ds)),
        forall|j: int|
            0 <= j < ds.len() && demanded(p, #[trigger] ds[j]) ==> done.contains(ds[j])
                || production_all(p, done, busy, ds).contains(ds[j]),
    decreases p.dom().difference(busy).len(), 1nat, ds.len(),
{
    if ds.len() > 0 {
        let first = production(p, done, busy, ds[0]);
        let done1 = done + first.to_set();
        let rest = production_all(p, done1, busy, ds.drop_first());
        let all = production_all(p, done, busy, ds);
        assert(all == first + rest);
        assert forall|b: TypeId| #[trigger] busy.contains(b) implies reaches_plus(deps_map(p), b, ds[0]) by {
            assert(reaches_plus(deps_map(p), b, ds[0]));
        }
        lemma_production_deps_first(p, done, busy, ds[0]);
        assert forall|b: TypeId, j: int|
            busy.contains(b) && 0 <= j < ds.drop_first().len() implies #[trigger] reaches_plus(
            deps_map(p),
            b,
            ds.drop_first()[j],
        ) by {
            assert(ds.drop_first()[j] == ds[j + 1]);
            assert(reaches_plus(deps_map(p), b, ds[j + 1]));
        }
        lemma_production_all_deps_first(p, done1, busy, ds.drop_first());
        assert forall|i: int, d: TypeId|
            #![trigger all[i], p[all[i]].dependencies.contains(d)]
            0 <= i < all.len() && p[all[i]].dependencies.contains(d) && demanded(p, d) implies done.contains(d)
                || all.take(i).contains(d) by {
            if i < first.len() {
                assert(all[i] == first[i]);
                assert(all.take(i) =~= first.take(i));
            } else {
                let r = i - first.len();
                assert(all[i] == rest[r]);
                assert(all.take(i) =~= first + rest.take(r));
                if done1.contains(d) && !done.contains(d) {
                    let m = choose|m: int| 0 <= m < first.len() && first[m] == d;
                    assert(all.take(i)[m] == d);
                } else if rest.take(r).contains(d) {
                    let m = choose|m: int| 0 <= m < rest.take(r).len() && rest.take(r)[m] == d;
                    assert(all.take(i)[first.len() + m] == d);
                }
            }
        }
        assert forall|j: int|
            0 <= j < ds.len() && demanded(p, #[trigger] ds[j]) implies done.contains(ds[j])
                || all.contains(ds[j]) by {
            if j == 0 {
                if first.contains(ds[0]) {
                    let m = choose|m: int| 0 <= m < first.len() && first[m] == ds[0];
                    assert(all[m] == ds[0]);
                }
            } else {
                assert(ds.drop_first()[j - 1] == ds[j]);
                if done1.contains(ds[j]) && !done.contains(ds[j]) {
                    let m = choose|m: int| 0 <= m < first.len() && first[m] == ds[j];
                    assert(all[m] == ds[j]);
                } else if rest.contains(ds[j]) {
                    let m = choose|m: int| 0 <= m < rest.len() && rest[m] == ds[j];
                    assert(all[first.len() + m] == ds[j]);
                }
            }
        }
    }
}

/// Each of `s` with the value `m` holds for it.
pub open spec fn results<V>(s: Seq<TypeId>, m: Map<TypeId, V>) -> Seq<(TypeId, V)> {
    s.map_values(|k: TypeId| (k, m[k]))
}

/// The types of a record of returned values, in order.
pub open spec fn run_keys<V>(r: Seq<(TypeId, V)>) -> Seq<TypeId> {
    r.map_values(|e: (TypeId, V)| e.0)
}

/// Two maps that agree on the elements of `s` give `s` the same results.
pub proof fn lemma_results_agree<V>(s: Seq<TypeId>, m1: Map<TypeId, V>, m2: Map<TypeId, V>)
    requires
        forall|i: int| 0 <= i < s.len() ==> m1[#[trigger] s[i]] == m2[s[i]],
    ensures
        results(s, m1) == results(s, m2),
{
    assert(results(s, m1) =~= results(s, m2));
}

/// One step of production on demand for `k`, from an idle context: the graph
/// is left as it was, its history gains one `produce` call per produced type,
/// in order, the context gains values for exactly those types, keeping the
/// values it had, and each new value is the one its provider returned.
pub open spec fn production_step<V>(
    c0: Map<TypeId, V>,
    c1: Map<TypeId, V>,
    r0: Seq<(TypeId, V)>,
    r1: Seq<(TypeId, V)>,
    g0: GraphView,
    g1: GraphView,
    e0: Seq<Event>,
    e1: Seq<Event>,
    k: TypeId,
) -> bool {
    let s = production(g0.providers, c0.dom(), Set::empty(), k);
    &&& g1 == g0
    &&& e1 == e0 + produced_events(s)
    &&& c1.dom() == c0.dom() + s.to_set()
    &&& forall|x: TypeId| #[trigger] c0.contains_key(x) ==> c1[x] == c0[x]
    &&& r1 == r0 + results(s, c1)
}

/// Nothing produced was already produced or under way, and nothing is
/// produced twice.
pub proof fn lemma_production_fresh(
    p: Map<TypeId, EntryView>,
    done: Set<TypeId>,
    busy: Set<TypeId>,
    k: TypeId,
)
    ensures
        forall|i: int|
            0 <= i < production(p, done, busy, k).len() ==> !done.contains(
                #[trigger] production(p, done, busy, k)[i],
            ) && !busy.contains(production(p, done, busy, k)[i]),
        production(p, done, busy, k).no_duplicates(),
    decreases p.dom().difference(busy).len(), 0nat, 0nat,
{
    if done.contains(k) || busy.contains(k) || !demanded(p, k) || !p.dom().finite() {
    } else {
        lemma_busy_measure(p, busy, k);
        lemma_production_all_fresh(p, done, busy.insert(k), p[k].dependencies);
    }
}

pub proof fn lemma_production_all_fresh(
    p: Map<TypeId, EntryView>,
    done: Set<TypeId>,
    busy: Set<TypeId>,
    ds: Seq<TypeId>,
)
    ensures
        forall|i: int|
            0 <= i < production_all(p, done, busy, ds).len() ==> !done.contains(
                #[trigger] production_all(p, done, busy, ds)[i],
            ) && !busy.contains(production_all(p, done, busy, ds)[i]),
        production_all(p, done, busy, ds).no_duplicates(),
    decreases p.dom().difference(busy).len(), 1nat, ds.len(),
{
    if ds.len() > 0 {
        let first = production(p, done, busy, ds[0]);
        let rest = production_all(p, done + first.to_set(), busy, ds.drop_first());
        lemma_production_fresh(p, done, busy, ds[0]);
        lemma_production_all_fresh(p, done + first.to_set(), busy, ds.drop_first());
        let all = first + rest;
        assert forall|i: int| 0 <= i < all.len() implies !done.contains(#[trigger] all[i])
            && !busy.contains(all[i]) by {
            if i >= first.len() {
                assert(all[i] == rest[i - first.len()]);
            }
        }
        assert forall|i: int, j: int|
            0 <= i < all.len() && 0 <= j < all.len() && i != j implies all[i] != all[j] by {
            if i < first.len() && j >= first.len() {
                assert(all[j] == rest[j - first.len()]);
                assert(first.to_set().contains(first[i]));
            } else if j < first.len() && i >= first.len() {
                assert(all[i] == rest[i - first.len()]);
                assert(first.to_set().contains(first[j]));
            } else if i >= first.len() && j >= first.len() {
                assert(all[i] == rest[i - first.len()]);
                assert(all[j] == rest[j - first.len()]);
            }
        }
    }
}

/// A production step keeps each type's provider to at most one run in the
/// context.
pub proof fn lemma_runs_once_step<V>(
    c0: Map<TypeId, V>,
    c1: Map<TypeId, V>,
    r0: Seq<(TypeId, V)>,
    r1: Seq<(TypeId, V)>,
    p: Map<TypeId, EntryView>,
    k: TypeId,
)
    requires
        c1.dom() == c0.dom() + production(p, c0.dom(), Set::empty(), k).to_set(),
        r1 == r0 + results(production(p, c0.dom(), Set::empty(), k), c1),
    ensures
        run_keys(r0).no_duplicates() && run_keys(r0).to_set() == c0.dom() ==> run_keys(
            r1,
        ).no_duplicates() && run_keys(r1).to_set() == c1.dom(),
{
    let s = production(p, c0.dom(), Set::empty(), k);
    if run_keys(r0).no_duplicates() && run_keys(r0).to_set() == c0.dom() {
        lemma_production_fresh(p, c0.dom(), Set::empty(), k);
        let a = run_keys(r0);
        assert(run_keys(results(s, c1)) =~= s);
        assert(run_keys(r1) =~= a + s);
        let t = a + s;
        assert forall|i: int, j: int| 0 <= i < t.len() && 0 <= j < t.len() && i != j implies t[i]
            != t[j] by {
            if i < a.len() && j >= a.len() {
                assert(a.to_set().contains(a[i]));
                assert(t[j] == s[j - a.len()]);
            } else if j < a.len() && i >= a.len() {
                assert(a.to_set().contains(a[j]));
                assert(t[i] == s[i - a.len()]);
            } else if i < a.len() {
                assert(t[i] == a[i] && t[j] == a[j]);
            } else {
                assert(t[i] == s[i - a.len()] && t[j] == s[j - a.len()]);
            }
        }
        vstd::seq_lib::seq_to_set_distributes_over_add(a, s);
    }
}

impl<V> Context<V> {
    /// The produced values by type.
    pub closed spec fn produced(&self) -> Map<TypeId, V> {
        keyed_map(self.produced@)
    }

    /// The types whose production is under way, outermost first.
    pub closed spec fn producing(&self) -> Seq<TypeId> {
        self.producing@
    }

    /// The values the providers returned in this context, in the order they
    /// ran, each with the type it was produced for.
    pub closed spec fn returned(&self) -> Seq<(TypeId, V)> {
        self.returned@
    }

    /// Every provider has run at most once in this context, and exactly for
    /// the types it holds values for.
    pub open spec fn runs_once(&self) -> bool {
        &&& run_keys(self.returned()).no_duplicates()
        &&& run_keys(self.returned()).to_set() == self.produced().dom()
    }

    /// The context's own invariant.
    pub closed spec fn wf(&self) -> bool {
        &&& keys_distinct(self.produced@)
    }

    /// A context with nothing produced.
    pub fn new() -> (r: Self)
        ensures
            r.wf(),
            r.produced() == Map::<TypeId, V>::empty(),
            r.producing() == Seq::<TypeId>::empty(),
            r.returned() == Seq::<(TypeId, V)>::empty(),
            r.runs_once(),
    {
        let r = Context { produced: Vec::new(), producing: Vec::new(), returned: Ghost(Seq::empty()) };
        assert(run_keys(r.returned()) =~= Seq::<TypeId>::empty());
        assert(run_keys(r.returned()).to_set() =~= Set::<TypeId>::empty());
        assert(r.produced() =~= Map::<TypeId, V>::empty());
        r
    }

    /// The index of the value produced for `k`, if any.
    fn find(&self, k: &TypeId) -> (r: Option<usize>)
        requires
            self.wf(),
        ensures
            match r {
                Some(i) => {
                    &&& i < self.produced@.len()
                    &&& self.produced@[i as int].type_id == *k
                    &&& self.produced().contains_key(*k)
                    &&& self.produced()[*k] == self.produced@[i as int].value
                },
                None => !self.produced().contains_key(*k),
            },
    {
        let mut i: usize = 0;
        while i < self.produced.len()
            invariant
                self.wf(),
                i <= self.produced@.len(),
                forall|j: int| 0 <= j < i ==> self.produced@[j].type_id != *k,
            decreases self.produced@.len() - i,
        {
            if same_type(&self.produced[i].type_id, k) {
                proof {
                    lemma_keyed_lookup(self.produced@, i as int);
                }
                return Some(i);
            }
            i = i + 1;
        }
        proof {
            if self.produced().contains_key(*k) {
                let j = lemma_keyed_index(self.produced@, *k);
                assert(self.produced@[j].type_id == *k);
            }
        }
        None
    }

    /// The value produced for `type_id` in this context, if any.
    pub fn get_key(&self, type_id: TypeId) -> (r: Option<&V>)
        requires
            self.wf(),
        ensures
            r is Some <==> self.produced().contains_key(type_id),
            r matches Some(v) ==> *v == self.produced()[type_id],
    {
        match self.find(&type_id) {
            Some(i) => Some(&self.produced[i].value),
            None => None,
        }
    }

    /// Read a previously produced value without triggering production.
    ///
    /// Returns the value produced for `T` in this context, `None` if there is
    /// none.
    pub fn get<T: 'static>(&self) -> (r: Option<&V>)
        requires
            self.wf(),
        ensures
            exists|k: TypeId|
                (r is Some <==> #[trigger] self.produced().contains_key(k)) && (r matches Some(v)
                    ==> *v == self.produced()[k]),
    {
        let type_id = type_id_of::<T>();
        self.get_key(type_id)
    }

    /// Produces `type_id` and, before it, what it depends on, unless already
    /// produced or not demanded. Returns whether a value for `type_id` is in
    /// the context afterwards.
    fn produce_inner<P: Provider<V>>(&mut self, graph: &mut PullGraphInner<P>, type_id: TypeId) -> (r: bool)
        requires
            old(self).wf(),
            old(graph).wf(),
            acyclic(deps_map(old(graph)@.providers)),
            providers_ready(
                old(graph)@.providers,
                production(
                    old(graph)@.providers,
                    old(self).produced().dom(),
                    old(self).producing().to_set(),
                    type_id,
                ),
            ),
            forall|i: int|
                0 <= i < old(self).producing().len() ==> reaches_plus(
                    deps_map(old(graph)@.providers),
                    #[trigger] old(self).producing()[i],
                    type_id,
                ),
        ensures
            final(self).wf(),
            final(graph).wf(),
            final(graph)@ == old(graph)@,
            final(self).producing() == old(self).producing(),
            ({
                let s = production(
                    old(graph)@.providers,
                    old(self).produced().dom(),
                    old(self).producing().to_set(),
                    type_id,
                );
                &&& final(graph).events() == old(graph).events() + produced_events(s)
                &&& final(self).produced().dom() == old(self).produced().dom() + s.to_set()
                &&& forall|x: TypeId| #[trigger]
                    old(self).produced().contains_key(x) ==> final(self).produced()[x] == old(
                        self,
                    ).produced()[x]
                &&& final(self).returned() == old(self).returned() + results(s, final(self).produced())
            }),
            r == (old(self).produced().contains_key(type_id) || demanded(
                old(graph)@.providers,
                type_id,
            )),
            r == final(self).produced().contains_key(type_id),
        decreases old(graph)@.providers.dom().difference(old(self).producing@.to_set()).len(),
    {
        let ghost p0 = graph@.providers;
        let ghost done0 = self.produced().dom();
        let ghost busy0 = self.producing@.to_set();
        let ghost ev0 = graph.events();
        let ghost s = production(p0, done0, busy0, type_id);
        if self.find(&type_id).is_some() {
            assert(s =~= Seq::<TypeId>::empty());
            assert(produced_events(s) =~= Seq::<Event>::empty());
            assert(done0 + s.to_set() =~= done0);
            return true;
        }
        if contains_key(&self.producing, &type_id) {
            proof {
                let i = choose|i: int| 0 <= i < self.producing@.len() && self.producing@[i] == type_id;
                assert(old(self).producing()[i] == type_id);
                assert(reaches_plus(deps_map(p0), old(self).producing()[i], type_id));
                graph.lemma_registry_ok();
                lemma_acyclic_no_loop(deps_map(p0), type_id);
            }
            assert(false);
            return false;
        }
        if !graph.is_demanded(type_id) {
            assert(s =~= Seq::<TypeId>::empty());
            assert(produced_events(s) =~= Seq::<Event>::empty());
            assert(done0 + s.to_set() =~= done0);
            return false;
        }
        let dependencies = graph.get_dependencies(type_id);
        proof {
            graph.lemma_registry_ok();
            lemma_push_to_set(self.producing@, type_id);
            lemma_busy_measure(p0, busy0, type_id);
        }
        self.producing.push(type_id);
        let ghost busy1 = busy0.insert(type_id);
        let ghost ds = dependencies@;
        let ghost mut pre: Seq<TypeId> = Seq::empty();
        proof {
            assert(ds.skip(0) =~= ds);
            assert(pre + production_all(p0, done0, busy1, ds) =~= production_all(p0, done0, busy1, ds));
            assert(done0 + pre.to_set() =~= done0);
            assert(produced_events(pre) =~= Seq::<Event>::empty());
            assert(ev0 + produced_events(pre) =~= ev0);
        }
        let mut j: usize = 0;
        while j < dependencies.len()
            invariant
                self.wf(),
                graph.wf(),
                graph@.providers == p0,
                graph@ == old(graph)@,
                acyclic(deps_map(p0)),
                providers_ready(p0, s),
                s == production_all(p0, done0, busy1, ds).push(type_id),
                p0.dom().finite(),
                demanded(p0, type_id),
                ds == dependencies@,
                ds == p0[type_id].dependencies,
                j <= ds.len(),
                self.producing@ == old(self).producing@.push(type_id),
                self.producing@.to_set() == busy1,
                busy1 == busy0.insert(type_id),
                !busy0.contains(type_id),
                !done0.contains(type_id),
                done0 == old(self).produced().dom(),
                p0.dom().difference(busy1).len() < p0.dom().difference(busy0).len(),
                busy0 == old(self).producing@.to_set(),
                forall|i: int|
                    0 <= i < old(self).producing().len() ==> reaches_plus(
                        deps_map(p0),
                        #[trigger] old(self).producing()[i],
                        type_id,
                    ),
                production_all(p0, done0, busy1, ds) == pre + production_all(
                    p0,
                    done0 + pre.to_set(),
                    busy1,
                    ds.skip(j as int),
                ),
                self.produced().dom() == done0 + pre.to_set(),
                forall|x: TypeId| #[trigger]
                    old(self).produced().contains_key(x) ==> self.produced()[x] == old(
                        self,
                    ).produced()[x],
                graph.events() == ev0 + produced_events(pre),
                self.returned() == old(self).returned() + results(pre, self.produced()),
            decreases ds.len() - j,
        {
            let dep = dependencies[j];
            let ghost piece = production(p0, done0 + pre.to_set(), busy1, dep);
            proof {
                assert(ds.skip(j as int)[0] == dep);
                assert(ds.skip(j as int).drop_first() =~= ds.skip(j + 1));
                assert(edge(deps_map(p0), type_id, dep)) by {
                    assert(ds[j as int] == dep);
                }
                assert forall|i: int|
                    0 <= i < self.producing@.len() implies reaches_plus(
                        deps_map(p0),
                        #[trigger] self.producing@[i],
                        dep,
                    ) by {
                    if i == self.producing@.len() - 1 {
                        let q = seq![type_id, dep];
                        assert(is_path(deps_map(p0), q));
                    } else {
                        assert(self.producing@[i] == old(self).producing()[i]);
                        lemma_reaches_plus_step(deps_map(p0), self.producing@[i], type_id, dep);
                    }
                }
            }
            proof {
                let rest = production_all(p0, done0 + pre.to_set() + piece.to_set(), busy1, ds.skip(j + 1));
                assert(production_all(p0, done0 + pre.to_set(), busy1, ds.skip(j as int)) == piece + rest);
                assert(s =~= (pre + piece + rest).push(type_id));
                assert forall|i: int| 0 <= i < piece.len() implies #[trigger] p0[piece[i]].has_provider by {
                    assert(s[pre.len() + i] == piece[i]);
                }
                assert(self.producing@.to_set() == busy1);
            }
            let ghost before = self.produced();
            let _ = self.produce_inner(graph, dep);
            proof {
                assert forall|i: int| 0 <= i < pre.len() implies before[#[trigger] pre[i]]
                    == self.produced()[pre[i]] by {
                    assert(pre.to_set().contains(pre[i]));
                    assert(before.contains_key(pre[i]));
                }
                lemma_results_agree(pre, before, self.produced());
                assert(results(pre + piece, self.produced()) =~= results(pre, self.produced())
                    + results(piece, self.produced()));
                assert(pre + piece + production_all(
                    p0,
                    done0 + pre.to_set() + piece.to_set(),
                    busy1,
                    ds.skip(j + 1),
                ) =~= pre + (piece + production_all(
                    p0,
                    done0 + pre.to_set() + piece.to_set(),
                    busy1,
                    ds.skip(j + 1),
                )));
                vstd::seq_lib::seq_to_set_distributes_over_add(pre, piece);
                assert(done0 + (pre + piece).to_set() =~= done0 + pre.to_set() + piece.to_set());
                assert(produced_events(pre + piece) =~= produced_events(pre) + produced_events(
                    piece,
                ));
                pre = pre + piece;
            }
            j = j + 1;
        }
        proof {
            assert(ds.skip(j as int) =~= Seq::<TypeId>::empty());
            assert(production_all(p0, done0, busy1, ds) =~= pre);
            assert(s == pre.push(type_id));
            lemma_production_all_fresh(p0, done0, busy1, ds);
        }
        assert(p0[s[s.len() - 1]].has_provider);
        let value = graph.run_provider(type_id, &*self);
        let ghost returned_value = value;
        self.producing.pop();
        assert(self.producing@ =~= old(self).producing@);
        {
            {
                let item = Produced { type_id, value };
                proof {
                    assert(!pre.to_set().contains(type_id)) by {
                        if pre.contains(type_id) {
                            let i = choose|i: int| 0 <= i < pre.len() && pre[i] == type_id;
                            assert(!busy1.contains(pre[i]));
                        }
                    }
                    lemma_keyed_push(self.produced@, item);
                }
                let ghost before = self.produced();
                self.produced.push(item);
                proof {
                    self.returned@ = self.returned@.push((type_id, returned_value));
                    assert forall|i: int| 0 <= i < pre.len() implies before[#[trigger] pre[i]]
                        == self.produced()[pre[i]] by {
                        assert(pre.to_set().contains(pre[i]));
                        assert(before.contains_key(pre[i]));
                        assert(pre[i] != type_id);
                    }
                    lemma_results_agree(pre, before, self.produced());
                    assert(self.produced()[type_id] == returned_value);
                    assert(results(s, self.produced()) =~= results(pre, self.produced()).push(
                        (type_id, returned_value),
                    ));
                    lemma_push_to_set(pre, type_id);
                    assert(self.produced().dom() =~= done0 + s.to_set());
                    assert(produced_events(s) =~= produced_events(pre).push(Event::Produced(type_id)));
                    assert(graph.events() =~= ev0 + produced_events(s));
                }
                true
            }
        }
    }

    /// Produce the value for `type_id` if it is demanded, after what it
    /// depends on; returns the value held for `type_id` afterwards.
    ///
    /// Production is idempotent within a context: what is already produced
    /// is neither produced again nor replaced.
    pub fn produce_key<P: Provider<V>>(&mut self, graph: &mut PullGraph<P, V>, type_id: TypeId) -> (r: Option<&V>)
        requires
            old(self).wf(),
            old(self).producing() == Seq::<TypeId>::empty(),
            old(graph).wf(),
            providers_ready(
                old(graph)@.providers,
                production(old(graph)@.providers, old(self).produced().dom(), Set::empty(), type_id),
            ),
        ensures
            final(self).wf(),
            final(self).producing() == Seq::<TypeId>::empty(),
            final(graph).wf(),
            production_step(
                old(self).produced(),
                final(self).produced(),
                old(self).returned(),
                final(self).returned(),
                old(graph)@,
                final(graph)@,
                old(graph).events(),
                final(graph).events(),
                type_id,
            ),
            r is Some <==> (old(self).produced().contains_key(type_id) || demanded(
                old(graph)@.providers,
                type_id,
            )),
            r is Some <==> final(self).produced().contains_key(type_id),
            r matches Some(v) ==> *v == final(self).produced()[type_id],
            old(self).runs_once() ==> final(self).runs_once(),
    {
        proof {
            graph.lemma_registry();
            graph.lemma_registry_field();
            assert(self.producing@.to_set() =~= Set::<TypeId>::empty());
        }
        self.produce_inner(&mut graph.inner, type_id);
        proof {
            graph.lemma_registry();
            graph.lemma_registry_field();
            lemma_runs_once_step(
                old(self).produced(),
                self.produced(),
                old(self).returned(),
                self.returned(),
                old(graph)@.providers,
                type_id,
            );
        }
        self.get_key(type_id)
    }

    /// Produce a value of type `T` if it is demanded.
    ///
    /// Returns the value if it was produced or was already held in this
    /// context; `None` if `T` has no active demand. Dependencies are produced
    /// first, and calling `produce::<T>()` twice runs the provider once.
    pub fn produce<T: 'static, P: Provider<V>>(&mut self, graph: &mut PullGraph<P, V>) -> (r: Option<&V>)
        requires
            old(self).wf(),
            old(self).producing() == Seq::<TypeId>::empty(),
            old(graph).wf(),
            providers_present(old(graph)@.providers),
        ensures
            final(self).wf(),
            final(self).producing() == Seq::<TypeId>::empty(),
            final(graph).wf(),
            exists|k: TypeId|
                #[trigger] production_step(
                    old(self).produced(),
                    final(self).produced(),
                    old(self).returned(),
                    final(self).returned(),
                    old(graph)@,
                    final(graph)@,
                    old(graph).events(),
                    final(graph).events(),
                    k,
                ) && (r is Some <==> (old(self).produced().contains_key(k) || demanded(
                    old(graph)@.providers,
                    k,
                ))) && (r is Some <==> final(self).produced().contains_key(k)) && (r matches Some(v)
                    ==> *v == final(self).produced()[k]),
            old(self).runs_once() ==> final(self).runs_once(),
    {
        let type_id = type_id_of::<T>();
        proof {
            lemma_production_demanded(graph@.providers, self.produced().dom(), Set::empty(), type_id);
            let q = production(graph@.providers, self.produced().dom(), Set::empty(), type_id);
            assert forall|i: int| 0 <= i < q.len() implies #[trigger] graph@.providers[q[i]].has_provider by {
                assert(demanded(graph@.providers, q[i]));
            }
        }
        self.produce_key(graph, type_id)
    }
}

} // verus!
