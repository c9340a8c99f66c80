//! Properties of the registry that hold across its operations.

use std::any::TypeId;
use vstd::prelude::*;

use crate::activation::{
    activation_event,
    activations,
    bump,
    bump_all,
    deactivation_event,
    deactivations,
    demand_closed,
    lemma_acquired_deps,
    lemma_acquired_nonempty,
    lemma_acquired_reach,
    lemma_activations_concat,
    lemma_bump_all,
    lemma_occ_single,
    lemma_deactivations_concat,
    lemma_occ_bounds,
    lemma_occ_concat,
    lemma_single,
    occ,
    unbump,
    unbump_all,
};
use crate::accounting::{accounted, held, held_by};
use crate::context::{
    deps_before,
    lemma_production_deps_first,
    lemma_production_fresh,
    lemma_results_agree,
    produced_events,
    production,
    production_step,
    results,
};
use crate::error::PullGraphError;
use crate::pullgraph::registration_result;
use crate::graph::{
    acyclic,
    edge,
    is_path,
    lemma_acyclic_no_loop,
    lemma_insert_acyclic,
    lemma_path_reverse,
    reaches,
};
use crate::inner::{
    acquire_ok,
    acquisition,
    count,
    covered,
    demanded,
    deps_map,
    graph_ok,
    lemma_with_dependent,
    registry_ok,
    no_cycle_through,
    registered_with,
    release_ok,
    release_sequence,
    GraphView,
};

verus! {

broadcast use vstd::set::group_set_axioms, vstd::seq::group_seq_axioms, vstd::map::group_map_axioms;

/// Registering a new type keeps the registry's invariant, whatever its
/// dependencies.
pub proof fn lemma_registration_shape(g: GraphView, k: TypeId, deps: Seq<TypeId>)
    requires
        registry_ok(g),
        !g.providers.contains_key(k),
    ensures
        registry_ok(registered_with(g, k, deps)),
        deps_map(registered_with(g, k, deps).providers) == deps_map(g.providers).insert(k, deps),
{
    let g1 = registered_with(g, k, deps);
    lemma_with_dependent(g.dependents, deps, k);
    assert forall|a: TypeId, b: TypeId| #[trigger]
        edge(deps_map(g1.providers), a, b) implies edge(g1.dependents, b, a) by {
        if a == k {
            let j = choose|j: int| 0 <= j < deps.len() && deps[j] == b;
            assert(edge(g1.dependents, deps[j], k));
        } else {
            assert(edge(deps_map(g.providers), a, b));
        }
    }
    assert(covered(g1));
    assert(deps_map(g1.providers) =~= deps_map(g.providers).insert(k, deps));
}

/// Registering a new type whose dependencies pass the cycle check keeps the
/// registry's invariant; in particular its dependency graph stays acyclic
/// ("dependency cycles are caught at registration time").
pub proof fn law_registration_keeps_acyclic(g: GraphView, k: TypeId, deps: Seq<TypeId>)
    requires
        graph_ok(g),
        !g.providers.contains_key(k),
        no_cycle_through(g, k, deps),
    ensures
        graph_ok(registered_with(g, k, deps)),
        acyclic(deps_map(registered_with(g, k, deps).providers)),
{
    lemma_registration_shape(g, k, deps);
    assert forall|i: int| 0 <= i < deps.len() implies !reaches(
        deps_map(g.providers),
        #[trigger] deps[i],
        k,
    ) by {
        let d = deps[i];
        if reaches(deps_map(g.providers), d, k) {
            let p = choose|p: Seq<TypeId>| #[trigger]
                is_path(deps_map(g.providers), p) && p[0] == d && p.last() == k;
            lemma_path_reverse(deps_map(g.providers), g.dependents, p);
            assert(reaches(g.dependents, k, d));
        }
    }
    lemma_insert_acyclic(deps_map(g.providers), k, deps);
}

/// Releasing a demand on a type that holds other references drops only that
/// one reference: nothing else changes and no provider is deactivated, so
/// another live demand keeps the type's dependency chain as it was
/// ("cloning acquires an independent reference").
pub proof fn law_release_keeps_other_references(g: GraphView, k: TypeId)
    requires
        g.providers.contains_key(k),
        g.providers[k].demand_count >= 2,
    ensures
        release_sequence(g, k) == seq![k],
        release_ok(g, k),
        unbump_all(g.providers, release_sequence(g, k)) == unbump(g.providers, k),
        deactivations(g.providers, release_sequence(g, k)) == Seq::<crate::inner::Event>::empty(),
{
    let p = g.providers;
    lemma_single(p, k);
    lemma_occ_single(k, k);
    assert forall|x: TypeId| #[trigger] p.contains_key(x) implies occ(seq![k], x) <= p[x].demand_count by {
        lemma_occ_single(k, x);
    }
    assert(deactivation_event(p, k) =~= Seq::<crate::inner::Event>::empty());
}

/// Demanding a type and then releasing that demand restores every entry when
/// the type already had demand.
pub proof fn law_release_undoes_repeat_demand(g: GraphView, k: TypeId)
    requires
        graph_ok(g),
        acquire_ok(g, k),
        g.providers.contains_key(k),
        g.providers[k].demand_count >= 1,
    ensures
        ({
            let q = bump_all(g.providers, acquisition(g, k));
            let h = GraphView { providers: q, dependents: g.dependents };
            &&& release_ok(h, k)
            &&& unbump_all(q, release_sequence(h, k)) == g.providers
        }),
{
    let p = g.providers;
    let f = crate::activation::zero_set(p).len();
    assert(acquisition(g, k) == seq![k]);
    lemma_single(p, k);
    let q = bump(p, k);
    let h = GraphView { providers: q, dependents: g.dependents };
    law_release_keeps_other_references(h, k);
    assert(unbump(q, k) =~= p);
}

/// Demanding a type adds exactly one demand reference to it, and it is then
/// demanded.
pub proof fn law_want_counts_once(g: GraphView, k: TypeId)
    requires
        graph_ok(g),
        acquire_ok(g, k),
    ensures
        count(bump_all(g.providers, acquisition(g, k)), k) == count(g.providers, k) + 1,
        demanded(bump_all(g.providers, acquisition(g, k)), k),
{
    let p = g.providers;
    let s = acquisition(g, k);
    let f = crate::activation::zero_set(p).len();
    lemma_acquired_nonempty(p, k, f);
    lemma_acquired_reach(p, k, f);
    let rest = s.skip(1);
    assert(s =~= seq![k] + rest);
    assert(!rest.contains(k)) by {
        if rest.contains(k) {
            let i = choose|i: int| 0 <= i < rest.len() && rest[i] == k;
            assert(s[i + 1] == k);
            lemma_acyclic_no_loop(deps_map(p), k);
        }
    }
    lemma_occ_bounds(rest, k);
    lemma_occ_concat(seq![k], rest, k);
    assert(occ(seq![k], k) == 1) by {
        assert(seq![k].drop_last() =~= Seq::<TypeId>::empty());
        assert(occ(Seq::<TypeId>::empty(), k) == 0);
    }
    lemma_bump_all(p, s);
    assert(p.contains_key(s[0]));
}

/// With demand closed under dependencies (every demanded type's
/// dependencies are demanded), demand reaches everything a demanded type
/// depends on, directly or not.
pub proof fn law_closed_demand_reaches(p: Map<TypeId, crate::inner::EntryView>, k: TypeId, x: TypeId)
    requires
        demand_closed(p),
        demanded(p, k),
        reaches(deps_map(p), k, x),
    ensures
        demanded(p, x),
{
    let path = choose|path: Seq<TypeId>| #[trigger]
        is_path(deps_map(p), path) && path[0] == k && path.last() == x;
    lemma_closed_prefix(p, path, path.len() - 1);
}

proof fn lemma_closed_prefix(p: Map<TypeId, crate::inner::EntryView>, path: Seq<TypeId>, i: int)
    requires
        demand_closed(p),
        is_path(deps_map(p), path),
        demanded(p, path[0]),
        0 <= i < path.len(),
    ensures
        demanded(p, path[i]),
    decreases i,
{
    if i > 0 {
        lemma_closed_prefix(p, path, i - 1);
        assert(edge(deps_map(p), path[i - 1], path[i]));
        assert(p[path[i - 1]].dependencies.contains(path[i]));
    }
}

/// Demanding a type keeps demand closed under dependencies, so that
/// everything the type depends on, directly or not, is demanded afterwards
/// ("demanding a derived value activates its entire dependency chain").
pub proof fn law_want_activates_dependencies(g: GraphView, k: TypeId, x: TypeId)
    requires
        graph_ok(g),
        acquire_ok(g, k),
        demand_closed(g.providers),
        reaches(deps_map(g.providers), k, x),
    ensures
        demand_closed(bump_all(g.providers, acquisition(g, k))),
        demanded(bump_all(g.providers, acquisition(g, k)), x),
{
    let p = g.providers;
    let s = acquisition(g, k);
    let q = bump_all(p, s);
    let f = crate::activation::zero_set(p).len();
    lemma_acquired_deps(p, k, f);
    lemma_bump_all(p, s);
    assert forall|a: TypeId, d: TypeId|
        #![trigger demanded(q, a), q[a].dependencies.contains(d)]
        demanded(q, a) && q[a].dependencies.contains(d) implies demanded(q, d) by {
        assert(p.contains_key(a));
        assert(q[a].dependencies == p[a].dependencies);
        if p[a].demand_count > 0 {
            assert(demanded(p, a));
            assert(demanded(p, d));
        } else {
            lemma_occ_bounds(s, a);
            assert(s.contains(a));
            assert(s.contains(d));
            lemma_occ_bounds(s, d);
            let i = choose|i: int| 0 <= i < s.len() && s[i] == d;
            assert(p.contains_key(s[i]));
        }
    }
    law_want_counts_once(g, k);
    crate::activation::lemma_deps_map_bump_all(p, s);
    law_closed_demand_reaches(q, k, x);
}

/// The provider of a type without demand is activated first when the type is
/// demanded.
pub proof fn law_activate_on_first_demand(g: GraphView, k: TypeId)
    requires
        g.providers.contains_key(k),
        g.providers[k].demand_count == 0,
        g.providers[k].has_provider,
    ensures
        activations(g.providers, acquisition(g, k)).len() >= 1,
        activations(g.providers, acquisition(g, k))[0] == crate::inner::Event::Activated(k),
{
    let p = g.providers;
    let s = acquisition(g, k);
    let f = crate::activation::zero_set(p).len();
    lemma_acquired_nonempty(p, k, f);
    assert(s =~= seq![k] + s.skip(1));
    lemma_activations_concat(p, seq![k], s.skip(1));
    lemma_single(p, k);
    assert(activation_event(p, k) == seq![crate::inner::Event::Activated(k)]);
}

/// Production is idempotent within a context: after producing a type, a
/// second request produces nothing more.
pub proof fn law_production_idempotent(
    p: Map<TypeId, crate::inner::EntryView>,
    done: Set<TypeId>,
    k: TypeId,
)
    requires
        p.dom().finite(),
    ensures
        ({
            let done1 = done + production(p, done, Set::empty(), k).to_set();
            &&& (done.contains(k) || demanded(p, k)) ==> done1.contains(k)
            &&& production(p, done1, Set::empty(), k) == Seq::<TypeId>::empty()
        }),
{
    let s = production(p, done, Set::empty(), k);
    let done1 = done + s.to_set();
    if !done.contains(k) && demanded(p, k) {
        assert(s[s.len() - 1] == k);
        assert(s.to_set().contains(k));
    }
    if !done1.contains(k) {
        if demanded(p, k) {
            assert(false);
        }
    }
}

/// Only demanded types are produced, each at most once, and never one the
/// context already holds.
pub proof fn law_production_only_demanded(
    p: Map<TypeId, crate::inner::EntryView>,
    done: Set<TypeId>,
    k: TypeId,
)
    ensures
        forall|i: int|
            0 <= i < production(p, done, Set::empty(), k).len() ==> demanded(
                p,
                #[trigger] production(p, done, Set::empty(), k)[i],
            ) && !done.contains(production(p, done, Set::empty(), k)[i]),
        production(p, done, Set::empty(), k).no_duplicates(),
{
    crate::context::lemma_production_fresh(p, done, Set::empty(), k);
    crate::context::lemma_production_demanded(p, done, Set::empty(), k);
}

/// Producing a type produces its demanded dependencies before it ("a
/// provider can read its dependencies' values"): every demanded dependency of
/// each produced type is already held or produced earlier, and a demanded
/// type is held once its production is over.
pub proof fn law_dependencies_produced_first(g: GraphView, done: Set<TypeId>, k: TypeId)
    requires
        graph_ok(g),
    ensures
        deps_before(g.providers, done, production(g.providers, done, Set::empty(), k)),
        demanded(g.providers, k) ==> done.contains(k) || production(
            g.providers,
            done,
            Set::empty(),
            k,
        ).contains(k),
{
    lemma_production_deps_first(g.providers, done, Set::empty(), k);
}

/// Releasing the last demand reference to a type calls that type's
/// `deactivate` first ("deactivate is called when demand reaches zero"),
/// and then releases its dependencies.
pub proof fn law_deactivate_on_last_release(g: GraphView, k: TypeId)
    requires
        g.providers.contains_key(k),
        g.providers[k].demand_count == 1,
        g.providers[k].has_provider,
    ensures
        release_sequence(g, k)[0] == k,
        deactivations(g.providers, release_sequence(g, k)).len() >= 1,
        deactivations(g.providers, release_sequence(g, k))[0] == crate::inner::Event::Deactivated(k),
{
    let p = g.providers;
    let s = release_sequence(g, k);
    let f = crate::activation::live_set(p).len();
    crate::activation::lemma_released_nonempty(p, k, f);
    assert(s =~= seq![k] + s.skip(1));
    lemma_deactivations_concat(p, seq![k], s.skip(1));
    lemma_single(p, k);
    assert(deactivation_event(p, k) == seq![crate::inner::Event::Deactivated(k)]);
}

/// Over two production calls on one context, no type is produced twice and
/// none that the context held before: the history and the returned values
/// are those of the two productions one after the other, and what the first
/// call produced keeps its value.
pub proof fn law_production_sequence<V>(
    c0: Map<TypeId, V>,
    c1: Map<TypeId, V>,
    c2: Map<TypeId, V>,
    r0: Seq<(TypeId, V)>,
    r1: Seq<(TypeId, V)>,
    r2: Seq<(TypeId, V)>,
    g: GraphView,
    e0: Seq<crate::inner::Event>,
    e1: Seq<crate::inner::Event>,
    e2: Seq<crate::inner::Event>,
    k1: TypeId,
    k2: TypeId,
)
    requires
        production_step(c0, c1, r0, r1, g, g, e0, e1, k1),
        production_step(c1, c2, r1, r2, g, g, e1, e2, k2),
    ensures
        ({
            let s1 = production(g.providers, c0.dom(), Set::empty(), k1);
            let s2 = production(g.providers, c1.dom(), Set::empty(), k2);
            &&& (s1 + s2).no_duplicates()
            &&& forall|i: int| 0 <= i < (s1 + s2).len() ==> !c0.contains_key(#[trigger] (s1 + s2)[i])
            &&& e2 == e0 + produced_events(s1 + s2)
            &&& r2 == r0 + results(s1 + s2, c2)
            &&& forall|x: TypeId| #[trigger] c1.contains_key(x) ==> c2[x] == c1[x]
        }),
{
    let p = g.providers;
    let s1 = production(p, c0.dom(), Set::empty(), k1);
    let s2 = production(p, c1.dom(), Set::empty(), k2);
    lemma_production_fresh(p, c0.dom(), Set::empty(), k1);
    lemma_production_fresh(p, c1.dom(), Set::empty(), k2);
    let t = s1 + s2;
    assert forall|i: int, j: int| 0 <= i < t.len() && 0 <= j < t.len() && i != j implies t[i] != t[j] by {
        if i < s1.len() && j >= s1.len() {
            assert(c1.contains_key(s1[i]));
            assert(t[j] == s2[j - s1.len()]);
        } else if j < s1.len() && i >= s1.len() {
            assert(c1.contains_key(s1[j]));
            assert(t[i] == s2[i - s1.len()]);
        } else if i < s1.len() {
            assert(t[i] == s1[i] && t[j] == s1[j]);
        } else {
            assert(t[i] == s2[i - s1.len()] && t[j] == s2[j - s1.len()]);
        }
    }
    assert forall|i: int| 0 <= i < t.len() implies !c0.contains_key(#[trigger] t[i]) by {
        if i >= s1.len() {
            assert(t[i] == s2[i - s1.len()]);
        } else {
            assert(t[i] == s1[i]);
        }
    }
    assert(produced_events(t) =~= produced_events(s1) + produced_events(s2));
    assert forall|i: int| 0 <= i < s1.len() implies c1[#[trigger] s1[i]] == c2[s1[i]] by {
        assert(c1.contains_key(s1[i]));
    }
    lemma_results_agree(s1, c1, c2);
    assert(results(t, c2) =~= results(s1, c2) + results(s2, c2));
}

/// An empty registry is accounted, with no live demand.
pub proof fn law_accounted_empty()
    ensures
        accounted(Map::<TypeId, crate::inner::EntryView>::empty(), Map::<TypeId, nat>::empty()),
{
    assert(Map::<TypeId, crate::inner::EntryView>::empty().dom() =~= Map::<TypeId, nat>::empty().dom());
}

/// Registering a new type keeps the registry accounted, with no live demand
/// on the new type.
pub proof fn law_registration_accounted(g: GraphView, live: Map<TypeId, nat>, k: TypeId, deps: Seq<TypeId>)
    requires
        accounted(g.providers, live),
        !g.providers.contains_key(k),
    ensures
        accounted(registered_with(g, k, deps).providers, live.insert(k, 0)),
{
    let p = g.providers;
    let q = registered_with(g, k, deps).providers;
    let l = live.insert(k, 0);
    assert(q.dom() =~= p.dom().insert(k));
    assert(l.dom() =~= q.dom());
    assert forall|x: TypeId| #[trigger] q.contains_key(x) implies q[x].demand_count == l[x] + held(q, x) by {
        crate::accounting::lemma_held_over_remove(q, q.dom(), k, x);
        assert(q.dom().remove(k) =~= p.dom());
        crate::accounting::lemma_held_over_congruent(q, p, p.dom(), x);
        if x == k {
            assert forall|t: TypeId| #[trigger] p.dom().contains(t) implies held_by(p, t, k) == 0 by {
                if p[t].demand_count > 0 {
                    lemma_occ_bounds(p[t].dependencies, k);
                    if p[t].dependencies.contains(k) {
                        assert(p.contains_key(k));
                    }
                }
            }
            crate::accounting::lemma_held_over_zero(p, p.dom(), k);
        }
    }
    assert forall|t: TypeId, d: TypeId|
        #![trigger q[t].dependencies.contains(d)]
        q.contains_key(t) && q[t].demand_count > 0 && q[t].dependencies.contains(d) implies q.contains_key(
            d,
        ) by {
        assert(t != k);
        assert(p[t].dependencies.contains(d));
    }
}

/// Demanding a type keeps the registry accounted, with one more live demand
/// on the type.
pub proof fn law_want_accounted(g: GraphView, live: Map<TypeId, nat>, k: TypeId)
    requires
        accounted(g.providers, live),
        acquire_ok(g, k),
        g.providers.contains_key(k),
    ensures
        accounted(
            bump_all(g.providers, acquisition(g, k)),
            live.insert(k, live[k] + 1),
        ),
{
    let p = g.providers;
    let l = live.insert(k, live[k] + 1);
    let f = crate::activation::zero_set(p).len();
    let e = Seq::<TypeId>::empty();
    assert forall|x: TypeId| #[trigger] p.contains_key(x) implies p[x].demand_count + occ(e, x) + occ(
        seq![k],
        x,
    ) == l[x] + held(p, x) by {
        lemma_occ_single(k, x);
    }
    crate::accounting::lemma_acquired_accounted(p, l, e, k, f);
    lemma_bump_all(p, acquisition(g, k));
    assert(l.dom() =~= p.dom());
}

/// Releasing one live demand on a type is always possible and keeps the
/// registry accounted, with one live demand fewer on the type.
pub proof fn law_release_accounted(g: GraphView, live: Map<TypeId, nat>, k: TypeId)
    requires
        accounted(g.providers, live),
        g.providers.contains_key(k),
        live[k] >= 1,
    ensures
        release_ok(g, k),
        accounted(
            unbump_all(g.providers, release_sequence(g, k)),
            live.insert(k, (live[k] - 1) as nat),
        ),
{
    let p = g.providers;
    let l = live.insert(k, (live[k] - 1) as nat);
    let f = crate::activation::live_set(p).len();
    let e = Seq::<TypeId>::empty();
    assert forall|x: TypeId| #[trigger] p.contains_key(x) implies p[x].demand_count == l[x] + held(p, x)
        + occ(e, x) + occ(seq![k], x) by {
        lemma_occ_single(k, x);
    }
    crate::accounting::lemma_released_accounted(p, l, e, k, f);
    crate::activation::lemma_unbump_all_le(p, release_sequence(g, k));
    assert(l.dom() =~= p.dom());
}

/// In an accounted registry every count covers the live demands on its type,
/// and every demanded type's dependencies are demanded: as long as a demand
/// lives, its whole dependency chain stays active ("demanding a derived value
/// activates its entire dependency chain").
pub proof fn law_accounted_demand_closed(p: Map<TypeId, crate::inner::EntryView>, live: Map<TypeId, nat>)
    requires
        accounted(p, live),
    ensures
        demand_closed(p),
        forall|x: TypeId| #[trigger] p.contains_key(x) ==> p[x].demand_count >= live[x],
{
    assert forall|x: TypeId, d: TypeId|
        #![trigger demanded(p, x), p[x].dependencies.contains(d)]
        demanded(p, x) && p[x].dependencies.contains(d) implies demanded(p, d) by {
        assert(p.contains_key(d));
        crate::accounting::lemma_held_over_remove(p, p.dom(), x, d);
        lemma_occ_bounds(p[x].dependencies, d);
    }
}

/// In an accounted registry, everything a demanded type depends on, directly
/// or not, is demanded.
pub proof fn law_accounted_chain_demanded(
    p: Map<TypeId, crate::inner::EntryView>,
    live: Map<TypeId, nat>,
    k: TypeId,
    x: TypeId,
)
    requires
        accounted(p, live),
        demanded(p, k),
        reaches(deps_map(p), k, x),
    ensures
        demanded(p, x),
{
    law_accounted_demand_closed(p, live);
    law_closed_demand_reaches(p, k, x);
}

/// Releasing a demand right after making it restores every entry, whether
/// the type had demand before or not ("dropping a demand releases it and
/// deactivates what is no longer needed"): in an accounted registry with an
/// acyclic dependency graph, the live demands fix every count.
pub proof fn law_release_undoes_want(g: GraphView, live: Map<TypeId, nat>, k: TypeId)
    requires
        graph_ok(g),
        accounted(g.providers, live),
        g.providers.contains_key(k),
        acquire_ok(g, k),
    ensures
        ({
            let q = bump_all(g.providers, acquisition(g, k));
            let h = GraphView { providers: q, dependents: g.dependents };
            &&& release_ok(h, k)
            &&& unbump_all(q, release_sequence(h, k)) == g.providers
        }),
{
    let p = g.providers;
    let s = acquisition(g, k);
    let q = bump_all(p, s);
    let h = GraphView { providers: q, dependents: g.dependents };
    let l1 = live.insert(k, live[k] + 1);
    law_want_accounted(g, live, k);
    lemma_bump_all(p, s);
    assert(q.contains_key(k));
    law_release_accounted(h, l1, k);
    let rs = release_sequence(h, k);
    let r = unbump_all(q, rs);
    assert(l1.insert(k, (l1[k] - 1) as nat) =~= live);
    crate::activation::lemma_unbump_all(q, rs);
    crate::inner::lemma_registry_ok_bump_all(g, s);
    crate::inner::lemma_registry_ok_unbump_all(h, rs);
    assert forall|x: TypeId| #[trigger] p.contains_key(x) implies r[x] == p[x] by {
        crate::accounting::lemma_accounted_count_unique(p, r, live, x);
    }
    assert(r =~= p);
}

/// Two registration outcomes agree: the same variant with the same key or
/// the same reported pair.
pub open spec fn same_outcome(r1: Result<TypeId, PullGraphError>, r2: Result<TypeId, PullGraphError>) -> bool {
    match (r1, r2) {
        (Ok(a), Ok(b)) => a == b,
        (Err(PullGraphError::AlreadyRegistered(a)), Err(PullGraphError::AlreadyRegistered(b))) => a
            == b,
        (Err(PullGraphError::NoProvider(a)), Err(PullGraphError::NoProvider(b))) => a == b,
        (Err(PullGraphError::DependencyCycle(v)), Err(PullGraphError::DependencyCycle(w))) => v@
            == w@,
        _ => false,
    }
}

/// Registration is determined by the registry, the key and the dependency
/// keys: `provide_with_deps` and `derive`, which both register as
/// `registration_result` says, give the same outcome and leave the same
/// registry when called for the same key and dependencies on equal graphs.
pub proof fn law_registration_deterministic(
    g: GraphView,
    g1: GraphView,
    g2: GraphView,
    k: TypeId,
    ks: Seq<TypeId>,
    r1: Result<TypeId, PullGraphError>,
    r2: Result<TypeId, PullGraphError>,
)
    requires
        registration_result(g, g1, k, ks, r1),
        registration_result(g, g2, k, ks, r2),
    ensures
        same_outcome(r1, r2),
        g1 == g2,
{
    match (r1, r2) {
        (Err(PullGraphError::DependencyCycle(v)), Err(PullGraphError::DependencyCycle(w))) => {
            let i = choose|i: int|
                0 <= i < ks.len() && v@ == seq![k, ks[i]] && reaches(g.dependents, k, #[trigger] ks[i])
                    && forall|j: int| 0 <= j < i ==> !reaches(g.dependents, k, #[trigger] ks[j]);
            let i2 = choose|i: int|
                0 <= i < ks.len() && w@ == seq![k, ks[i]] && reaches(g.dependents, k, #[trigger] ks[i])
                    && forall|j: int| 0 <= j < i ==> !reaches(g.dependents, k, #[trigger] ks[j]);
            if i < i2 {
                assert(!reaches(g.dependents, k, ks[i]));
            }
            if i2 < i {
                assert(!reaches(g.dependents, k, ks[i2]));
            }
        },
        (Err(PullGraphError::DependencyCycle(v)), _) => {
            let i = choose|i: int|
                0 <= i < ks.len() && v@ == seq![k, ks[i]] && reaches(g.dependents, k, #[trigger] ks[i])
                    && forall|j: int| 0 <= j < i ==> !reaches(g.dependents, k, #[trigger] ks[j]);
            assert(!reaches(g.dependents, k, ks[i]));
        },
        (_, Err(PullGraphError::DependencyCycle(w))) => {
            let i = choose|i: int|
                0 <= i < ks.len() && w@ == seq![k, ks[i]] && reaches(g.dependents, k, #[trigger] ks[i])
                    && forall|j: int| 0 <= j < i ==> !reaches(g.dependents, k, #[trigger] ks[j]);
            assert(!reaches(g.dependents, k, ks[i]));
        },
        _ => {},
    }
}

/// Demanding a type calls `activate` only for types that had no demand,
/// each at most once, and makes no call at all when the type already had
/// demand ("activate is called when demand transitions from zero to one").
pub proof fn law_activation_only_from_zero(g: GraphView, k: TypeId)
    requires
        g.providers.contains_key(k),
    ensures
        forall|i: int|
            0 <= i < activations(g.providers, acquisition(g, k)).len() ==> {
                let e = #[trigger] activations(g.providers, acquisition(g, k))[i];
                &&& e is Activated
                &&& g.providers.contains_key(e->Activated_0)
                &&& g.providers[e->Activated_0].demand_count == 0
            },
        activations(g.providers, acquisition(g, k)).no_duplicates(),
        g.providers[k].demand_count > 0 ==> activations(g.providers, acquisition(g, k))
            == Seq::<crate::inner::Event>::empty(),
{
    let p = g.providers;
    let acq = acquisition(g, k);
    let a = activations(p, acq);
    crate::activation::lemma_activations_fresh(p, acq);
    assert forall|i: int| 0 <= i < a.len() implies {
        let e = #[trigger] a[i];
        &&& e is Activated
        &&& p.contains_key(e->Activated_0)
        &&& p[e->Activated_0].demand_count == 0
    } by {
        assert(crate::activation::fresh_activation(p, acq, a[i]));
    }
    if p[k].demand_count > 0 {
        assert(acq == seq![k]);
        if a.len() > 0 {
            assert(crate::activation::fresh_activation(p, acq, a[0]));
            assert(acq[0] == k);
        }
        assert(a =~= Seq::<crate::inner::Event>::empty());
    }
}

/// A second demand on a type, right after a first, calls no `activate`:
/// the provider is activated once however many demands it gets.
pub proof fn law_second_demand_activates_nothing(g: GraphView, k: TypeId)
    requires
        graph_ok(g),
        acquire_ok(g, k),
        g.providers.contains_key(k),
    ensures
        ({
            let q = bump_all(g.providers, acquisition(g, k));
            let h = GraphView { providers: q, dependents: g.dependents };
            activations(q, acquisition(h, k)) == Seq::<crate::inner::Event>::empty()
        }),
{
    let q = bump_all(g.providers, acquisition(g, k));
    let h = GraphView { providers: q, dependents: g.dependents };
    law_want_counts_once(g, k);
    lemma_bump_all(g.providers, acquisition(g, k));
    law_activation_only_from_zero(h, k);
}

} // verus!
