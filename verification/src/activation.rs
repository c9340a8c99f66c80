//! What acquiring and releasing demand does to the registry's entries, as
//! functions on values, with the facts about them that the registry's
//! operations rest on.

use std::any::TypeId;
use vstd::prelude::*;

use crate::graph::{
    edge,
    lemma_reaches_plus_reaches,
    lemma_reaches_prepend,
    lemma_reaches_refl,
    reaches,
    reaches_plus,
};
use crate::inner::{demanded, deps_map, EntryView, Event};
use crate::type_key::same_type;

verus! {

broadcast use vstd::set::group_set_axioms, vstd::seq::group_seq_axioms, vstd::map::group_map_axioms;

/// How often `x` occurs in `s`.
pub open spec fn occ(s: Seq<TypeId>, x: TypeId) -> nat
    decreases s.len(),
{
    if s.len() == 0 {
        0
    } else {
        occ(s.drop_last(), x) + if s.last() == x {
            1nat
        } else {
            0nat
        }
    }
}

/// `p` after one more demand reference to `k`: its count goes up by one and it
/// is active. Nothing changes for an unregistered `k`.
pub open spec fn bump(p: Map<TypeId, EntryView>, k: TypeId) -> Map<TypeId, EntryView> {
    if p.contains_key(k) {
        p.insert(
            k,
            EntryView {
                demand_count: p[k].demand_count + 1,
                active: true,
                dependencies: p[k].dependencies,
                has_provider: p[k].has_provider,
            },
        )
    } else {
        p
    }
}

/// `p` after one demand reference for each element of `s`, in order.
pub open spec fn bump_all(p: Map<TypeId, EntryView>, s: Seq<TypeId>) -> Map<TypeId, EntryView>
    decreases s.len(),
{
    if s.len() == 0 {
        p
    } else {
        bump(bump_all(p, s.drop_last()), s.last())
    }
}

/// `p` after one demand reference to `k` is dropped: its count goes down by
/// one and it stays active only while the count is positive.
pub open spec fn unbump(p: Map<TypeId, EntryView>, k: TypeId) -> Map<TypeId, EntryView> {
    if p.contains_key(k) && p[k].demand_count > 0 {
        p.insert(
            k,
            EntryView {
                demand_count: (p[k].demand_count - 1) as nat,
                active: p[k].demand_count - 1 > 0,
                dependencies: p[k].dependencies,
                has_provider: p[k].has_provider,
            },
        )
    } else {
        p
    }
}

/// `p` after one demand reference for each element of `s` is dropped, in order.
pub open spec fn unbump_all(p: Map<TypeId, EntryView>, s: Seq<TypeId>) -> Map<TypeId, EntryView>
    decreases s.len(),
{
    if s.len() == 0 {
        p
    } else {
        unbump(unbump_all(p, s.drop_last()), s.last())
    }
}

/// The registered types with no demand.
pub open spec fn zero_set(p: Map<TypeId, EntryView>) -> Set<TypeId> {
    p.dom().filter(|k: TypeId| p[k].demand_count == 0)
}

/// The types that demanding `k` acquires, in order: `k` itself, and if `k`
/// had no demand, then what each of its dependencies acquires in turn (each
/// from the state the previous ones left). `fuel` bounds the number of types
/// that go from no demand to some; the registry passes the number of
/// registered types without demand, which never runs out.
pub open spec fn acquired(p: Map<TypeId, EntryView>, k: TypeId, fuel: nat) -> Seq<TypeId>
    decreases fuel, 0nat, 0nat,
{
    if p.contains_key(k) && p[k].demand_count == 0 && fuel > 0 {
        seq![k] + acquired_all(bump(p, k), p[k].dependencies, (fuel - 1) as nat)
    } else {
        seq![k]
    }
}

/// What acquiring each of `ds` in turn acquires, starting from `p`.
pub open spec fn acquired_all(p: Map<TypeId, EntryView>, ds: Seq<TypeId>, fuel: nat) -> Seq<TypeId>
    decreases fuel, 1nat, ds.len(),
{
    if ds.len() == 0 {
        seq![]
    } else {
        let first = acquired(p, ds[0], fuel);
        first + acquired_all(bump_all(p, first), ds.drop_first(), fuel)
    }
}

/// The registered types with demand.
pub open spec fn live_set(p: Map<TypeId, EntryView>) -> Set<TypeId> {
    p.dom().filter(|k: TypeId| p[k].demand_count > 0)
}

/// The types that releasing one demand reference to `k` releases, in order:
/// `k` itself, and if that was its last reference, then what releasing one
/// reference to each of its dependencies releases in turn (each from the
/// state the previous ones left), the mirror of `acquired`. `fuel` bounds the
/// number of types that go from some demand to none; the registry passes the
/// number of registered types with demand, which never runs out.
pub open spec fn released(p: Map<TypeId, EntryView>, k: TypeId, fuel: nat) -> Seq<TypeId>
    decreases fuel, 0nat, 0nat,
{
    if p.contains_key(k) && p[k].demand_count == 1 && fuel > 0 {
        seq![k] + released_all(unbump(p, k), p[k].dependencies, (fuel - 1) as nat)
    } else {
        seq![k]
    }
}

/// What releasing one reference to each of `ds` in turn releases, starting
/// from `p`.
pub open spec fn released_all(p: Map<TypeId, EntryView>, ds: Seq<TypeId>, fuel: nat) -> Seq<TypeId>
    decreases fuel, 1nat, ds.len(),
{
    if ds.len() == 0 {
        seq![]
    } else {
        let first = released(p, ds[0], fuel);
        first + released_all(unbump_all(p, first), ds.drop_first(), fuel)
    }
}

/// The `activate` call that acquiring `k` in state `p` makes: one when `k`
/// goes from no demand to some and its provider is in place.
pub open spec fn activation_event(p: Map<TypeId, EntryView>, k: TypeId) -> Seq<Event> {
    if p.contains_key(k) && p[k].demand_count == 0 && p[k].has_provider {
        seq![Event::Activated(k)]
    } else {
        seq![]
    }
}

/// The `activate` calls made while acquiring `s` in order from `p`.
pub open spec fn activations(p: Map<TypeId, EntryView>, s: Seq<TypeId>) -> Seq<Event>
    decreases s.len(),
{
    if s.len() == 0 {
        seq![]
    } else {
        activations(p, s.drop_last()) + activation_event(bump_all(p, s.drop_last()), s.last())
    }
}

/// `e` is a call of `activate` for a type registered in `p` without demand
/// and with its provider in place, and that type is one of `s`.
pub open spec fn fresh_activation(p: Map<TypeId, EntryView>, s: Seq<TypeId>, e: Event) -> bool {
    &&& e is Activated
    &&& s.contains(e->Activated_0)
    &&& p.contains_key(e->Activated_0)
    &&& p[e->Activated_0].demand_count == 0
    &&& p[e->Activated_0].has_provider
}

/// The `deactivate` call that releasing `k` in state `p` makes: one when its
/// demand drops to zero and its provider is in place.
pub open spec fn deactivation_event(p: Map<TypeId, EntryView>, k: TypeId) -> Seq<Event> {
    if p.contains_key(k) && p[k].demand_count == 1 && p[k].has_provider {
        seq![Event::Deactivated(k)]
    } else {
        seq![]
    }
}

/// The `deactivate` calls made while releasing `s` in order from `p`.
pub open spec fn deactivations(p: Map<TypeId, EntryView>, s: Seq<TypeId>) -> Seq<Event>
    decreases s.len(),
{
    if s.len() == 0 {
        seq![]
    } else {
        deactivations(p, s.drop_last()) + deactivation_event(unbump_all(p, s.drop_last()), s.last())
    }
}

/// Acquiring `s` from `p` is possible: every element is registered, and no
/// count would pass `usize::MAX`.
pub open spec fn acquire_fits(p: Map<TypeId, EntryView>, s: Seq<TypeId>) -> bool {
    &&& forall|i: int| 0 <= i < s.len() ==> p.contains_key(#[trigger] s[i])
    &&& forall|x: TypeId| #[trigger]
        p.contains_key(x) ==> p[x].demand_count + occ(s, x) <= usize::MAX
}

/// Releasing `s` from `p` is possible: every element is registered, and no
/// type is released more often than it is demanded.
pub open spec fn release_fits(p: Map<TypeId, EntryView>, s: Seq<TypeId>) -> bool {
    &&& forall|i: int| 0 <= i < s.len() ==> p.contains_key(#[trigger] s[i])
    &&& forall|x: TypeId| #[trigger] p.contains_key(x) ==> occ(s, x) <= p[x].demand_count
}

/// How often `x` occurs in `keys`.
pub fn occurrences(keys: &Vec<TypeId>, x: &TypeId) -> (r: usize)
    ensures
        r == occ(keys@, *x),
{
    let mut n: usize = 0;
    let mut i: usize = 0;
    while i < keys.len()
        invariant
            i <= keys@.len(),
            n <= i,
            n == occ(keys@.take(i as int), *x),
        decreases keys@.len() - i,
    {
        proof {
            assert(keys@.take(i + 1).drop_last() =~= keys@.take(i as int));
            assert(keys@.take(i + 1).last() == keys@[i as int]);
        }
        if same_type(&keys[i], x) {
            n = n + 1;
        }
        i = i + 1;
    }
    proof {
        assert(keys@.take(keys@.len() as int) =~= keys@);
    }
    n
}

pub proof fn lemma_occ_concat(a: Seq<TypeId>, b: Seq<TypeId>, x: TypeId)
    ensures
        occ(a + b, x) == occ(a, x) + occ(b, x),
    decreases b.len(),
{
    if b.len() == 0 {
        assert(a + b =~= a);
    } else {
        lemma_occ_concat(a, b.drop_last(), x);
        assert((a + b).drop_last() =~= a + b.drop_last());
    }
}

pub proof fn lemma_occ_single(k: TypeId, x: TypeId)
    ensures
        occ(seq![k], x) == if k == x {
            1nat
        } else {
            0nat
        },
{
    assert(seq![k].drop_last() =~= Seq::<TypeId>::empty());
    assert(occ(Seq::<TypeId>::empty(), x) == 0);
}

pub proof fn lemma_occ_bounds(s: Seq<TypeId>, x: TypeId)
    ensures
        occ(s, x) <= s.len(),
        s.contains(x) <==> occ(s, x) > 0,
    decreases s.len(),
{
    if s.len() > 0 {
        lemma_occ_bounds(s.drop_last(), x);
        if s.drop_last().contains(x) {
            let i = choose|i: int| 0 <= i < s.drop_last().len() && s.drop_last()[i] == x;
            assert(s[i] == x);
        }
        if s.contains(x) && s.last() != x {
            let i = choose|i: int| 0 <= i < s.len() && s[i] == x;
            assert(s.drop_last()[i] == x);
        }
    }
}

/// What demand references do to each entry: the count goes up by the number
/// of references, activity turns on with any, nothing else changes.
pub proof fn lemma_bump_all(p: Map<TypeId, EntryView>, s: Seq<TypeId>)
    ensures
        bump_all(p, s).dom() == p.dom(),
        forall|x: TypeId| #[trigger]
            bump_all(p, s).contains_key(x) ==> {
                &&& bump_all(p, s)[x].demand_count == p[x].demand_count + occ(s, x)
                &&& bump_all(p, s)[x].active == (p[x].active || occ(s, x) > 0)
                &&& bump_all(p, s)[x].dependencies == p[x].dependencies
                &&& bump_all(p, s)[x].has_provider == p[x].has_provider
            },
    decreases s.len(),
{
    if s.len() > 0 {
        lemma_bump_all(p, s.drop_last());
        let q = bump_all(p, s.drop_last());
        assert(bump_all(p, s) == bump(q, s.last()));
        assert(bump(q, s.last()).dom() =~= q.dom());
    }
}

/// Releasing references one by one, each to a type that still has demand,
/// lowers each count by the number of references.
pub proof fn lemma_unbump_all(p: Map<TypeId, EntryView>, s: Seq<TypeId>)
    requires
        release_fits(p, s),
    ensures
        unbump_all(p, s).dom() == p.dom(),
        forall|x: TypeId| #[trigger]
            unbump_all(p, s).contains_key(x) ==> {
                &&& unbump_all(p, s)[x].demand_count == p[x].demand_count - occ(s, x)
                &&& unbump_all(p, s)[x].active == if occ(s, x) > 0 {
                    p[x].demand_count - occ(s, x) > 0
                } else {
                    p[x].active
                }
                &&& unbump_all(p, s)[x].dependencies == p[x].dependencies
                &&& unbump_all(p, s)[x].has_provider == p[x].has_provider
            },
    decreases s.len(),
{
    if s.len() > 0 {
        let t = s.drop_last();
        assert(release_fits(p, t)) by {
            assert forall|i: int| 0 <= i < t.len() implies p.contains_key(#[trigger] t[i]) by {
                assert(t[i] == s[i]);
            }
            assert forall|x: TypeId| #[trigger] p.contains_key(x) implies occ(t, x)
                <= p[x].demand_count by {
                assert(occ(t, x) <= occ(s, x));
            }
        }
        lemma_unbump_all(p, t);
        let q = unbump_all(p, t);
        let k = s.last();
        assert(p.contains_key(s[s.len() - 1]));
        assert(occ(s, k) == occ(t, k) + 1);
        assert(q[k].demand_count > 0);
        assert(unbump(q, k).dom() =~= q.dom());
    }
}

pub proof fn lemma_bump_all_concat(p: Map<TypeId, EntryView>, a: Seq<TypeId>, b: Seq<TypeId>)
    ensures
        bump_all(p, a + b) == bump_all(bump_all(p, a), b),
    decreases b.len(),
{
    if b.len() == 0 {
        assert(a + b =~= a);
    } else {
        lemma_bump_all_concat(p, a, b.drop_last());
        assert((a + b).drop_last() =~= a + b.drop_last());
        assert((a + b).last() == b.last());
    }
}

pub proof fn lemma_activations_concat(p: Map<TypeId, EntryView>, a: Seq<TypeId>, b: Seq<TypeId>)
    ensures
        activations(p, a + b) == activations(p, a) + activations(bump_all(p, a), b),
    decreases b.len(),
{
    if b.len() == 0 {
        assert(a + b =~= a);
        assert(activations(p, a) + activations(bump_all(p, a), b) =~= activations(p, a));
    } else {
        lemma_activations_concat(p, a, b.drop_last());
        assert((a + b).drop_last() =~= a + b.drop_last());
        assert((a + b).last() == b.last());
        lemma_bump_all_concat(p, a, b.drop_last());
        assert(activations(p, a + b) =~= activations(p, a) + activations(bump_all(p, a), b));
    }
}

pub proof fn lemma_unbump_all_concat(p: Map<TypeId, EntryView>, a: Seq<TypeId>, b: Seq<TypeId>)
    ensures
        unbump_all(p, a + b) == unbump_all(unbump_all(p, a), b),
    decreases b.len(),
{
    if b.len() == 0 {
        assert(a + b =~= a);
    } else {
        lemma_unbump_all_concat(p, a, b.drop_last());
        assert((a + b).drop_last() =~= a + b.drop_last());
        assert((a + b).last() == b.last());
    }
}

pub proof fn lemma_deactivations_concat(p: Map<TypeId, EntryView>, a: Seq<TypeId>, b: Seq<TypeId>)
    ensures
        deactivations(p, a + b) == deactivations(p, a) + deactivations(unbump_all(p, a), b),
    decreases b.len(),
{
    if b.len() == 0 {
        assert(a + b =~= a);
        assert(deactivations(p, a) + deactivations(unbump_all(p, a), b) =~= deactivations(p, a));
    } else {
        lemma_deactivations_concat(p, a, b.drop_last());
        assert((a + b).drop_last() =~= a + b.drop_last());
        assert((a + b).last() == b.last());
        lemma_unbump_all_concat(p, a, b.drop_last());
        assert(deactivations(p, a + b) =~= deactivations(p, a) + deactivations(
            unbump_all(p, a),
            b,
        ));
    }
}

/// Dropping references never raises a count and keeps the registered types.
pub proof fn lemma_unbump_all_le(p: Map<TypeId, EntryView>, s: Seq<TypeId>)
    ensures
        unbump_all(p, s).dom() == p.dom(),
        forall|x: TypeId| #[trigger]
            unbump_all(p, s).contains_key(x) ==> unbump_all(p, s)[x].demand_count
                <= p[x].demand_count,
    decreases s.len(),
{
    if s.len() > 0 {
        lemma_unbump_all_le(p, s.drop_last());
        let q = unbump_all(p, s.drop_last());
        assert(unbump(q, s.last()).dom() =~= q.dom());
    }
}

/// Dropping references never adds types with demand.
pub proof fn lemma_live_set_unbump_all(p: Map<TypeId, EntryView>, s: Seq<TypeId>)
    ensures
        live_set(unbump_all(p, s)).subset_of(live_set(p)),
{
    lemma_unbump_all_le(p, s);
}

/// Dropping the last reference to `k` removes it from the types with demand.
pub proof fn lemma_live_set_unbump(p: Map<TypeId, EntryView>, k: TypeId)
    requires
        p.contains_key(k),
        p[k].demand_count == 1,
    ensures
        live_set(unbump(p, k)) == live_set(p).remove(k),
{
    assert(live_set(unbump(p, k)) =~= live_set(p).remove(k));
}

/// What may be released may be released in two parts.
pub proof fn lemma_release_fits_split(p: Map<TypeId, EntryView>, a: Seq<TypeId>, b: Seq<TypeId>)
    requires
        release_fits(p, a + b),
    ensures
        release_fits(p, a),
        release_fits(unbump_all(p, a), b),
{
    assert forall|i: int| 0 <= i < a.len() implies p.contains_key(#[trigger] a[i]) by {
        assert((a + b)[i] == a[i]);
    }
    assert forall|x: TypeId| #[trigger] p.contains_key(x) implies occ(a, x) <= p[x].demand_count by {
        lemma_occ_concat(a, b, x);
    }
    lemma_unbump_all(p, a);
    let q = unbump_all(p, a);
    assert forall|i: int| 0 <= i < b.len() implies q.contains_key(#[trigger] b[i]) by {
        assert((a + b)[a.len() + i] == b[i]);
    }
    assert forall|x: TypeId| #[trigger] q.contains_key(x) implies occ(b, x) <= q[x].demand_count by {
        lemma_occ_concat(a, b, x);
    }
}

/// Releasing a type starts with the type itself.
pub proof fn lemma_released_nonempty(p: Map<TypeId, EntryView>, k: TypeId, fuel: nat)
    ensures
        released(p, k, fuel).len() >= 1,
        released(p, k, fuel)[0] == k,
{
    if p.contains_key(k) && p[k].demand_count == 1 && fuel > 0 {
        let rest = released_all(unbump(p, k), p[k].dependencies, (fuel - 1) as nat);
        assert((seq![k] + rest)[0] == k);
    }
}

/// The first step of releasing a list of types splits off.
pub proof fn lemma_released_all_step(p: Map<TypeId, EntryView>, ds: Seq<TypeId>, j: int, fuel: nat)
    requires
        0 <= j < ds.len(),
    ensures
        released_all(p, ds.skip(j), fuel) == released(p, ds[j], fuel) + released_all(
            unbump_all(p, released(p, ds[j], fuel)),
            ds.skip(j + 1),
            fuel,
        ),
{
    assert(ds.skip(j)[0] == ds[j]);
    assert(ds.skip(j).drop_first() =~= ds.skip(j + 1));
}

/// Acquiring `s` from `p` calls `activate` only for types that had no
/// demand in `p`, each at most once.
pub proof fn lemma_activations_fresh(p: Map<TypeId, EntryView>, s: Seq<TypeId>)
    ensures
        forall|i: int|
            0 <= i < activations(p, s).len() ==> fresh_activation(p, s, #[trigger] activations(p, s)[i]),
        activations(p, s).no_duplicates(),
    decreases s.len(),
{
    if s.len() > 0 {
        let t = s.drop_last();
        let k = s.last();
        lemma_activations_fresh(p, t);
        lemma_bump_all(p, t);
        let q = bump_all(p, t);
        let a = activations(p, t);
        let e = activation_event(q, k);
        assert(activations(p, s) == a + e);
        assert forall|x: TypeId| #[trigger] t.contains(x) implies s.contains(x) by {
            let j = choose|j: int| 0 <= j < t.len() && t[j] == x;
            assert(s[j] == x);
        }
        assert(s.contains(k)) by {
            assert(s[s.len() - 1] == k);
        }
        if e.len() > 0 {
            assert(q.contains_key(k) && q[k].demand_count == 0);
            lemma_occ_bounds(t, k);
            assert(!t.contains(k));
        }
        let all = a + e;
        assert forall|i: int| 0 <= i < all.len() implies fresh_activation(p, s, #[trigger] all[i]) by {
            if i < a.len() {
                assert(all[i] == a[i]);
                assert(fresh_activation(p, t, a[i]));
            } else {
                assert(all[i] == Event::Activated(k));
            }
        }
        assert forall|i: int, j: int| 0 <= i < all.len() && 0 <= j < all.len() && i != j implies all[i]
            != all[j] by {
            if i < a.len() && j >= a.len() {
                assert(fresh_activation(p, t, a[i]));
                assert(all[j] == Event::Activated(k));
            } else if j < a.len() && i >= a.len() {
                assert(fresh_activation(p, t, a[j]));
                assert(all[i] == Event::Activated(k));
            } else if i < a.len() {
                assert(all[i] == a[i] && all[j] == a[j]);
            }
        }
    }
}

/// Demand references never add types without demand.
pub proof fn lemma_zero_set_bump_all(p: Map<TypeId, EntryView>, s: Seq<TypeId>)
    ensures
        zero_set(bump_all(p, s)).subset_of(zero_set(p)),
{
    lemma_bump_all(p, s);
}

/// A reference to a type without demand removes it from the types without
/// demand.
pub proof fn lemma_zero_set_bump(p: Map<TypeId, EntryView>, k: TypeId)
    requires
        p.contains_key(k),
        p[k].demand_count == 0,
    ensures
        zero_set(bump(p, k)) == zero_set(p).remove(k),
{
    assert(zero_set(bump(p, k)) =~= zero_set(p).remove(k));
}

/// Every type acquired by demanding `k` is acquired first as `k` or as a
/// dependency of a type that went from no demand to some.
pub proof fn lemma_acquired_nonempty(p: Map<TypeId, EntryView>, k: TypeId, fuel: nat)
    ensures
        acquired(p, k, fuel).len() >= 1,
        acquired(p, k, fuel)[0] == k,
{
    if p.contains_key(k) && p[k].demand_count == 0 && fuel > 0 {
        let rest = acquired_all(bump(p, k), p[k].dependencies, (fuel - 1) as nat);
        assert((seq![k] + rest)[0] == k);
    }
}

/// The first step of acquiring a list of types splits off.
pub proof fn lemma_acquired_all_step(p: Map<TypeId, EntryView>, ds: Seq<TypeId>, j: int, fuel: nat)
    requires
        0 <= j < ds.len(),
    ensures
        acquired_all(p, ds.skip(j), fuel) == acquired(p, ds[j], fuel) + acquired_all(
            bump_all(p, acquired(p, ds[j], fuel)),
            ds.skip(j + 1),
            fuel,
        ),
{
    assert(ds.skip(j)[0] == ds[j]);
    assert(ds.skip(j).drop_first() =~= ds.skip(j + 1));
}

/// A single reference.
pub proof fn lemma_single(p: Map<TypeId, EntryView>, k: TypeId)
    ensures
        bump_all(p, seq![k]) == bump(p, k),
        activations(p, seq![k]) == activation_event(p, k),
        unbump_all(p, seq![k]) == unbump(p, k),
        deactivations(p, seq![k]) == deactivation_event(p, k),
{
    let e = Seq::<TypeId>::empty();
    assert(seq![k].drop_last() =~= e);
    assert(bump_all(p, e) == p);
    assert(unbump_all(p, e) == p);
    assert(activations(p, e) =~= Seq::<Event>::empty());
    assert(deactivations(p, e) =~= Seq::<Event>::empty());
    assert(activations(p, seq![k]) =~= activation_event(p, k));
    assert(deactivations(p, seq![k]) =~= deactivation_event(p, k));
}

/// Demand references leave the dependency lists as they are.
pub proof fn lemma_deps_map_bump_all(p: Map<TypeId, EntryView>, s: Seq<TypeId>)
    ensures
        deps_map(bump_all(p, s)) == deps_map(p),
{
    lemma_bump_all(p, s);
    assert(deps_map(bump_all(p, s)) =~= deps_map(p));
}

/// Everything acquired after `k` itself lies one or more dependency steps
/// from `k`.
pub proof fn lemma_acquired_reach(p: Map<TypeId, EntryView>, k: TypeId, f: nat)
    ensures
        forall|i: int|
            1 <= i < acquired(p, k, f).len() ==> reaches_plus(
                deps_map(p),
                k,
                #[trigger] acquired(p, k, f)[i],
            ),
    decreases f, 0nat, 0nat,
{
    if p.contains_key(k) && p[k].demand_count == 0 && f > 0 {
        let q = bump(p, k);
        let ds = p[k].dependencies;
        let rest = acquired_all(q, ds, (f - 1) as nat);
        let acq = acquired(p, k, f);
        lemma_acquired_all_reach(q, ds, (f - 1) as nat);
        lemma_single(p, k);
        lemma_deps_map_bump_all(p, seq![k]);
        assert forall|i: int| 1 <= i < acq.len() implies reaches_plus(
            deps_map(p),
            k,
            #[trigger] acq[i],
        ) by {
            assert(acq[i] == rest[i - 1]);
            assert(reached_from_some(deps_map(q), ds, rest[i - 1]));
            let j = choose|j: int| 0 <= j < ds.len() && #[trigger] reaches(deps_map(q), ds[j], rest[i - 1]);
            assert(edge(deps_map(p), k, ds[j]));
            lemma_reaches_prepend(deps_map(p), k, ds[j], rest[i - 1]);
        }
    }
}

/// `x` lies some steps from one of `ds`.
pub open spec fn reached_from_some(m: Map<TypeId, Seq<TypeId>>, ds: Seq<TypeId>, x: TypeId) -> bool {
    exists|j: int| 0 <= j < ds.len() && #[trigger] reaches(m, ds[j], x)
}

/// Everything acquired for a list of types lies some dependency steps from
/// one of them.
pub proof fn lemma_acquired_all_reach(q: Map<TypeId, EntryView>, ds: Seq<TypeId>, f: nat)
    ensures
        forall|i: int|
            0 <= i < acquired_all(q, ds, f).len() ==> reached_from_some(
                deps_map(q),
                ds,
                #[trigger] acquired_all(q, ds, f)[i],
            ),
    decreases f, 1nat, ds.len(),
{
    if ds.len() > 0 {
        let first = acquired(q, ds[0], f);
        let q1 = bump_all(q, first);
        let rest = acquired_all(q1, ds.drop_first(), f);
        let all = acquired_all(q, ds, f);
        assert(all == first + rest);
        lemma_acquired_reach(q, ds[0], f);
        lemma_acquired_nonempty(q, ds[0], f);
        lemma_acquired_all_reach(q1, ds.drop_first(), f);
        lemma_deps_map_bump_all(q, first);
        assert forall|i: int| 0 <= i < all.len() implies reached_from_some(
            deps_map(q),
            ds,
            #[trigger] all[i],
        ) by {
            if i < first.len() {
                assert(all[i] == first[i]);
                if i == 0 {
                    lemma_reaches_refl(deps_map(q), ds[0]);
                } else {
                    lemma_reaches_plus_reaches(deps_map(q), ds[0], first[i]);
                }
                assert(reaches(deps_map(q), ds[0], all[i]));
            } else {
                assert(all[i] == rest[i - first.len()]);
                assert(reached_from_some(deps_map(q1), ds.drop_first(), rest[i - first.len()]));
                let j = choose|j: int|
                    0 <= j < ds.drop_first().len() && #[trigger] reaches(
                        deps_map(q1),
                        ds.drop_first()[j],
                        rest[i - first.len()],
                    );
                assert(ds.drop_first()[j] == ds[j + 1]);
                assert(reaches(deps_map(q), ds[j + 1], all[i]));
            }
        }
    }
}

/// Every registered type with demand has its dependencies demanded.
pub open spec fn demand_closed(p: Map<TypeId, EntryView>) -> bool {
    forall|x: TypeId, d: TypeId|
        #![trigger demanded(p, x), p[x].dependencies.contains(d)]
        demanded(p, x) && p[x].dependencies.contains(d) ==> demanded(p, d)
}

/// A type acquired while it had no demand has all its dependencies acquired
/// too, and each type of a list is acquired when the list is.
pub proof fn lemma_acquired_deps(p: Map<TypeId, EntryView>, k: TypeId, f: nat)
    requires
        p.dom().finite(),
        zero_set(p).len() <= f,
    ensures
        forall|x: TypeId, d: TypeId|
            #![trigger acquired(p, k, f).contains(x), p[x].dependencies.contains(d)]
            acquired(p, k, f).contains(x) && p.contains_key(x) && p[x].demand_count == 0
                && p[x].dependencies.contains(d) ==> acquired(p, k, f).contains(d),
    decreases f, 0nat, 0nat,
{
    let acq = acquired(p, k, f);
    if p.contains_key(k) && p[k].demand_count == 0 {
        assert(zero_set(p).contains(k));
        assert(zero_set(p).len() > 0);
        let q = bump(p, k);
        let ds = p[k].dependencies;
        let f1 = (f - 1) as nat;
        let rest = acquired_all(q, ds, f1);
        lemma_zero_set_bump(p, k);
        assert(q.dom() =~= p.dom());
        lemma_acquired_all_deps(q, ds, f1);
        assert(acq == seq![k] + rest);
        assert forall|x: TypeId, d: TypeId|
            #![trigger acq.contains(x), p[x].dependencies.contains(d)]
            acq.contains(x) && p.contains_key(x) && p[x].demand_count == 0
                && p[x].dependencies.contains(d) implies acq.contains(d) by {
            if x == k {
                let j = choose|j: int| 0 <= j < ds.len() && ds[j] == d;
                assert(rest.contains(ds[j]));
                let i = choose|i: int| 0 <= i < rest.len() && rest[i] == d;
                assert(acq[i + 1] == d);
            } else {
                let i = choose|i: int| 0 <= i < acq.len() && acq[i] == x;
                assert(i > 0);
                assert(rest[i - 1] == x);
                assert(rest.contains(x));
                assert(q[x] == p[x]);
                assert(q.contains_key(x) && q[x].demand_count == 0);
                assert(q[x].dependencies.contains(d));
                assert(rest.contains(d));
                let i2 = choose|i2: int| 0 <= i2 < rest.len() && rest[i2] == d;
                assert(acq[i2 + 1] == d);
            }
        }
    }
}

pub proof fn lemma_acquired_all_deps(q: Map<TypeId, EntryView>, ds: Seq<TypeId>, f: nat)
    requires
        q.dom().finite(),
        zero_set(q).len() <= f,
    ensures
        forall|x: TypeId, d: TypeId|
            #![trigger acquired_all(q, ds, f).contains(x), q[x].dependencies.contains(d)]
            acquired_all(q, ds, f).contains(x) && q.contains_key(x) && q[x].demand_count == 0
                && q[x].dependencies.contains(d) ==> acquired_all(q, ds, f).contains(d),
        forall|j: int| 0 <= j < ds.len() ==> acquired_all(q, ds, f).contains(#[trigger] ds[j]),
    decreases f, 1nat, ds.len(),
{
    if ds.len() > 0 {
        let first = acquired(q, ds[0], f);
        let q1 = bump_all(q, first);
        let rest = acquired_all(q1, ds.drop_first(), f);
        let all = acquired_all(q, ds, f);
        assert(all == first + rest);
        lemma_acquired_deps(q, ds[0], f);
        lemma_acquired_nonempty(q, ds[0], f);
        lemma_bump_all(q, first);
        lemma_zero_set_bump_all(q, first);
        vstd::set_lib::lemma_len_subset(zero_set(q1), zero_set(q));
        lemma_acquired_all_deps(q1, ds.drop_first(), f);
        assert forall|x: TypeId, d: TypeId|
            #![trigger all.contains(x), q[x].dependencies.contains(d)]
            all.contains(x) && q.contains_key(x) && q[x].demand_count == 0
                && q[x].dependencies.contains(d) implies all.contains(d) by {
            let i = choose|i: int| 0 <= i < all.len() && all[i] == x;
            if i < first.len() {
                assert(first[i] == x);
                assert(first.contains(x));
                assert(first.contains(d));
                let i2 = choose|i2: int| 0 <= i2 < first.len() && first[i2] == d;
                assert(all[i2] == d);
            } else {
                assert(rest[i - first.len()] == x);
                assert(rest.contains(x));
                if occ(first, x) > 0 {
                    lemma_occ_bounds(first, x);
                    assert(first.contains(d));
                    let i2 = choose|i2: int| 0 <= i2 < first.len() && first[i2] == d;
                    assert(all[i2] == d);
                } else {
                    assert(q1[x].demand_count == 0);
                    assert(q1[x].dependencies == q[x].dependencies);
                    assert(rest.contains(d));
                    let i2 = choose|i2: int| 0 <= i2 < rest.len() && rest[i2] == d;
                    assert(all[i2 + first.len()] == d);
                }
            }
        }
        assert forall|j: int| 0 <= j < ds.len() implies all.contains(#[trigger] ds[j]) by {
            if j == 0 {
                assert(all[0] == first[0]);
            } else {
                assert(ds.drop_first()[j - 1] == ds[j]);
                assert(rest.contains(ds[j]));
                let i2 = choose|i2: int| 0 <= i2 < rest.len() && rest[i2] == ds[j];
                assert(all[i2 + first.len()] == ds[j]);
            }
        }
    }
}

} // verus!
