//! Demand accounting: every demand count is the number of live demands on
//! the type plus the references that its active dependents hold on it.

use std::any::TypeId;
use vstd::prelude::*;

use crate::activation::{
    acquired,
    acquired_all,
    bump,
    bump_all,
    lemma_acquired_all_deps,
    lemma_acquired_nonempty,
    lemma_bump_all,
    lemma_bump_all_concat,
    lemma_occ_concat,
    lemma_occ_single,
    lemma_single,
    lemma_zero_set_bump,
    lemma_live_set_unbump,
    lemma_live_set_unbump_all,
    lemma_unbump_all,
    lemma_unbump_all_concat,
    lemma_unbump_all_le,
    lemma_zero_set_bump_all,
    live_set,
    occ,
    release_fits,
    released,
    released_all,
    unbump,
    unbump_all,
    zero_set,
};
use crate::graph::{acyclic, edge, is_path, lemma_acyclic_no_loop, lemma_reaches_plus_step, reaches_plus};
use crate::inner::{deps_map, EntryView};

verus! {

broadcast use vstd::set::group_set_axioms, vstd::seq::group_seq_axioms, vstd::map::group_map_axioms;

/// The references `t` holds on `x`: one per listing of `x` among its
/// dependencies while `t` has demand.
pub open spec fn held_by(p: Map<TypeId, EntryView>, t: TypeId, x: TypeId) -> nat {
    if p.contains_key(t) && p[t].demand_count > 0 {
        occ(p[t].dependencies, x)
    } else {
        0
    }
}

/// The references the types of `ts` hold on `x`.
pub open spec fn held_over(p: Map<TypeId, EntryView>, ts: Set<TypeId>, x: TypeId) -> nat
    decreases ts.len(),
    when ts.finite()
{
    if ts.len() == 0 {
        0
    } else {
        let t = ts.choose();
        held_by(p, t, x) + held_over(p, ts.remove(t), x)
    }
}

/// The references the registered types hold on `x`.
pub open spec fn held(p: Map<TypeId, EntryView>, x: TypeId) -> nat {
    held_over(p, p.dom(), x)
}

/// Every dependency of a type with demand is registered.
pub open spec fn active_deps_registered(p: Map<TypeId, EntryView>) -> bool {
    forall|t: TypeId, d: TypeId|
        #![trigger p[t].dependencies.contains(d)]
        p.contains_key(t) && p[t].demand_count > 0 && p[t].dependencies.contains(d)
            ==> p.contains_key(d)
}

/// The entries account for their demand: `live[x]` is the number of live
/// demands on `x`, and each count is that number plus the references the
/// active types hold on `x`.
pub open spec fn accounted(p: Map<TypeId, EntryView>, live: Map<TypeId, nat>) -> bool {
    &&& p.dom().finite()
    &&& live.dom() == p.dom()
    &&& forall|x: TypeId| #[trigger]
        p.contains_key(x) ==> p[x].demand_count == live[x] + held(p, x)
    &&& active_deps_registered(p)
}

/// Any element of the set can be split off first.
pub proof fn lemma_held_over_remove(p: Map<TypeId, EntryView>, ts: Set<TypeId>, t: TypeId, x: TypeId)
    requires
        ts.finite(),
        ts.contains(t),
    ensures
        held_over(p, ts, x) == held_by(p, t, x) + held_over(p, ts.remove(t), x),
    decreases ts.len(),
{
    let c = ts.choose();
    if c != t {
        lemma_held_over_remove(p, ts.remove(c), t, x);
        lemma_held_over_remove(p, ts.remove(t), c, x);
        assert(ts.remove(c).remove(t) =~= ts.remove(t).remove(c));
    }
}

/// Two states whose types hold the same references on `x` give the same
/// total.
pub proof fn lemma_held_over_congruent(
    p: Map<TypeId, EntryView>,
    q: Map<TypeId, EntryView>,
    ts: Set<TypeId>,
    x: TypeId,
)
    requires
        ts.finite(),
        forall|t: TypeId| #[trigger] ts.contains(t) ==> held_by(p, t, x) == held_by(q, t, x),
    ensures
        held_over(p, ts, x) == held_over(q, ts, x),
    decreases ts.len(),
{
    if ts.len() > 0 {
        let c = ts.choose();
        lemma_held_over_congruent(p, q, ts.remove(c), x);
    }
}

/// Where no type holds a reference on `x`, the total is zero.
pub proof fn lemma_held_over_zero(p: Map<TypeId, EntryView>, ts: Set<TypeId>, x: TypeId)
    requires
        ts.finite(),
        forall|t: TypeId| #[trigger] ts.contains(t) ==> held_by(p, t, x) == 0,
    ensures
        held_over(p, ts, x) == 0,
    decreases ts.len(),
{
    if ts.len() > 0 {
        let c = ts.choose();
        lemma_held_over_zero(p, ts.remove(c), x);
    }
}

/// Changing one registered entry changes the total by what that entry holds.
pub proof fn lemma_held_update(p: Map<TypeId, EntryView>, q: Map<TypeId, EntryView>, k: TypeId, x: TypeId)
    requires
        p.dom().finite(),
        q.dom() == p.dom(),
        p.contains_key(k),
        forall|t: TypeId| #[trigger] p.contains_key(t) && t != k ==> q[t] == p[t],
    ensures
        held(q, x) + held_by(p, k, x) == held(p, x) + held_by(q, k, x),
{
    lemma_held_over_remove(p, p.dom(), k, x);
    lemma_held_over_remove(q, q.dom(), k, x);
    lemma_held_over_congruent(p, q, p.dom().remove(k), x);
}

/// Acquiring `k`, with the references in `pend` still to be added after it,
/// keeps the entries accounted once those are added.
pub proof fn lemma_acquired_accounted(
    p: Map<TypeId, EntryView>,
    live: Map<TypeId, nat>,
    pend: Seq<TypeId>,
    k: TypeId,
    f: nat,
)
    requires
        p.dom().finite(),
        zero_set(p).len() <= f,
        active_deps_registered(p),
        forall|i: int|
            0 <= i < acquired(p, k, f).len() ==> p.contains_key(#[trigger] acquired(p, k, f)[i]),
        forall|x: TypeId| #[trigger]
            p.contains_key(x) ==> p[x].demand_count + occ(pend, x) + occ(seq![k], x) == live[x]
                + held(p, x),
    ensures
        active_deps_registered(bump_all(p, acquired(p, k, f))),
        forall|x: TypeId| #[trigger]
            p.contains_key(x) ==> bump_all(p, acquired(p, k, f))[x].demand_count + occ(pend, x)
                == live[x] + held(bump_all(p, acquired(p, k, f)), x),
    decreases f, 0nat, 0nat,
{
    let s = acquired(p, k, f);
    lemma_acquired_nonempty(p, k, f);
    assert(p.contains_key(s[0]));
    let p1 = bump(p, k);
    lemma_single(p, k);
    assert(p1.dom() =~= p.dom());
    assert forall|x: TypeId| #[trigger] p.contains_key(x) implies held(p1, x) + held_by(p, k, x)
        == held(p, x) + held_by(p1, k, x) by {
        lemma_held_update(p, p1, k, x);
    }
    assert forall|x: TypeId| #[trigger] p.contains_key(x) implies p1[x].demand_count == p[x].demand_count
        + occ(seq![k], x) by {
        lemma_occ_single(k, x);
    }
    if p[k].demand_count == 0 {
        assert(zero_set(p).contains(k));
        assert(zero_set(p).len() > 0);
        let f1 = (f - 1) as nat;
        let ds = p[k].dependencies;
        let rest = acquired_all(p1, ds, f1);
        assert(s == seq![k] + rest);
        lemma_zero_set_bump(p, k);
        assert(p1.dom().finite());
        lemma_acquired_all_deps(p1, ds, f1);
        assert forall|i: int| 0 <= i < rest.len() implies p1.contains_key(#[trigger] rest[i]) by {
            assert(s[i + 1] == rest[i]);
        }
        assert(active_deps_registered(p1)) by {
            assert forall|t: TypeId, d: TypeId|
                #![trigger p1[t].dependencies.contains(d)]
                p1.contains_key(t) && p1[t].demand_count > 0 && p1[t].dependencies.contains(d)
                    implies p1.contains_key(d) by {
                if t == k {
                    let j = choose|j: int| 0 <= j < ds.len() && ds[j] == d;
                    assert(rest.contains(ds[j]));
                    let i = choose|i: int| 0 <= i < rest.len() && rest[i] == d;
                    assert(p1.contains_key(rest[i]));
                } else {
                    assert(p1[t] == p[t]);
                }
            }
        }
        assert forall|x: TypeId| #[trigger] p1.contains_key(x) implies p1[x].demand_count + occ(
            pend,
            x,
        ) + occ(ds, x) == live[x] + held(p1, x) by {
            assert(p.contains_key(x));
        }
        lemma_acquired_all_accounted(p1, live, pend, ds, f1);
        lemma_bump_all_concat(p, seq![k], rest);
    } else {
        assert(s == seq![k]);
        assert(active_deps_registered(p1)) by {
            assert forall|t: TypeId, d: TypeId|
                #![trigger p1[t].dependencies.contains(d)]
                p1.contains_key(t) && p1[t].demand_count > 0 && p1[t].dependencies.contains(d)
                    implies p1.contains_key(d) by {
                if t != k {
                    assert(p1[t] == p[t]);
                }
            }
        }
    }
}

/// Acquiring each of `ds` in turn, with the references in `pend` still to be
/// added after them, keeps the entries accounted once those are added.
pub proof fn lemma_acquired_all_accounted(
    p: Map<TypeId, EntryView>,
    live: Map<TypeId, nat>,
    pend: Seq<TypeId>,
    ds: Seq<TypeId>,
    f: nat,
)
    requires
        p.dom().finite(),
        zero_set(p).len() <= f,
        active_deps_registered(p),
        forall|i: int|
            0 <= i < acquired_all(p, ds, f).len() ==> p.contains_key(
                #[trigger] acquired_all(p, ds, f)[i],
            ),
        forall|x: TypeId| #[trigger]
            p.contains_key(x) ==> p[x].demand_count + occ(pend, x) + occ(ds, x) == live[x] + held(
                p,
                x,
            ),
    ensures
        active_deps_registered(bump_all(p, acquired_all(p, ds, f))),
        forall|x: TypeId| #[trigger]
            p.contains_key(x) ==> bump_all(p, acquired_all(p, ds, f))[x].demand_count + occ(pend, x)
                == live[x] + held(bump_all(p, acquired_all(p, ds, f)), x),
    decreases f, 1nat, ds.len(),
{
    if ds.len() == 0 {
        assert forall|x: TypeId| #[trigger] p.contains_key(x) implies occ(ds, x) == 0 by {
            assert(ds =~= Seq::<TypeId>::empty());
        }
    } else {
        let first = acquired(p, ds[0], f);
        let tail = ds.drop_first();
        let q1 = bump_all(p, first);
        let rest = acquired_all(q1, tail, f);
        let all = acquired_all(p, ds, f);
        assert(all == first + rest);
        let pend1 = pend + tail;
        assert(ds =~= seq![ds[0]] + tail);
        assert forall|x: TypeId| #[trigger] p.contains_key(x) implies p[x].demand_count + occ(pend1, x)
            + occ(seq![ds[0]], x) == live[x] + held(p, x) by {
            lemma_occ_concat(pend, tail, x);
            lemma_occ_concat(seq![ds[0]], tail, x);
        }
        assert forall|i: int| 0 <= i < first.len() implies p.contains_key(#[trigger] first[i]) by {
            assert(all[i] == first[i]);
        }
        lemma_acquired_accounted(p, live, pend1, ds[0], f);
        lemma_bump_all(p, first);
        lemma_zero_set_bump_all(p, first);
        vstd::set_lib::lemma_len_subset(zero_set(q1), zero_set(p));
        assert(q1.dom() =~= p.dom());
        assert forall|i: int| 0 <= i < rest.len() implies q1.contains_key(#[trigger] rest[i]) by {
            assert(all[first.len() + i] == rest[i]);
        }
        assert forall|x: TypeId| #[trigger] q1.contains_key(x) implies q1[x].demand_count + occ(pend, x)
            + occ(tail, x) == live[x] + held(q1, x) by {
            lemma_occ_concat(pend, tail, x);
        }
        lemma_acquired_all_accounted(q1, live, pend, tail, f);
        lemma_bump_all_concat(p, first, rest);
    }
}

/// Releasing `a` and then `b` from what `a` leaves is releasing `a + b`.
pub proof fn lemma_release_fits_join(p: Map<TypeId, EntryView>, a: Seq<TypeId>, b: Seq<TypeId>)
    requires
        release_fits(p, a),
        release_fits(unbump_all(p, a), b),
    ensures
        release_fits(p, a + b),
{
    lemma_unbump_all(p, a);
    let q = unbump_all(p, a);
    assert forall|i: int| 0 <= i < (a + b).len() implies p.contains_key(#[trigger] (a + b)[i]) by {
        if i < a.len() {
            assert((a + b)[i] == a[i]);
        } else {
            assert((a + b)[i] == b[i - a.len()]);
            assert(q.contains_key(b[i - a.len()]));
        }
    }
    assert forall|x: TypeId| #[trigger] p.contains_key(x) implies occ(a + b, x) <= p[x].demand_count by {
        lemma_occ_concat(a, b, x);
        assert(q.contains_key(x));
    }
}

/// Dropping references keeps the dependencies of types with demand
/// registered.
pub proof fn lemma_unbump_all_registered(p: Map<TypeId, EntryView>, s: Seq<TypeId>)
    requires
        active_deps_registered(p),
    ensures
        active_deps_registered(unbump_all(p, s)),
    decreases s.len(),
{
    if s.len() > 0 {
        lemma_unbump_all_registered(p, s.drop_last());
        let q = unbump_all(p, s.drop_last());
        let r = unbump(q, s.last());
        assert(r.dom() =~= q.dom());
        assert forall|t: TypeId, d: TypeId|
            #![trigger r[t].dependencies.contains(d)]
            r.contains_key(t) && r[t].demand_count > 0 && r[t].dependencies.contains(d)
                implies r.contains_key(d) by {
            assert(q[t].dependencies == r[t].dependencies);
            assert(q[t].demand_count >= r[t].demand_count);
        }
    }
}

/// Releasing one reference to `k`, with the references in `pend` still to be
/// released after it, is possible and keeps the entries accounted once those
/// are released.
pub proof fn lemma_released_accounted(
    p: Map<TypeId, EntryView>,
    live: Map<TypeId, nat>,
    pend: Seq<TypeId>,
    k: TypeId,
    f: nat,
)
    requires
        p.dom().finite(),
        live_set(p).len() <= f,
        active_deps_registered(p),
        p.contains_key(k),
        forall|x: TypeId| #[trigger]
            p.contains_key(x) ==> p[x].demand_count == live[x] + held(p, x) + occ(pend, x) + occ(
                seq![k],
                x,
            ),
    ensures
        release_fits(p, released(p, k, f)),
        active_deps_registered(unbump_all(p, released(p, k, f))),
        forall|x: TypeId| #[trigger]
            p.contains_key(x) ==> unbump_all(p, released(p, k, f))[x].demand_count == live[x] + held(
                unbump_all(p, released(p, k, f)),
                x,
            ) + occ(pend, x),
    decreases f, 0nat, 0nat,
{
    let s = released(p, k, f);
    lemma_occ_single(k, k);
    let p1 = unbump(p, k);
    lemma_single(p, k);
    assert(p1.dom() =~= p.dom());
    assert forall|x: TypeId| #[trigger] p.contains_key(x) implies held(p1, x) + held_by(p, k, x)
        == held(p, x) + held_by(p1, k, x) by {
        lemma_held_update(p, p1, k, x);
    }
    assert forall|x: TypeId| #[trigger] p.contains_key(x) implies p1[x].demand_count + occ(seq![k], x)
        == p[x].demand_count by {
        lemma_occ_single(k, x);
    }
    assert(release_fits(p, seq![k])) by {
        assert forall|x: TypeId| #[trigger] p.contains_key(x) implies occ(seq![k], x)
            <= p[x].demand_count by {
            lemma_occ_single(k, x);
        }
    }
    lemma_unbump_all_registered(p, seq![k]);
    if p[k].demand_count == 1 {
        assert(live_set(p).contains(k));
        assert(live_set(p).len() > 0);
        let f1 = (f - 1) as nat;
        let ds = p[k].dependencies;
        let rest = released_all(p1, ds, f1);
        assert(s == seq![k] + rest);
        lemma_live_set_unbump(p, k);
        assert(p1.dom().finite());
        assert forall|i: int| 0 <= i < ds.len() implies p1.contains_key(#[trigger] ds[i]) by {
            assert(p[k].dependencies.contains(ds[i]));
        }
        assert forall|x: TypeId| #[trigger] p1.contains_key(x) implies p1[x].demand_count == live[x]
            + held(p1, x) + occ(pend, x) + occ(ds, x) by {
            assert(p.contains_key(x));
        }
        lemma_released_all_accounted(p1, live, pend, ds, f1);
        lemma_release_fits_join(p, seq![k], rest);
        lemma_unbump_all_concat(p, seq![k], rest);
    } else {
        assert(s == seq![k]);
    }
}

/// Releasing one reference to each of `ds` in turn, with the references in
/// `pend` still to be released after them, is possible and keeps the entries
/// accounted once those are released.
pub proof fn lemma_released_all_accounted(
    p: Map<TypeId, EntryView>,
    live: Map<TypeId, nat>,
    pend: Seq<TypeId>,
    ds: Seq<TypeId>,
    f: nat,
)
    requires
        p.dom().finite(),
        live_set(p).len() <= f,
        active_deps_registered(p),
        forall|i: int| 0 <= i < ds.len() ==> p.contains_key(#[trigger] ds[i]),
        forall|x: TypeId| #[trigger]
            p.contains_key(x) ==> p[x].demand_count == live[x] + held(p, x) + occ(pend, x) + occ(
                ds,
                x,
            ),
    ensures
        release_fits(p, released_all(p, ds, f)),
        active_deps_registered(unbump_all(p, released_all(p, ds, f))),
        forall|x: TypeId| #[trigger]
            p.contains_key(x) ==> unbump_all(p, released_all(p, ds, f))[x].demand_count == live[x]
                + held(unbump_all(p, released_all(p, ds, f)), x) + occ(pend, x),
    decreases f, 1nat, ds.len(),
{
    if ds.len() == 0 {
        assert forall|x: TypeId| #[trigger] p.contains_key(x) implies occ(ds, x) == 0 by {
            assert(ds =~= Seq::<TypeId>::empty());
        }
        assert(released_all(p, ds, f) =~= Seq::<TypeId>::empty());
        assert forall|x: TypeId| #[trigger] p.contains_key(x) implies occ(
            Seq::<TypeId>::empty(),
            x,
        ) <= p[x].demand_count by {}
    } else {
        let first = released(p, ds[0], f);
        let tail = ds.drop_first();
        let q1 = unbump_all(p, first);
        let rest = released_all(q1, tail, f);
        assert(released_all(p, ds, f) == first + rest);
        let pend1 = pend + tail;
        assert(ds =~= seq![ds[0]] + tail);
        assert forall|x: TypeId| #[trigger] p.contains_key(x) implies p[x].demand_count == live[x]
            + held(p, x) + occ(pend1, x) + occ(seq![ds[0]], x) by {
            lemma_occ_concat(pend, tail, x);
            lemma_occ_concat(seq![ds[0]], tail, x);
        }
        lemma_released_accounted(p, live, pend1, ds[0], f);
        lemma_unbump_all_le(p, first);
        lemma_live_set_unbump_all(p, first);
        vstd::set_lib::lemma_len_subset(live_set(q1), live_set(p));
        assert forall|i: int| 0 <= i < tail.len() implies q1.contains_key(#[trigger] tail[i]) by {
            assert(tail[i] == ds[i + 1]);
        }
        assert forall|x: TypeId| #[trigger] q1.contains_key(x) implies q1[x].demand_count == live[x]
            + held(q1, x) + occ(pend, x) + occ(tail, x) by {
            lemma_occ_concat(pend, tail, x);
        }
        lemma_released_all_accounted(q1, live, pend, tail, f);
        lemma_release_fits_join(p, first, rest);
        lemma_unbump_all_concat(p, first, rest);
    }
}

/// The listings of `x` among the dependencies of `t` while `t` has no
/// demand: the references that demanding `t` would add on `x`.
pub open spec fn idle_by(p: Map<TypeId, EntryView>, t: TypeId, x: TypeId) -> nat {
    if p.contains_key(t) && p[t].demand_count == 0 {
        occ(p[t].dependencies, x)
    } else {
        0
    }
}

/// The listings of `x` by the types of `ts` without demand.
pub open spec fn idle_over(p: Map<TypeId, EntryView>, ts: Set<TypeId>, x: TypeId) -> nat
    decreases ts.len(),
    when ts.finite()
{
    if ts.len() == 0 {
        0
    } else {
        let t = ts.choose();
        idle_by(p, t, x) + idle_over(p, ts.remove(t), x)
    }
}

/// The listings of `x` by registered types without demand.
pub open spec fn idle(p: Map<TypeId, EntryView>, x: TypeId) -> nat {
    idle_over(p, p.dom(), x)
}

/// No demand count can pass `usize::MAX` on one more demand: each count has
/// room for one reference, and one for each listing by a type without
/// demand.
pub open spec fn counts_fit(p: Map<TypeId, EntryView>) -> bool {
    forall|x: TypeId| #[trigger] p.contains_key(x) ==> p[x].demand_count + 1 + idle(p, x) <= usize::MAX
}

pub proof fn lemma_idle_over_remove(p: Map<TypeId, EntryView>, ts: Set<TypeId>, t: TypeId, x: TypeId)
    requires
        ts.finite(),
        ts.contains(t),
    ensures
        idle_over(p, ts, x) == idle_by(p, t, x) + idle_over(p, ts.remove(t), x),
    decreases ts.len(),
{
    let c = ts.choose();
    if c != t {
        lemma_idle_over_remove(p, ts.remove(c), t, x);
        lemma_idle_over_remove(p, ts.remove(t), c, x);
        assert(ts.remove(c).remove(t) =~= ts.remove(t).remove(c));
    }
}

pub proof fn lemma_idle_over_congruent(
    p: Map<TypeId, EntryView>,
    q: Map<TypeId, EntryView>,
    ts: Set<TypeId>,
    x: TypeId,
)
    requires
        ts.finite(),
        forall|t: TypeId| #[trigger] ts.contains(t) ==> idle_by(p, t, x) == idle_by(q, t, x),
    ensures
        idle_over(p, ts, x) == idle_over(q, ts, x),
    decreases ts.len(),
{
    if ts.len() > 0 {
        let c = ts.choose();
        lemma_idle_over_congruent(p, q, ts.remove(c), x);
    }
}

/// Changing one registered entry changes the idle listings by that entry's.
pub proof fn lemma_idle_update(p: Map<TypeId, EntryView>, q: Map<TypeId, EntryView>, k: TypeId, x: TypeId)
    requires
        p.dom().finite(),
        q.dom() == p.dom(),
        p.contains_key(k),
        forall|t: TypeId| #[trigger] p.contains_key(t) && t != k ==> q[t] == p[t],
    ensures
        idle(q, x) + idle_by(p, k, x) == idle(p, x) + idle_by(q, k, x),
{
    lemma_idle_over_remove(p, p.dom(), k, x);
    lemma_idle_over_remove(q, q.dom(), k, x);
    lemma_idle_over_congruent(p, q, p.dom().remove(k), x);
}

/// Demanding `k` adds at most one reference on `x` beyond the listings of
/// `x` by the types it takes from no demand to some.
pub proof fn lemma_acquired_occ_bound(p: Map<TypeId, EntryView>, k: TypeId, f: nat, x: TypeId)
    requires
        p.dom().finite(),
        zero_set(p).len() <= f,
    ensures
        occ(acquired(p, k, f), x) + idle(bump_all(p, acquired(p, k, f)), x) <= occ(seq![k], x)
            + idle(p, x),
    decreases f, 0nat, 0nat,
{
    let s = acquired(p, k, f);
    let p1 = bump(p, k);
    lemma_single(p, k);
    if p.contains_key(k) {
        assert(p1.dom() =~= p.dom());
        lemma_idle_update(p, p1, k, x);
        if p[k].demand_count == 0 {
            assert(zero_set(p).contains(k));
            assert(zero_set(p).len() > 0);
            let f1 = (f - 1) as nat;
            let ds = p[k].dependencies;
            let rest = acquired_all(p1, ds, f1);
            assert(s == seq![k] + rest);
            lemma_zero_set_bump(p, k);
            lemma_acquired_all_occ_bound(p1, ds, f1, x);
            lemma_occ_concat(seq![k], rest, x);
            lemma_bump_all_concat(p, seq![k], rest);
        } else {
            assert(s == seq![k]);
        }
    } else {
        assert(s == seq![k]);
    }
}

/// Demanding each of `ds` in turn adds at most their own references on `x`
/// beyond the listings of `x` by the types taken from no demand to some.
pub proof fn lemma_acquired_all_occ_bound(p: Map<TypeId, EntryView>, ds: Seq<TypeId>, f: nat, x: TypeId)
    requires
        p.dom().finite(),
        zero_set(p).len() <= f,
    ensures
        occ(acquired_all(p, ds, f), x) + idle(bump_all(p, acquired_all(p, ds, f)), x) <= occ(ds, x)
            + idle(p, x),
    decreases f, 1nat, ds.len(),
{
    if ds.len() == 0 {
        assert(acquired_all(p, ds, f) =~= Seq::<TypeId>::empty());
        assert(occ(Seq::<TypeId>::empty(), x) == 0);
    } else {
        let first = acquired(p, ds[0], f);
        let tail = ds.drop_first();
        let q1 = bump_all(p, first);
        let rest = acquired_all(q1, tail, f);
        assert(acquired_all(p, ds, f) == first + rest);
        lemma_acquired_occ_bound(p, ds[0], f, x);
        lemma_bump_all(p, first);
        lemma_zero_set_bump_all(p, first);
        vstd::set_lib::lemma_len_subset(zero_set(q1), zero_set(p));
        assert(q1.dom() =~= p.dom());
        lemma_acquired_all_occ_bound(q1, tail, f, x);
        lemma_occ_concat(first, rest, x);
        assert(ds =~= seq![ds[0]] + tail);
        lemma_occ_concat(seq![ds[0]], tail, x);
        lemma_bump_all_concat(p, first, rest);
    }
}

/// The registered types that reach `x` in one or more dependency steps.
pub open spec fn ancestors(p: Map<TypeId, EntryView>, x: TypeId) -> Set<TypeId> {
    p.dom().filter(|a: TypeId| reaches_plus(deps_map(p), a, x))
}

/// Over an acyclic dependency graph, the live demands fix every count: two
/// accounted states with the same entries but for their counts, and the same
/// live demands, have the same count for `x`.
pub proof fn lemma_accounted_count_unique(
    p: Map<TypeId, EntryView>,
    r: Map<TypeId, EntryView>,
    live: Map<TypeId, nat>,
    x: TypeId,
)
    requires
        accounted(p, live),
        accounted(r, live),
        r.dom() == p.dom(),
        forall|t: TypeId| #[trigger] p.contains_key(t) ==> r[t].dependencies == p[t].dependencies,
        acyclic(deps_map(p)),
        p.contains_key(x),
    ensures
        r[x].demand_count == p[x].demand_count,
    decreases ancestors(p, x).len(),
{
    let m = deps_map(p);
    assert forall|t: TypeId| #[trigger] p.dom().contains(t) implies held_by(p, t, x) == held_by(r, t, x) by {
        if occ(p[t].dependencies, x) > 0 {
            crate::activation::lemma_occ_bounds(p[t].dependencies, x);
            assert(edge(m, t, x));
            assert(is_path(m, seq![t, x]));
            assert(reaches_plus(m, t, x));
            assert(ancestors(p, t).subset_of(ancestors(p, x).remove(t))) by {
                assert forall|a: TypeId| #[trigger] ancestors(p, t).contains(a) implies ancestors(
                    p,
                    x,
                ).remove(t).contains(a) by {
                    lemma_reaches_plus_step(m, a, t, x);
                    if a == t {
                        lemma_acyclic_no_loop(m, t);
                    }
                }
            }
            assert(ancestors(p, x).contains(t));
            vstd::set_lib::lemma_len_subset(ancestors(p, t), ancestors(p, x).remove(t));
            lemma_accounted_count_unique(p, r, live, t);
        }
    }
    lemma_held_over_congruent(p, r, p.dom(), x);
}

} // verus!
