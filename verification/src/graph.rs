//! The reverse dependency map and the cycle check run on it at registration.

use std::any::TypeId;
use vstd::prelude::*;

use crate::keyed::{keyed_map, keys_distinct, lemma_keyed_finite, lemma_keyed_lookup, lemma_keyed_push, lemma_keyed_update, Keyed};
use crate::type_key::{contains_key, same_type};

verus! {

broadcast use vstd::set::group_set_axioms, vstd::seq::group_seq_axioms;

/// For each type, the types registered as depending on it ("dependents").
///
/// A map from keys to lists of keys, held as a list of pairs in which no key
/// occurs twice.
pub struct Dependents {
    entries: Vec<(TypeId, Vec<TypeId>)>,
}

/// `m` has an edge from `a` to `b`: `b` is listed under `a`.
pub open spec fn edge(m: Map<TypeId, Seq<TypeId>>, a: TypeId, b: TypeId) -> bool {
    m.contains_key(a) && m[a].contains(b)
}

/// `p` is a non-empty walk along the edges of `m`.
pub open spec fn is_path(m: Map<TypeId, Seq<TypeId>>, p: Seq<TypeId>) -> bool {
    &&& p.len() >= 1
    &&& forall|i: int| #![trigger p[i]] 0 <= i < p.len() - 1 ==> edge(m, p[i], p[i + 1])
}

/// `b` can be reached from `a` by following the edges of `m` (in zero or more
/// steps).
pub open spec fn reaches(m: Map<TypeId, Seq<TypeId>>, a: TypeId, b: TypeId) -> bool {
    exists|p: Seq<TypeId>| #[trigger] is_path(m, p) && p[0] == a && p.last() == b
}

/// Every edge of `m` that leaves `v` (a member of `vs` outside `open`) ends in
/// `vs`.
pub open spec fn closed_except(
    m: Map<TypeId, Seq<TypeId>>,
    vs: Set<TypeId>,
    open: Set<TypeId>,
) -> bool {
    forall|v: TypeId, s: TypeId|
        #![trigger vs.contains(v), edge(m, v, s)]
        vs.contains(v) && !open.contains(v) && edge(m, v, s) ==> vs.contains(s)
}

impl Keyed for (TypeId, Vec<TypeId>) {
    type Val = Seq<TypeId>;

    open spec fn key(&self) -> TypeId {
        self.0
    }

    open spec fn val(&self) -> Seq<TypeId> {
        self.1@
    }
}

impl View for Dependents {
    type V = Map<TypeId, Seq<TypeId>>;

    closed spec fn view(&self) -> Map<TypeId, Seq<TypeId>> {
        keyed_map(self.entries@)
    }
}

impl Dependents {
    /// No key is held twice.
    pub closed spec fn wf(&self) -> bool {
        keys_distinct(self.entries@)
    }

    /// The held map has finitely many keys.
    pub proof fn lemma_finite(&self)
        ensures
            self@.dom().finite(),
    {
        lemma_keyed_finite(self.entries@);
    }

    /// An empty map.
    pub fn new() -> (r: Self)
        ensures
            r.wf(),
            r@ == Map::<TypeId, Seq<TypeId>>::empty(),
    {
        let r = Dependents { entries: Vec::new() };
        assert(r@ =~= Map::<TypeId, Seq<TypeId>>::empty());
        r
    }

    /// The index of `key` in the list of pairs, if it is there.
    fn find(&self, key: &TypeId) -> (r: Option<usize>)
        requires
            self.wf(),
        ensures
            match r {
                Some(i) => i < self.entries@.len() && self.entries@[i as int].0 == *key,
                None => !self@.contains_key(*key),
            },
    {
        let mut i: usize = 0;
        while i < self.entries.len()
            invariant
                i <= self.entries@.len(),
                forall|j: int| 0 <= j < i ==> self.entries@[j].0 != *key,
            decreases self.entries@.len() - i,
        {
            if same_type(&self.entries[i].0, key) {
                return Some(i);
            }
            i = i + 1;
        }
        None
    }

    /// The list held under `key`, if any.
    pub fn get(&self, key: &TypeId) -> (r: Option<&Vec<TypeId>>)
        requires
            self.wf(),
        ensures
            match r {
                Some(v) => self@.contains_key(*key) && v@ == self@[*key],
                None => !self@.contains_key(*key),
            },
    {
        match self.find(key) {
            Some(i) => {
                proof {
                    lemma_keyed_lookup(self.entries@, i as int);
                }
                Some(&self.entries[i].1)
            },
            None => None,
        }
    }

    /// Holds `list` under `key`, replacing what was held there.
    pub fn insert(&mut self, key: TypeId, list: Vec<TypeId>)
        requires
            old(self).wf(),
        ensures
            final(self).wf(),
            final(self)@ == old(self)@.insert(key, list@),
    {
        match self.find(&key) {
            Some(i) => {
                proof {
                    lemma_keyed_update(self.entries@, i as int, (key, list));
                }
                self.entries.set(i, (key, list));
            },
            None => {
                proof {
                    lemma_keyed_push(self.entries@, (key, list));
                }
                self.entries.push((key, list));
            },
        }
    }

    /// Appends `dependent` to the list held under `dependency` (an empty list
    /// if there was none).
    pub fn push_dependent(&mut self, dependency: TypeId, dependent: TypeId)
        requires
            old(self).wf(),
        ensures
            final(self).wf(),
            final(self)@ == old(self)@.insert(
                dependency,
                if old(self)@.contains_key(dependency) {
                    old(self)@[dependency]
                } else {
                    Seq::empty()
                }.push(dependent),
            ),
    {
        match self.find(&dependency) {
            Some(i) => {
                proof {
                    lemma_keyed_lookup(self.entries@, i as int);
                }
                let mut list = copy_keys(&self.entries[i].1);
                list.push(dependent);
                proof {
                    lemma_keyed_update(self.entries@, i as int, (dependency, list));
                }
                self.entries.set(i, (dependency, list));
            },
            None => {
                let mut list: Vec<TypeId> = Vec::new();
                list.push(dependent);
                assert(list@ == Seq::<TypeId>::empty().push(dependent));
                proof {
                    lemma_keyed_push(self.entries@, (dependency, list));
                }
                self.entries.push((dependency, list));
            },
        }
    }
}

/// A copy of a list of keys.
pub fn copy_keys(keys: &Vec<TypeId>) -> (r: Vec<TypeId>)
    ensures
        r@ == keys@,
{
    let mut r: Vec<TypeId> = Vec::new();
    let mut i: usize = 0;
    while i < keys.len()
        invariant
            i <= keys@.len(),
            r@ == keys@.subrange(0, i as int),
        decreases keys@.len() - i,
    {
        r.push(keys[i]);
        i = i + 1;
        assert(r@ =~= keys@.subrange(0, i as int));
    }
    assert(r@ =~= keys@);
    r
}

/// The members of `s.push(x)` are those of `s` and `x`.
pub proof fn lemma_push_to_set(s: Seq<TypeId>, x: TypeId)
    ensures
        s.push(x).to_set() == s.to_set().insert(x),
{
    assert forall|y: TypeId| s.push(x).contains(y) implies s.contains(y) || y == x by {
        let k = choose|k: int| 0 <= k < s.len() + 1 && s.push(x)[k] == y;
        if k < s.len() {
            assert(s[k] == y);
        }
    }
    assert forall|y: TypeId| s.contains(y) || y == x implies s.push(x).contains(y) by {
        if y == x {
            assert(s.push(x)[s.len() as int] == y);
        } else {
            let k = choose|k: int| 0 <= k < s.len() && s[k] == y;
            assert(s.push(x)[k] == y);
        }
    }
    assert forall|y: TypeId| #[trigger] s.push(x).to_set().contains(y) == s.to_set().insert(x).contains(y) by {
        if s.push(x).contains(y) {
            assert(s.contains(y) || y == x);
        }
        if s.contains(y) || y == x {
            assert(s.push(x).contains(y));
        }
    }
    assert(s.push(x).to_set() =~= s.to_set().insert(x));
}

/// A walk that starts in a set closed under edges stays in it.
pub proof fn lemma_closed_contains_path(m: Map<TypeId, Seq<TypeId>>, vs: Set<TypeId>, p: Seq<TypeId>)
    requires
        closed_except(m, vs, Set::empty()),
        is_path(m, p),
        vs.contains(p[0]),
    ensures
        vs.contains(p.last()),
{
    lemma_closed_contains_prefix(m, vs, p, p.len() - 1);
}

proof fn lemma_closed_contains_prefix(
    m: Map<TypeId, Seq<TypeId>>,
    vs: Set<TypeId>,
    p: Seq<TypeId>,
    i: int,
)
    requires
        closed_except(m, vs, Set::empty()),
        is_path(m, p),
        vs.contains(p[0]),
        0 <= i < p.len(),
    ensures
        vs.contains(p[i]),
    decreases i,
{
    if i > 0 {
        lemma_closed_contains_prefix(m, vs, p, i - 1);
        assert(edge(m, p[i - 1], p[i]));
    }
}

/// No edge of `m` lies on a cycle: what an edge leads to never leads back.
pub open spec fn acyclic(m: Map<TypeId, Seq<TypeId>>) -> bool {
    forall|a: TypeId, b: TypeId| #[trigger] edge(m, a, b) ==> !reaches(m, b, a)
}

/// Following two walks in turn, the second starting where the first ends.
pub proof fn lemma_path_concat(m: Map<TypeId, Seq<TypeId>>, p: Seq<TypeId>, q: Seq<TypeId>)
    requires
        is_path(m, p),
        is_path(m, q),
        p.last() == q[0],
    ensures
        is_path(m, p + q.drop_first()),
        (p + q.drop_first())[0] == p[0],
        (p + q.drop_first()).last() == q.last(),
{
    let r = p + q.drop_first();
    assert forall|i: int| #![trigger r[i]] 0 <= i < r.len() - 1 implies edge(m, r[i], r[i + 1]) by {
        if i < p.len() - 1 {
            assert(r[i] == p[i] && r[i + 1] == p[i + 1]);
        } else if i == p.len() - 1 {
            assert(r[i] == q[0] && r[i + 1] == q[1]);
        } else {
            let k = i - p.len() + 1;
            assert(r[i] == q[k] && r[i + 1] == q[k + 1]);
        }
    }
    if q.len() == 1 {
        assert(r =~= p);
    }
}

/// A walk read backwards is a walk of a map that holds every edge reversed.
pub proof fn lemma_path_reverse(
    m: Map<TypeId, Seq<TypeId>>,
    r: Map<TypeId, Seq<TypeId>>,
    p: Seq<TypeId>,
)
    requires
        forall|a: TypeId, b: TypeId| #[trigger] edge(m, a, b) ==> edge(r, b, a),
        is_path(m, p),
    ensures
        is_path(r, p.reverse()),
        p.reverse()[0] == p.last(),
        p.reverse().last() == p[0],
{
    let q = p.reverse();
    let n = p.len();
    assert forall|i: int| #![trigger q[i]] 0 <= i < q.len() - 1 implies edge(r, q[i], q[i + 1]) by {
        let j = n - 2 - i;
        assert(q[i] == p[j + 1] && q[i + 1] == p[j]);
        assert(edge(m, p[j], p[j + 1]));
    }
}

/// A part of a walk is a walk.
pub proof fn lemma_path_sub(m: Map<TypeId, Seq<TypeId>>, p: Seq<TypeId>, lo: int, hi: int)
    requires
        is_path(m, p),
        0 <= lo < hi <= p.len(),
    ensures
        is_path(m, p.subrange(lo, hi)),
{
    let q = p.subrange(lo, hi);
    assert forall|i: int| #![trigger q[i]] 0 <= i < q.len() - 1 implies edge(m, q[i], q[i + 1]) by {
        assert(q[i] == p[lo + i] && q[i + 1] == p[lo + i + 1]);
    }
}

/// A walk in `old.insert(t, ds)` that reaches `t` reaches it already in `old`:
/// up to its first visit of `t` it leaves only keys other than `t`.
pub proof fn lemma_first_visit(
    old: Map<TypeId, Seq<TypeId>>,
    t: TypeId,
    ds: Seq<TypeId>,
    w: Seq<TypeId>,
    k: int,
)
    requires
        is_path(old.insert(t, ds), w),
        0 <= k < w.len(),
        w[k] == t,
    ensures
        reaches(old, w[0], t),
    decreases k,
{
    let n = old.insert(t, ds);
    let f = choose|f: int| 0 <= f <= k && w[f] == t && forall|g: int| 0 <= g < f ==> w[g] != t;
    if exists|f: int| 0 <= f <= k && w[f] == t && forall|g: int| 0 <= g < f ==> w[g] != t {
        let q = w.subrange(0, f + 1);
        assert forall|i: int| #![trigger q[i]] 0 <= i < q.len() - 1 implies edge(old, q[i], q[i + 1]) by {
            assert(q[i] == w[i] && q[i + 1] == w[i + 1]);
            assert(edge(n, w[i], w[i + 1]));
            assert(w[i] != t);
        }
        assert(is_path(old, q));
        assert(q[0] == w[0] && q.last() == t);
    } else {
        // the earliest visit of t before k is an earlier witness
        let g = choose|g: int| 0 <= g < k && w[g] == t;
        if exists|g: int| 0 <= g < k && w[g] == t {
            lemma_first_visit(old, t, ds, w, g);
        } else {
            assert(forall|g: int| 0 <= g < k ==> w[g] != t);
            assert(false);
        }
    }
}

/// Adding a key `t` without edges into a cycle keeps a map acyclic: `t` is
/// new, and none of its targets reaches it.
pub proof fn lemma_insert_acyclic(old: Map<TypeId, Seq<TypeId>>, t: TypeId, ds: Seq<TypeId>)
    requires
        acyclic(old),
        !old.contains_key(t),
        forall|i: int| 0 <= i < ds.len() ==> !reaches(old, #[trigger] ds[i], t),
    ensures
        acyclic(old.insert(t, ds)),
{
    let n = old.insert(t, ds);
    assert forall|a: TypeId, b: TypeId| #[trigger] edge(n, a, b) implies !reaches(n, b, a) by {
        if reaches(n, b, a) {
            let q = choose|q: Seq<TypeId>| #[trigger] is_path(n, q) && q[0] == b && q.last() == a;
            let c = seq![a] + q;
            assert(is_path(n, c)) by {
                assert forall|i: int| #![trigger c[i]] 0 <= i < c.len() - 1 implies edge(n, c[i], c[i + 1]) by {
                    if i > 0 {
                        assert(c[i] == q[i - 1] && c[i + 1] == q[i]);
                    }
                }
            }
            if exists|j: int| 0 <= j < c.len() && c[j] == t {
                let j = choose|j: int| 0 <= j < c.len() && c[j] == t;
                // the walk after this visit of t, around the cycle and back to t
                let last = c.len() - 1;
                let j0 = if j == last {
                    0
                } else {
                    j
                };
                assert(c[j0] == t);
                assert(c[last] == a && c[0] == a);
                let w1 = c.subrange(j0 + 1, c.len() as int);
                let w2 = c.subrange(0, j0 + 1);
                lemma_path_sub(n, c, j0 + 1, c.len() as int);
                lemma_path_sub(n, c, 0, j0 + 1);
                assert(w1.last() == w2[0]);
                lemma_path_concat(n, w1, w2);
                let w = w1 + w2.drop_first();
                assert(w.last() == t);
                lemma_first_visit(old, t, ds, w, w.len() - 1);
                assert(edge(n, c[j0], c[j0 + 1]));
                assert(n[t].contains(w[0]));
                let i = choose|i: int| 0 <= i < ds.len() && ds[i] == w[0];
                assert(!reaches(old, ds[i], t));
            } else {
                assert forall|i: int| #![trigger c[i]] 0 <= i < c.len() - 1 implies edge(old, c[i], c[i + 1]) by {
                    assert(edge(n, c[i], c[i + 1]));
                    assert(c[i] != t);
                }
                assert(is_path(old, c));
                assert(edge(old, a, b)) by {
                    assert(c[0] == a && c[1] == b);
                }
                assert(is_path(old, q)) by {
                    assert forall|i: int| #![trigger q[i]] 0 <= i < q.len() - 1 implies edge(old, q[i], q[i + 1]) by {
                        assert(q[i] == c[i + 1] && q[i + 1] == c[i + 2]);
                    }
                }
                assert(reaches(old, b, a));
            }
        }
    }
}

/// `b` can be reached from `a` in one or more steps along `m`.
pub open spec fn reaches_plus(m: Map<TypeId, Seq<TypeId>>, a: TypeId, b: TypeId) -> bool {
    exists|p: Seq<TypeId>| #[trigger] is_path(m, p) && p.len() >= 2 && p[0] == a && p.last() == b
}

/// In an acyclic map no walk of one or more steps returns to its start.
pub proof fn lemma_acyclic_no_loop(m: Map<TypeId, Seq<TypeId>>, k: TypeId)
    requires
        acyclic(m),
    ensures
        !reaches_plus(m, k, k),
{
    if reaches_plus(m, k, k) {
        let p = choose|p: Seq<TypeId>| #[trigger]
            is_path(m, p) && p.len() >= 2 && p[0] == k && p.last() == k;
        assert(edge(m, p[0], p[1]));
        let q = p.subrange(1, p.len() as int);
        lemma_path_sub(m, p, 1, p.len() as int);
        assert(q[0] == p[1] && q.last() == k);
        assert(reaches(m, p[1], k));
    }
}

/// A walk of one or more steps to `a`, followed by the edge from `a` to `b`.
pub proof fn lemma_reaches_plus_step(m: Map<TypeId, Seq<TypeId>>, x: TypeId, a: TypeId, b: TypeId)
    requires
        reaches_plus(m, x, a),
        edge(m, a, b),
    ensures
        reaches_plus(m, x, b),
{
    let p = choose|p: Seq<TypeId>| #[trigger]
        is_path(m, p) && p.len() >= 2 && p[0] == x && p.last() == a;
    let q = seq![a, b];
    assert(is_path(m, q));
    lemma_path_concat(m, p, q);
    let r = p + q.drop_first();
    assert(r.len() >= 2 && r[0] == x && r.last() == b);
}

/// An edge from `a` to `b` followed by a walk from `b` to `c`.
pub proof fn lemma_reaches_prepend(m: Map<TypeId, Seq<TypeId>>, a: TypeId, b: TypeId, c: TypeId)
    requires
        edge(m, a, b),
        reaches(m, b, c),
    ensures
        reaches_plus(m, a, c),
{
    let q = choose|q: Seq<TypeId>| #[trigger] is_path(m, q) && q[0] == b && q.last() == c;
    let p = seq![a, b];
    assert(is_path(m, p));
    lemma_path_concat(m, p, q);
    let r = p + q.drop_first();
    assert(r.len() >= 2 && r[0] == a && r.last() == c);
}

/// One or more steps are in particular some steps.
pub proof fn lemma_reaches_plus_reaches(m: Map<TypeId, Seq<TypeId>>, a: TypeId, b: TypeId)
    requires
        reaches_plus(m, a, b),
    ensures
        reaches(m, a, b),
{
    let p = choose|p: Seq<TypeId>| #[trigger] is_path(m, p) && p.len() >= 2 && p[0] == a && p.last() == b;
}

/// Every key reaches itself.
pub proof fn lemma_reaches_refl(m: Map<TypeId, Seq<TypeId>>, a: TypeId)
    ensures
        reaches(m, a, a),
{
    assert(is_path(m, seq![a]));
}

/// Whether `to` can be reached from `from` by following the lists of
/// `dependents` (in zero or more steps): adding a dependency of `from` on `to`
/// would then close a cycle.
pub fn has_cycle(dependents: &Dependents, from: TypeId, to: TypeId) -> (r: bool)
    requires
        dependents.wf(),
    ensures
        r == reaches(dependents@, from, to),
{
    let mut visited: Vec<TypeId> = Vec::new();
    proof {
        assert(closed_except(dependents@, visited@.to_set(), Set::empty()));
    }
    let (r, _calls) = dfs(dependents, from, to, &mut visited, Ghost(Set::empty()));
    proof {
        if !r && reaches(dependents@, from, to) {
            let p = choose|p: Seq<TypeId>| #[trigger]
                is_path(dependents@, p) && p[0] == from && p.last() == to;
            lemma_closed_contains_path(dependents@, visited@.to_set(), p);
        }
    }
    r
}

/// The number of dependents listed for the keys of `s`, summed.
pub open spec fn degree_sum(m: Map<TypeId, Seq<TypeId>>, s: Seq<TypeId>) -> nat
    decreases s.len(),
{
    if s.len() == 0 {
        0
    } else {
        degree_sum(m, s.drop_last()) + if m.contains_key(s.last()) {
            m[s.last()].len()
        } else {
            0nat
        }
    }
}

pub proof fn lemma_degree_sum_concat(m: Map<TypeId, Seq<TypeId>>, a: Seq<TypeId>, b: Seq<TypeId>)
    ensures
        degree_sum(m, a + b) == degree_sum(m, a) + degree_sum(m, b),
    decreases b.len(),
{
    if b.len() == 0 {
        assert(a + b =~= a);
    } else {
        lemma_degree_sum_concat(m, a, b.drop_last());
        assert((a + b).drop_last() =~= a + b.drop_last());
        assert((a + b).last() == b.last());
    }
}

/// The number of dependents listed for `t`.
pub open spec fn degree(m: Map<TypeId, Seq<TypeId>>, t: TypeId) -> nat {
    if m.contains_key(t) {
        m[t].len()
    } else {
        0
    }
}

/// The number of dependents listed for the keys of `ts`, summed.
pub open spec fn degree_over(m: Map<TypeId, Seq<TypeId>>, ts: Set<TypeId>) -> nat
    decreases ts.len(),
    when ts.finite()
{
    if ts.len() == 0 {
        0
    } else {
        let t = ts.choose();
        degree(m, t) + degree_over(m, ts.remove(t))
    }
}

/// The length of all the lists of `m`, summed.
pub open spec fn degree_total(m: Map<TypeId, Seq<TypeId>>) -> nat {
    degree_over(m, m.dom())
}

proof fn lemma_degree_over_remove(m: Map<TypeId, Seq<TypeId>>, ts: Set<TypeId>, t: TypeId)
    requires
        ts.finite(),
        ts.contains(t),
    ensures
        degree_over(m, ts) == degree(m, t) + degree_over(m, ts.remove(t)),
    decreases ts.len(),
{
    let c = ts.choose();
    if c != t {
        lemma_degree_over_remove(m, ts.remove(c), t);
        lemma_degree_over_remove(m, ts.remove(t), c);
        assert(ts.remove(c).remove(t) =~= ts.remove(t).remove(c));
    }
}

/// Summing over fewer keys of `m` gives no more.
proof fn lemma_degree_over_le(m: Map<TypeId, Seq<TypeId>>, a: Set<TypeId>, b: Set<TypeId>)
    requires
        a.finite(),
        b.finite(),
        forall|t: TypeId| #[trigger] a.contains(t) && m.contains_key(t) ==> b.contains(t),
    ensures
        degree_over(m, a) <= degree_over(m, b),
    decreases a.len(),
{
    if a.len() > 0 {
        let t = a.choose();
        lemma_degree_over_remove(m, a, t);
        if m.contains_key(t) {
            lemma_degree_over_remove(m, b, t);
            lemma_degree_over_le(m, a.remove(t), b.remove(t));
        } else {
            lemma_degree_over_le(m, a.remove(t), b);
        }
    }
}

/// Keys listed once each account for at most all the lists of `m`.
pub proof fn lemma_degree_sum_total(m: Map<TypeId, Seq<TypeId>>, s: Seq<TypeId>)
    requires
        m.dom().finite(),
        s.no_duplicates(),
    ensures
        degree_sum(m, s) <= degree_total(m),
{
    lemma_degree_sum_set(m, s);
    lemma_degree_over_le(m, s.to_set(), m.dom());
}

proof fn lemma_degree_sum_set(m: Map<TypeId, Seq<TypeId>>, s: Seq<TypeId>)
    requires
        s.no_duplicates(),
    ensures
        s.to_set().finite(),
        degree_sum(m, s) == degree_over(m, s.to_set()),
    decreases s.len(),
{
    if s.len() == 0 {
        assert(s.to_set() =~= Set::<TypeId>::empty());
    } else {
        let t = s.drop_last();
        assert(t.no_duplicates());
        lemma_degree_sum_set(m, t);
        assert(s =~= t.push(s.last()));
        lemma_push_to_set(t, s.last());
        assert(!t.contains(s.last())) by {
            if t.contains(s.last()) {
                let i = choose|i: int| 0 <= i < t.len() && t[i] == s.last();
                assert(s[i] == s[s.len() - 1]);
            }
        }
        lemma_degree_over_remove(m, s.to_set(), s.last());
        assert(s.to_set().remove(s.last()) =~= t.to_set());
    }
}

/// A search that entered `current`, entered only keys reachable from it and
/// left no entered key with an unentered dependent has entered exactly the
/// keys reachable from `current`.
proof fn lemma_search_complete(m: Map<TypeId, Seq<TypeId>>, vs: Seq<TypeId>, current: TypeId)
    requires
        closed_except(m, vs.to_set(), Set::empty()),
        vs.contains(current),
        forall|k: int| 0 <= k < vs.len() ==> reaches(m, current, #[trigger] vs[k]),
    ensures
        forall|x: TypeId| vs.contains(x) <==> reaches(m, current, x),
{
    assert forall|x: TypeId| vs.contains(x) <==> reaches(m, current, x) by {
        if reaches(m, current, x) {
            let p = choose|p: Seq<TypeId>| #[trigger] is_path(m, p) && p[0] == current && p.last() == x;
            lemma_closed_contains_path(m, vs.to_set(), p);
        }
        if vs.contains(x) {
            let k = choose|k: int| 0 <= k < vs.len() && vs[k] == x;
            assert(reaches(m, current, vs[k]));
        }
    }
}

/// Depth-first search from `current` for `target`, skipping what is already in
/// `visited` and appending each key it enters. Keys in `stack` are those whose
/// search is still under way further up. Also returns the number of calls the
/// search made, itself included.
fn dfs(
    dependents: &Dependents,
    current: TypeId,
    target: TypeId,
    visited: &mut Vec<TypeId>,
    Ghost(stack): Ghost<Set<TypeId>>,
) -> (r: (bool, Ghost<nat>))
    requires
        dependents.wf(),
        stack.subset_of(old(visited)@.to_set()),
        closed_except(dependents@, old(visited)@.to_set(), stack),
    ensures
        old(visited)@.to_set().subset_of(final(visited)@.to_set()),
        final(visited)@.len() >= old(visited)@.len(),
        final(visited)@.subrange(0, old(visited)@.len() as int) == old(visited)@,
        forall|k: int|
            old(visited)@.len() <= k < final(visited)@.len() ==> reaches(
                dependents@,
                current,
                #[trigger] final(visited)@[k],
            ) && final(visited)@[k] != target,
        final(visited)@.skip(old(visited)@.len() as int).no_duplicates(),
        forall|k: int|
            old(visited)@.len() <= k < final(visited)@.len() ==> !old(visited)@.contains(
                #[trigger] final(visited)@[k],
            ),
        r.0 ==> reaches(dependents@, current, target),
        !r.0 ==> {
            &&& closed_except(dependents@, final(visited)@.to_set(), stack)
            &&& final(visited)@.contains(current)
            &&& !old(visited)@.contains(target) ==> !final(visited)@.contains(target)
        },
        !r.0 && old(visited)@.len() == 0 ==> forall|x: TypeId|
            final(visited)@.contains(x) <==> reaches(dependents@, current, x),
        r.1@ <= 1 + degree_sum(dependents@, final(visited)@.skip(old(visited)@.len() as int)),
        r.1@ <= 1 + degree_total(dependents@),
    decreases dependents@.dom().difference(old(visited)@.to_set()).len(),
{
    let ghost m = dependents@;
    let ghost len0 = visited@.len();
    if same_type(&current, &target) {
        assert(is_path(m, seq![current]));
        assert(visited@.skip(len0 as int) =~= Seq::<TypeId>::empty());
        assert(visited@.subrange(0, len0 as int) =~= visited@);
        return (true, Ghost(1));
    }
    if contains_key(visited, &current) {
        assert(visited@.skip(len0 as int) =~= Seq::<TypeId>::empty());
        assert(visited@.subrange(0, len0 as int) =~= visited@);
        return (false, Ghost(1));
    }
    let ghost v0 = visited@.to_set();
    proof {
        lemma_push_to_set(visited@, current);
    }
    visited.push(current);
    let ghost len1 = visited@.len();
    let ghost open = stack.insert(current);
    assert(visited@.to_set() == v0.insert(current));
    proof {
        lemma_reaches_refl(m, current);
        assert(visited@.subrange(0, len1 as int) =~= old(visited)@.push(current));
        assert(visited@.skip(len1 as int) =~= Seq::<TypeId>::empty());
        assert(visited@.skip(len0 as int) =~= seq![current] + visited@.skip(len1 as int));
        lemma_degree_sum_concat(m, seq![current], visited@.skip(len1 as int));
        assert(seq![current].drop_last() =~= Seq::<TypeId>::empty());
        if old(visited)@.len() == 0 {
            assert(stack =~= Set::<TypeId>::empty());
        }
    }
    match dependents.get(&current) {
        Some(deps) => {
            proof {
                dependents.lemma_finite();
            }
            let ghost mut calls: nat = 1;
            let mut i: usize = 0;
            while i < deps.len()
                invariant
                    dependents.wf(),
                    m == dependents@,
                    m.dom().finite(),
                    m.contains_key(current),
                    deps@ == m[current],
                    i <= deps@.len(),
                    !v0.contains(current),
                    v0 == old(visited)@.to_set(),
                    v0.insert(current).subset_of(visited@.to_set()),
                    open.subset_of(visited@.to_set()),
                    open == stack.insert(current),
                    closed_except(m, visited@.to_set(), open),
                    !old(visited)@.contains(target) ==> !visited@.contains(target),
                    visited@.skip(len0 as int).no_duplicates(),
                    forall|k: int| len0 <= k < visited@.len() ==> !old(visited)@.contains(
                        #[trigger] visited@[k],
                    ),
                    forall|j: int| 0 <= j < i ==> visited@.to_set().contains(#[trigger] deps@[j]),
                    len0 == old(visited)@.len(),
                    len1 == len0 + 1,
                    visited@.len() >= len1,
                    visited@.subrange(0, len1 as int) == old(visited)@.push(current),
                    forall|k: int|
                        len0 <= k < visited@.len() ==> reaches(m, current, #[trigger] visited@[k])
                            && visited@[k] != target,
                    calls <= 1 + i + degree_sum(m, visited@.skip(len1 as int)),
                    current != target,
                decreases deps@.len() - i,
            {
                let ghost vi = visited@.to_set();
                let ghost before = visited@;
                proof {
                    assert(m.dom().difference(v0).contains(current));
                    assert(m.dom().difference(vi).subset_of(m.dom().difference(v0).remove(current)));
                    vstd::set_lib::lemma_len_subset(
                        m.dom().difference(vi),
                        m.dom().difference(v0).remove(current),
                    );
                }
                let dep = deps[i];
                let (found, sub) = dfs(dependents, dep, target, visited, Ghost(open));
                proof {
                    let added = visited@.skip(before.len() as int);
                    assert(visited@ =~= before + added) by {
                        assert(visited@.subrange(0, before.len() as int) == before);
                    }
                    let whole = visited@.skip(len0 as int);
                    let head = before.skip(len0 as int);
                    assert(whole =~= head + added);
                    assert forall|a: int, b: int| 0 <= a < whole.len() && 0 <= b < whole.len() && a != b
                        implies whole[a] != whole[b] by {
                        if a < head.len() && b >= head.len() {
                            assert(whole[a] == before[len0 + a]);
                            assert(before.contains(before[len0 + a]));
                            assert(whole[b] == visited@[before.len() + (b - head.len())]);
                        } else if b < head.len() && a >= head.len() {
                            assert(whole[b] == before[len0 + b]);
                            assert(before.contains(before[len0 + b]));
                            assert(whole[a] == visited@[before.len() + (a - head.len())]);
                        } else if a < head.len() {
                            assert(whole[a] == head[a] && whole[b] == head[b]);
                        } else {
                            assert(whole[a] == added[a - head.len()] && whole[b] == added[b - head.len()]);
                        }
                    }
                    assert forall|k: int| len0 <= k < visited@.len() implies !old(visited)@.contains(
                        #[trigger] visited@[k],
                    ) by {
                        if k >= before.len() {
                            if old(visited)@.contains(visited@[k]) {
                                let i = choose|i: int| 0 <= i < old(visited)@.len() && old(visited)@[i] == visited@[k];
                                assert(before.subrange(0, len1 as int)[i] == old(visited)@.push(current)[i]);
                                assert(before[i] == visited@[k]);
                            }
                        } else {
                            assert(visited@[k] == before[k]);
                        }
                    }
                    assert(visited@.skip(len1 as int) =~= before.skip(len1 as int) + added);
                    lemma_degree_sum_concat(m, before.skip(len1 as int), added);
                    calls = calls + sub@;
                    assert(visited@.subrange(0, len1 as int) =~= before.subrange(0, len1 as int));
                    assert(edge(m, current, dep)) by {
                        assert(m[current][i as int] == dep);
                    }
                    assert forall|k: int|
                        len0 <= k < visited@.len() implies reaches(m, current, #[trigger] visited@[k])
                            && visited@[k] != target by {
                        if k >= before.len() {
                            lemma_reaches_prepend(m, current, dep, visited@[k]);
                            lemma_reaches_plus_reaches(m, current, visited@[k]);
                        } else {
                            assert(visited@[k] == before[k]);
                        }
                    }
                }
                if found {
                    proof {
                        assert(v0.subset_of(visited@.to_set()));
                        let p = choose|p: Seq<TypeId>| #[trigger]
                            is_path(m, p) && p[0] == dep && p.last() == target;
                        let q = seq![current] + p;
                        assert forall|k: int| #![trigger q[k]] 0 <= k < q.len() - 1 implies edge(
                            m,
                            q[k],
                            q[k + 1],
                        ) by {
                            if k > 0 {
                                assert(q[k] == p[k - 1]);
                                assert(q[k + 1] == p[k]);
                            }
                        }
                        assert(is_path(m, q));
                        assert(q[0] == current && q.last() == target);
                        assert(visited@[len0 as int] == current) by {
                            assert(visited@.subrange(0, len1 as int)[len0 as int] == current);
                        }
                        assert(visited@.skip(len0 as int) =~= seq![current] + visited@.skip(len1 as int));
                        lemma_degree_sum_concat(m, seq![current], visited@.skip(len1 as int));
                        assert(seq![current].drop_last() =~= Seq::<TypeId>::empty());
                        assert(visited@.subrange(0, len0 as int) =~= visited@.subrange(0, len1 as int).subrange(0, len0 as int));
                    }
                    proof {
                        lemma_degree_sum_total(m, visited@.skip(len0 as int));
                    }
                    return (true, Ghost(calls));
                }
                i = i + 1;
            }
            proof {
                assert forall|v: TypeId, s: TypeId|
                    #![trigger visited@.to_set().contains(v), edge(m, v, s)]
                    visited@.to_set().contains(v) && !stack.contains(v) && edge(
                        m,
                        v,
                        s,
                    ) implies visited@.to_set().contains(s) by {
                    if v == current {
                        let k = choose|k: int| 0 <= k < deps@.len() && deps@[k] == s;
                        assert(visited@.to_set().contains(deps@[k]));
                    } else {
                        assert(!open.contains(v));
                    }
                }
                assert(closed_except(m, visited@.to_set(), stack));
                assert(visited@.to_set().contains(current));
                assert(visited@.contains(current));
                assert(visited@[len0 as int] == current) by {
                    assert(visited@.subrange(0, len1 as int)[len0 as int] == current);
                }
                assert(visited@.skip(len0 as int) =~= seq![current] + visited@.skip(len1 as int));
                lemma_degree_sum_concat(m, seq![current], visited@.skip(len1 as int));
                assert(seq![current].drop_last() =~= Seq::<TypeId>::empty());
                assert(visited@.subrange(0, len0 as int) =~= visited@.subrange(0, len1 as int).subrange(0, len0 as int));
                assert(v0.subset_of(visited@.to_set()));
                if len0 == 0 {
                    assert(stack =~= Set::<TypeId>::empty());
                    lemma_search_complete(m, visited@, current);
                }
            }
            proof {
                lemma_degree_sum_total(m, visited@.skip(len0 as int));
            }
            (false, Ghost(calls))
        },
        None => {
            proof {
                assert forall|v: TypeId, s: TypeId|
                    #![trigger visited@.to_set().contains(v), edge(m, v, s)]
                    visited@.to_set().contains(v) && !stack.contains(v) && edge(
                        m,
                        v,
                        s,
                    ) implies visited@.to_set().contains(s) by {
                    if v != current {
                        assert(v0.contains(v));
                    }
                }
                assert(closed_except(m, visited@.to_set(), stack));
                assert(visited@.to_set().contains(current));
                assert(visited@.contains(current));
                assert(visited@.subrange(0, len0 as int) =~= old(visited)@);
                assert forall|k: int|
                    len0 <= k < visited@.len() implies reaches(m, current, #[trigger] visited@[k])
                        && visited@[k] != target by {
                    assert(visited@[k] == current);
                }
                if len0 == 0 {
                    assert(stack =~= Set::<TypeId>::empty());
                    lemma_search_complete(m, visited@, current);
                }
            }
            (false, Ghost(1))
        },
    }
}

} // verus!
