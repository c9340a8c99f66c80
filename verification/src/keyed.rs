//! Lists of entries that each carry a key, none twice, read as maps from keys
//! to the entries' values.

use std::any::TypeId;
use vstd::prelude::*;

verus! {

/// An entry of a keyed list: the key it is filed under and the value it holds.
pub trait Keyed {
    type Val;

    spec fn key(&self) -> TypeId;

    spec fn val(&self) -> Self::Val;
}

/// No key occurs twice in `s`.
pub open spec fn keys_distinct<E: Keyed>(s: Seq<E>) -> bool {
    forall|i: int, j: int|
        0 <= i < s.len() && 0 <= j < s.len() && i != j ==> s[i].key() != s[j].key()
}

/// The index of an entry of `s` filed under `k`.
pub open spec fn key_index<E: Keyed>(s: Seq<E>, k: TypeId) -> int {
    choose|i: int| 0 <= i < s.len() && s[i].key() == k
}

/// The map that `s` holds: each key to the value of its entry.
pub open spec fn keyed_map<E: Keyed>(s: Seq<E>) -> Map<TypeId, E::Val> {
    Map::new(
        |k: TypeId| exists|i: int| 0 <= i < s.len() && s[i].key() == k,
        |k: TypeId| s[key_index(s, k)].val(),
    )
}

/// In a list without repeated keys, the entry at index `i` gives the map's
/// value for its key.
pub proof fn lemma_keyed_lookup<E: Keyed>(s: Seq<E>, i: int)
    requires
        keys_distinct(s),
        0 <= i < s.len(),
    ensures
        keyed_map(s).contains_key(s[i].key()),
        keyed_map(s)[s[i].key()] == s[i].val(),
{
    let k = s[i].key();
    assert(exists|j: int| 0 <= j < s.len() && s[j].key() == k);
    let j = key_index(s, k);
    assert(s[j].key() == k);
}

/// A key held by the map is filed at some index of the list.
pub proof fn lemma_keyed_index<E: Keyed>(s: Seq<E>, k: TypeId) -> (i: int)
    requires
        keys_distinct(s),
        keyed_map(s).contains_key(k),
    ensures
        0 <= i < s.len(),
        s[i].key() == k,
        keyed_map(s)[k] == s[i].val(),
{
    let i = choose|i: int| 0 <= i < s.len() && s[i].key() == k;
    lemma_keyed_lookup(s, i);
    i
}

/// The map held by a list has a finite domain.
pub proof fn lemma_keyed_finite<E: Keyed>(s: Seq<E>)
    ensures
        keyed_map(s).dom().finite(),
{
    let keys = s.map_values(|e: E| e.key());
    assert(keyed_map(s).dom() =~= keys.to_set()) by {
        assert forall|k: TypeId| keyed_map(s).dom().contains(k) implies keys.to_set().contains(
            k,
        ) by {
            let i = choose|i: int| 0 <= i < s.len() && s[i].key() == k;
            assert(keys[i] == k);
        }
        assert forall|k: TypeId| keys.to_set().contains(k) implies keyed_map(s).dom().contains(
            k,
        ) by {
            let i = choose|i: int| 0 <= i < keys.len() && keys[i] == k;
            assert(s[i].key() == k);
        }
    }
    vstd::seq_lib::seq_to_set_is_finite(keys);
}

/// Replacing the entry at index `i` by one with the same key replaces the
/// map's value there.
pub proof fn lemma_keyed_update<E: Keyed>(s: Seq<E>, i: int, e: E)
    requires
        keys_distinct(s),
        0 <= i < s.len(),
        e.key() == s[i].key(),
    ensures
        keys_distinct(s.update(i, e)),
        keyed_map(s.update(i, e)) == keyed_map(s).insert(e.key(), e.val()),
{
    let t = s.update(i, e);
    assert forall|a: int, b: int|
        0 <= a < t.len() && 0 <= b < t.len() && a != b implies t[a].key() != t[b].key() by {
        assert(t[a].key() == s[a].key());
        assert(t[b].key() == s[b].key());
    }
    assert forall|k: TypeId| keyed_map(t).contains_key(k) implies keyed_map(s).insert(
        e.key(),
        e.val(),
    ).contains_key(k) && keyed_map(t)[k] == keyed_map(s).insert(e.key(), e.val())[k] by {
        let j = choose|j: int| 0 <= j < t.len() && t[j].key() == k;
        lemma_keyed_lookup(t, j);
        lemma_keyed_lookup(s, j);
    }
    assert forall|k: TypeId| keyed_map(s).insert(e.key(), e.val()).contains_key(k) implies keyed_map(
        t,
    ).contains_key(k) by {
        if k != e.key() {
            let j = choose|j: int| 0 <= j < s.len() && s[j].key() == k;
            assert(t[j].key() == k);
        } else {
            assert(t[i].key() == k);
        }
    }
    assert(keyed_map(t) =~= keyed_map(s).insert(e.key(), e.val()));
}

/// Appending an entry under a new key adds that key to the map.
pub proof fn lemma_keyed_push<E: Keyed>(s: Seq<E>, e: E)
    requires
        keys_distinct(s),
        !keyed_map(s).contains_key(e.key()),
    ensures
        keys_distinct(s.push(e)),
        keyed_map(s.push(e)) == keyed_map(s).insert(e.key(), e.val()),
{
    let t = s.push(e);
    let k = e.key();
    assert forall|i: int, j: int|
        0 <= i < t.len() && 0 <= j < t.len() && i != j implies t[i].key() != t[j].key() by {
        if i == s.len() as int {
            assert(s[j].key() == t[j].key());
            if s[j].key() == k {
                assert(keyed_map(s).contains_key(k));
            }
        } else if j == s.len() as int {
            assert(s[i].key() == t[i].key());
            if s[i].key() == k {
                assert(keyed_map(s).contains_key(k));
            }
        }
    }
    assert forall|x: TypeId| keyed_map(t).contains_key(x) implies keyed_map(s).insert(
        k,
        e.val(),
    ).contains_key(x) && keyed_map(t)[x] == keyed_map(s).insert(k, e.val())[x] by {
        let j = choose|j: int| 0 <= j < t.len() && t[j].key() == x;
        lemma_keyed_lookup(t, j);
        if j < s.len() {
            lemma_keyed_lookup(s, j);
        }
    }
    assert forall|x: TypeId| keyed_map(s).insert(k, e.val()).contains_key(x) implies keyed_map(
        t,
    ).contains_key(x) by {
        if x != k {
            let j = choose|j: int| 0 <= j < s.len() && s[j].key() == x;
            assert(t[j].key() == x);
        } else {
            assert(t[s.len() as int].key() == x);
        }
    }
    assert(keyed_map(t) =~= keyed_map(s).insert(k, e.val()));
}

/// Removing the entry at index `i` removes its key from the map.
pub proof fn lemma_keyed_remove<E: Keyed>(s: Seq<E>, i: int)
    requires
        keys_distinct(s),
        0 <= i < s.len(),
    ensures
        keys_distinct(s.remove(i)),
        keyed_map(s.remove(i)) == keyed_map(s).remove(s[i].key()),
{
    let t = s.remove(i);
    let k = s[i].key();
    assert forall|a: int| 0 <= a < t.len() implies #[trigger] t[a] == if a < i {
        s[a]
    } else {
        s[a + 1]
    } by {}
    assert forall|a: int, b: int|
        0 <= a < t.len() && 0 <= b < t.len() && a != b implies t[a].key() != t[b].key() by {
        let sa = if a < i {
            a
        } else {
            a + 1
        };
        let sb = if b < i {
            b
        } else {
            b + 1
        };
        assert(t[a] == s[sa]);
        assert(t[b] == s[sb]);
    }
    assert forall|x: TypeId| keyed_map(t).contains_key(x) implies keyed_map(s).remove(
        k,
    ).contains_key(x) && keyed_map(t)[x] == keyed_map(s).remove(k)[x] by {
        let j = choose|j: int| 0 <= j < t.len() && t[j].key() == x;
        lemma_keyed_lookup(t, j);
        let sj = if j < i {
            j
        } else {
            j + 1
        };
        assert(t[j] == s[sj]);
        lemma_keyed_lookup(s, sj);
    }
    assert forall|x: TypeId| keyed_map(s).remove(k).contains_key(x) implies keyed_map(
        t,
    ).contains_key(x) by {
        let j = choose|j: int| 0 <= j < s.len() && s[j].key() == x;
        assert(j != i);
        let tj = if j < i {
            j
        } else {
            j - 1
        };
        assert(t[tj] == s[j]);
    }
    assert(keyed_map(t) =~= keyed_map(s).remove(k));
}

} // verus!
