//! Lists of keyed entries, kept with unique keys, seen as maps.
use vstd::prelude::*;

verus! {

/// No two entries of `s` share a key.
pub open spec fn keys_unique<K, V>(s: Seq<(K, V)>) -> bool {
    forall|i: int, j: int| 0 <= i < s.len() && 0 <= j < s.len() && i != j ==> #[trigger] s[i].0 != #[trigger] s[j].0
}

/// Some entry of `s` has key `k`.
pub open spec fn has_key<K, V>(s: Seq<(K, V)>, k: K) -> bool {
    exists|i: int| 0 <= i < s.len() && #[trigger] s[i].0 == k
}

/// The map that a list of entries stands for.
pub open spec fn map_of<K, V>(s: Seq<(K, V)>) -> Map<K, V>
    decreases s.len(),
{
    if s.len() == 0 {
        Map::empty()
    } else {
        map_of(s.drop_last()).insert(s.last().0, s.last().1)
    }
}

/// The map holds exactly the keys of the list, each with its entry's value.
pub proof fn lemma_map_of<K, V>(s: Seq<(K, V)>)
    requires
        keys_unique(s),
    ensures
        forall|k: K| #[trigger] map_of(s).contains_key(k) <==> has_key(s, k),
        forall|i: int| 0 <= i < s.len() ==> #[trigger] map_of(s)[s[i].0] == s[i].1,
        map_of(s).dom().finite(),
        map_of(s).dom().len() == s.len(),
    decreases s.len(),
{
    if s.len() > 0 {
        let t = s.drop_last();
        assert(keys_unique(t));
        lemma_map_of(t);
        let last = s.last();
        assert(!has_key(t, last.0)) by {
            if has_key(t, last.0) {
                let j = choose|j: int| 0 <= j < t.len() && #[trigger] t[j].0 == last.0;
                assert(s[j].0 == s[s.len() - 1].0);
            }
        }
        assert forall|k: K| #[trigger] map_of(s).contains_key(k) <==> has_key(s, k) by {
            if has_key(s, k) && k != last.0 {
                let j = choose|j: int| 0 <= j < s.len() && #[trigger] s[j].0 == k;
                assert(t[j].0 == k);
            }
            if has_key(t, k) {
                let j = choose|j: int| 0 <= j < t.len() && #[trigger] t[j].0 == k;
                assert(s[j].0 == k);
            }
        }
        assert forall|i: int| 0 <= i < s.len() implies #[trigger] map_of(s)[s[i].0] == s[i].1 by {
            if i < s.len() - 1 {
                assert(t[i] == s[i]);
                assert(s[i].0 != last.0);
            }
        }
    }
}

/// Appending an entry with a new key adds that key to the map.
pub proof fn lemma_map_of_push<K, V>(s: Seq<(K, V)>, e: (K, V))
    requires
        keys_unique(s),
        !has_key(s, e.0),
    ensures
        keys_unique(s.push(e)),
        map_of(s.push(e)) == map_of(s).insert(e.0, e.1),
{
    assert(s.push(e).drop_last() =~= s);
    assert forall|i: int, j: int| 0 <= i < s.len() + 1 && 0 <= j < s.len() + 1 && i != j implies #[trigger] s.push(
        e,
    )[i].0 != #[trigger] s.push(e)[j].0 by {
        if i == s.len() {
            assert(s[j].0 == s.push(e)[j].0);
        } else if j == s.len() {
            assert(s[i].0 == s.push(e)[i].0);
        }
    }
}

/// Replacing the value of entry `i`, key kept, sets that key's value in the map.
pub proof fn lemma_map_of_update<K, V>(s: Seq<(K, V)>, i: int, v: V)
    requires
        keys_unique(s),
        0 <= i < s.len(),
    ensures
        keys_unique(s.update(i, (s[i].0, v))),
        map_of(s.update(i, (s[i].0, v))) == map_of(s).insert(s[i].0, v),
{
    let u = s.update(i, (s[i].0, v));
    assert forall|a: int, b: int| 0 <= a < u.len() && 0 <= b < u.len() && a != b implies #[trigger] u[a].0
        != #[trigger] u[b].0 by {
        assert(u[a].0 == s[a].0 && u[b].0 == s[b].0);
    }
    lemma_map_of(s);
    lemma_map_of(u);
    assert forall|k: K| #[trigger] has_key(u, k) <==> has_key(s, k) by {
        if has_key(u, k) {
            let j = choose|j: int| 0 <= j < u.len() && #[trigger] u[j].0 == k;
            assert(s[j].0 == k);
        }
        if has_key(s, k) {
            let j = choose|j: int| 0 <= j < s.len() && #[trigger] s[j].0 == k;
            assert(u[j].0 == k);
        }
    }
    assert forall|k: K| #[trigger] map_of(u).contains_key(k) implies map_of(u)[k] == map_of(s).insert(s[i].0, v)[k] by {
        let j = choose|j: int| 0 <= j < u.len() && #[trigger] u[j].0 == k;
        if j != i {
            assert(u[j] == s[j]);
        }
    }
    assert(map_of(u) =~= map_of(s).insert(s[i].0, v));
}

/// Removing entry `i` removes its key from the map.
pub proof fn lemma_map_of_remove<K, V>(s: Seq<(K, V)>, i: int)
    requires
        keys_unique(s),
        0 <= i < s.len(),
    ensures
        keys_unique(s.remove(i)),
        map_of(s.remove(i)) == map_of(s).remove(s[i].0),
{
    let u = s.remove(i);
    assert forall|a: int, b: int| 0 <= a < u.len() && 0 <= b < u.len() && a != b implies #[trigger] u[a].0
        != #[trigger] u[b].0 by {
        let a2 = if a < i { a } else { a + 1 };
        let b2 = if b < i { b } else { b + 1 };
        assert(u[a] == s[a2] && u[b] == s[b2]);
    }
    lemma_map_of(s);
    lemma_map_of(u);
    assert forall|k: K| #[trigger] has_key(u, k) <==> (has_key(s, k) && k != s[i].0) by {
        if has_key(u, k) {
            let j = choose|j: int| 0 <= j < u.len() && #[trigger] u[j].0 == k;
            let j2 = if j < i { j } else { j + 1 };
            assert(u[j] == s[j2]);
        }
        if has_key(s, k) && k != s[i].0 {
            let j = choose|j: int| 0 <= j < s.len() && #[trigger] s[j].0 == k;
            if j < i {
                assert(u[j] == s[j]);
            } else {
                assert(u[j - 1] == s[j]);
            }
        }
    }
    assert forall|k: K| #[trigger] map_of(u).contains_key(k) implies map_of(u)[k] == map_of(s).remove(s[i].0)[k] by {
        let j = choose|j: int| 0 <= j < u.len() && #[trigger] u[j].0 == k;
        let j2 = if j < i { j } else { j + 1 };
        assert(u[j] == s[j2]);
    }
    assert(map_of(u) =~= map_of(s).remove(s[i].0));
}

} // verus!
