//! Sequences of key-value pairs read as maps.

use vstd::prelude::*;

verus! {

/// No key occurs at two positions.
pub open spec fn distinct_keys<K, V>(s: Seq<(K, V)>) -> bool {
    forall|i: int, j: int| 0 <= i < j < s.len() ==> (#[trigger] s[i]).0 != (#[trigger] s[j]).0
}

/// Some pair carries the key.
pub open spec fn has_key<K, V>(s: Seq<(K, V)>, k: K) -> bool {
    exists|i: int| 0 <= i < s.len() && (#[trigger] s[i]).0 == k
}

/// A position at which the key stands.
pub open spec fn index_of<K, V>(s: Seq<(K, V)>, k: K) -> int {
    choose|i: int| 0 <= i < s.len() && (#[trigger] s[i]).0 == k
}

/// The map that sends each key of the sequence to the value paired with it.
pub open spec fn as_map<K, V>(s: Seq<(K, V)>) -> Map<K, V> {
    Map::new(|k: K| has_key(s, k), |k: K| s[index_of(s, k)].1)
}

/// The pair at a position is a pair of the map.
pub proof fn lemma_at<K, V>(s: Seq<(K, V)>, i: int)
    requires
        distinct_keys(s),
        0 <= i < s.len(),
    ensures
        as_map(s).contains_key(s[i].0),
        as_map(s)[s[i].0] == s[i].1,
{
    assert(has_key(s, s[i].0));
    let j = index_of(s, s[i].0);
    assert(s[j].0 == s[i].0);
    if j < i {
        assert(s[j].0 != s[i].0);
    }
    if i < j {
        assert(s[i].0 != s[j].0);
    }
}

/// The sequence without pairs is the empty map.
pub proof fn lemma_empty<K, V>(s: Seq<(K, V)>)
    requires
        s.len() == 0,
    ensures
        distinct_keys(s),
        as_map(s) == Map::<K, V>::empty(),
{
    assert(as_map(s) =~= Map::<K, V>::empty());
}

/// Appending a pair with a new key inserts it into the map.
pub proof fn lemma_push<K, V>(s: Seq<(K, V)>, k: K, v: V)
    requires
        distinct_keys(s),
        !as_map(s).contains_key(k),
    ensures
        distinct_keys(s.push((k, v))),
        as_map(s.push((k, v))) == as_map(s).insert(k, v),
{
    let t = s.push((k, v));
    assert forall|i: int, j: int| 0 <= i < j < t.len() implies (#[trigger] t[i]).0 != (
    #[trigger] t[j]).0 by {
        assert(t[i] == s[i]);
        if j < s.len() {
            assert(t[j] == s[j]);
        } else {
            assert(has_key(s, s[i].0));
        }
    }
    assert forall|x: K| as_map(t).contains_key(x) <==> as_map(s).insert(k, v).contains_key(
        x,
    ) by {
        if has_key(t, x) {
            let i = index_of(t, x);
            if i < s.len() {
                assert(t[i] == s[i]);
                assert(has_key(s, x));
            }
        }
        if has_key(s, x) {
            let i = index_of(s, x);
            assert(t[i] == s[i]);
        }
        if x == k {
            assert(t[s.len() as int].0 == k);
        }
    }
    assert forall|x: K| as_map(t).contains_key(x) implies as_map(t)[x] == as_map(s).insert(
        k,
        v,
    )[x] by {
        let i = index_of(t, x);
        lemma_at(t, i);
        if i < s.len() {
            assert(t[i] == s[i]);
            lemma_at(s, i);
        }
    }
    assert(as_map(t) =~= as_map(s).insert(k, v));
}

/// Taking a pair out removes its key from the map.
pub proof fn lemma_remove<K, V>(s: Seq<(K, V)>, i: int)
    requires
        distinct_keys(s),
        0 <= i < s.len(),
    ensures
        distinct_keys(s.remove(i)),
        as_map(s.remove(i)) == as_map(s).remove(s[i].0),
{
    let t = s.remove(i);
    assert forall|a: int| 0 <= a < t.len() implies #[trigger] t[a] == s[if a < i {
        a
    } else {
        a + 1
    }] by {}
    assert forall|a: int, b: int| 0 <= a < b < t.len() implies (#[trigger] t[a]).0 != (
    #[trigger] t[b]).0 by {
        let a2 = if a < i {
            a
        } else {
            a + 1
        };
        let b2 = if b < i {
            b
        } else {
            b + 1
        };
        assert(t[a] == s[a2]);
        assert(t[b] == s[b2]);
    }
    let m = as_map(s).remove(s[i].0);
    assert forall|x: K| as_map(t).contains_key(x) <==> m.contains_key(x) by {
        if has_key(t, x) {
            let a = index_of(t, x);
            let a2 = if a < i {
                a
            } else {
                a + 1
            };
            assert(t[a] == s[a2]);
            assert(has_key(s, x));
            if a2 < i {
                assert(s[a2].0 != s[i].0);
            } else {
                assert(s[i].0 != s[a2].0);
            }
        }
        if has_key(s, x) && x != s[i].0 {
            let b = index_of(s, x);
            let b2 = if b < i {
                b
            } else {
                b - 1
            };
            assert(t[b2] == s[b]);
        }
    }
    assert forall|x: K| as_map(t).contains_key(x) implies as_map(t)[x] == m[x] by {
        let a = index_of(t, x);
        let a2 = if a < i {
            a
        } else {
            a + 1
        };
        assert(t[a] == s[a2]);
        lemma_at(t, a);
        lemma_at(s, a2);
    }
    assert(as_map(t) =~= m);
}

/// The map of a sequence has finitely many keys.
pub proof fn lemma_finite<K, V>(s: Seq<(K, V)>)
    ensures
        as_map(s).dom().finite(),
{
    let keys = Seq::new(s.len(), |i: int| s[i].0);
    vstd::seq_lib::seq_to_set_is_finite(keys);
    assert forall|k: K| as_map(s).dom().contains(k) <==> keys.to_set().contains(k) by {
        if has_key(s, k) {
            let i = index_of(s, k);
            assert(keys[i] == k);
        }
        if keys.contains(k) {
            let i = choose|i: int| 0 <= i < keys.len() && keys[i] == k;
            assert(s[i].0 == k);
        }
    }
    assert(as_map(s).dom() =~= keys.to_set());
}

} // verus!
