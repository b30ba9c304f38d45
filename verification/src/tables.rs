//! Tables: keys in a row, and a value beside each of them.
use vstd::prelude::*;

verus! {

/// What a map of keys to values holds, once each of the keys was set in turn.
pub open spec fn as_map<V>(keys: Seq<Seq<char>>, values: Seq<V>) -> Map<Seq<char>, V>
    decreases keys.len(),
{
    if keys.len() == 0 {
        Map::empty()
    } else {
        as_map(keys.drop_last(), values.drop_last()).insert(keys.last(), values.last())
    }
}

/// Whether no two of `keys` are the same.
pub open spec fn distinct(keys: Seq<Seq<char>>) -> bool {
    forall|i: int, j: int| 0 <= i < j < keys.len() ==> keys[i] != keys[j]
}

/// A key has a value exactly if it is one of `keys`, and its value stands at its place.
pub proof fn lemma_as_map<V>(keys: Seq<Seq<char>>, values: Seq<V>)
    requires
        keys.len() == values.len(),
        distinct(keys),
    ensures
        forall|k: Seq<char>| #[trigger] as_map(keys, values).contains_key(k) <==> keys.contains(k),
        forall|i: int|
            0 <= i < keys.len() ==> as_map(keys, values)[#[trigger] keys[i]] == values[i],
    decreases keys.len(),
{
    if keys.len() > 0 {
        let ki = keys.drop_last();
        let vi = values.drop_last();
        lemma_as_map(ki, vi);
        assert forall|k: Seq<char>| #[trigger]
            as_map(keys, values).contains_key(k) <==> keys.contains(k) by {
            assert(as_map(ki, vi).contains_key(k) <==> ki.contains(k));
            if keys.contains(k) && k != keys.last() {
                let i = choose|i: int| 0 <= i < keys.len() && keys[i] == k;
                assert(ki[i] == k);
            }
            if ki.contains(k) {
                let i = choose|i: int| 0 <= i < ki.len() && ki[i] == k;
                assert(keys[i] == k);
            }
            assert(keys[keys.len() - 1] == keys.last());
        }
        assert forall|i: int| 0 <= i < keys.len() implies as_map(keys, values)[#[trigger] keys[i]]
            == values[i] by {
            if i < ki.len() {
                assert(ki[i] == keys[i]);
                assert(keys[i] != keys[keys.len() - 1]);
            }
        }
    }
}

/// Changing the value at a place sets the key that stands there.
pub proof fn lemma_as_map_update<V>(keys: Seq<Seq<char>>, values: Seq<V>, i: int, v: V)
    requires
        keys.len() == values.len(),
        distinct(keys),
        0 <= i < keys.len(),
    ensures
        as_map(keys, values.update(i, v)) == as_map(keys, values).insert(keys[i], v),
    decreases keys.len(),
{
    let after = values.update(i, v);
    if i == keys.len() - 1 {
        assert(after.drop_last() == values.drop_last());
        assert(as_map(keys, after) == as_map(keys, values).insert(keys[i], v));
    } else {
        let ki = keys.drop_last();
        lemma_as_map_update(ki, values.drop_last(), i, v);
        assert(after.drop_last() == values.drop_last().update(i, v));
        assert(keys[i] != keys[keys.len() - 1]);
        assert(as_map(keys, after) == as_map(keys, values).insert(keys[i], v));
    }
}

/// Putting a new key and its value anywhere in a table sets that key.
pub proof fn lemma_as_map_insert<V>(keys: Seq<Seq<char>>, values: Seq<V>, i: int, k: Seq<char>, v: V)
    requires
        keys.len() == values.len(),
        distinct(keys),
        0 <= i <= keys.len(),
        !keys.contains(k),
    ensures
        distinct(keys.insert(i, k)),
        as_map(keys.insert(i, k), values.insert(i, v)) == as_map(keys, values).insert(k, v),
{
    let ks = keys.insert(i, k);
    let vs = values.insert(i, v);
    assert forall|a: int, b: int| 0 <= a < b < ks.len() implies ks[a] != ks[b] by {
        if a < i {
            assert(ks[a] == keys[a]);
        } else if a > i {
            assert(ks[a] == keys[a - 1]);
        }
        if b < i {
            assert(ks[b] == keys[b]);
        } else if b > i {
            assert(ks[b] == keys[b - 1]);
        }
        if a == i {
            assert(keys.contains(keys[b - 1]));
        }
        if b == i {
            assert(keys.contains(keys[a]));
        }
    }
    lemma_as_map(keys, values);
    lemma_as_map(ks, vs);
    let m = as_map(ks, vs);
    let n = as_map(keys, values).insert(k, v);
    assert(ks[i] == k);
    assert forall|x: Seq<char>| #[trigger] m.contains_key(x) <==> n.contains_key(x) by {
        assert(as_map(keys, values).contains_key(x) <==> keys.contains(x));
        if ks.contains(x) && x != k {
            let a = choose|a: int| 0 <= a < ks.len() && ks[a] == x;
            if a < i {
                assert(keys[a] == x);
            } else {
                assert(keys[a - 1] == x);
            }
        }
        if keys.contains(x) {
            let a = choose|a: int| 0 <= a < keys.len() && keys[a] == x;
            if a < i {
                assert(ks[a] == x);
            } else {
                assert(ks[a + 1] == x);
            }
        }
    }
    assert forall|x: Seq<char>| #[trigger] m.contains_key(x) implies m[x] == n[x] by {
        let a = choose|a: int| 0 <= a < ks.len() && ks[a] == x;
        assert(m[ks[a]] == vs[a]);
        if a < i {
            assert(keys[a] == x);
            assert(keys.contains(x));
        } else if a > i {
            assert(keys[a - 1] == x);
            assert(keys.contains(x));
        }
    }
    assert(m == n);
}

/// Taking a key and its value out of a table unsets that key.
pub proof fn lemma_as_map_remove<V>(keys: Seq<Seq<char>>, values: Seq<V>, i: int)
    requires
        keys.len() == values.len(),
        distinct(keys),
        0 <= i < keys.len(),
    ensures
        distinct(keys.remove(i)),
        as_map(keys.remove(i), values.remove(i)) == as_map(keys, values).remove(keys[i]),
{
    let ks = keys.remove(i);
    let vs = values.remove(i);
    assert forall|a: int, b: int| 0 <= a < b < ks.len() implies ks[a] != ks[b] by {
        let x = if a < i {
            a
        } else {
            a + 1
        };
        let y = if b < i {
            b
        } else {
            b + 1
        };
        assert(ks[a] == keys[x]);
        assert(ks[b] == keys[y]);
    }
    lemma_as_map(keys, values);
    lemma_as_map(ks, vs);
    let m = as_map(ks, vs);
    let n = as_map(keys, values).remove(keys[i]);
    assert forall|x: Seq<char>| #[trigger] m.contains_key(x) <==> n.contains_key(x) by {
        assert(as_map(keys, values).contains_key(x) <==> keys.contains(x));
        if ks.contains(x) {
            let a = choose|a: int| 0 <= a < ks.len() && ks[a] == x;
            if a < i {
                assert(keys[a] == x);
            } else {
                assert(keys[a + 1] == x);
            }
        }
        if keys.contains(x) && x != keys[i] {
            let a = choose|a: int| 0 <= a < keys.len() && keys[a] == x;
            if a < i {
                assert(ks[a] == x);
            } else {
                assert(ks[a - 1] == x);
            }
        }
    }
    assert forall|x: Seq<char>| #[trigger] m.contains_key(x) implies m[x] == n[x] by {
        let a = choose|a: int| 0 <= a < ks.len() && ks[a] == x;
        assert(m[ks[a]] == vs[a]);
        if a < i {
            assert(keys[a] == x);
        } else {
            assert(keys[a + 1] == x);
        }
    }
    assert(m == n);
}

/// A table with distinct keys says of each key what stands beside it, and nothing of other keys.
pub proof fn law_table<V>(keys: Seq<Seq<char>>, values: Seq<V>, k: Seq<char>)
    requires
        keys.len() == values.len(),
        forall|i: int, j: int| 0 <= i < j < keys.len() ==> keys[i] != keys[j],
    ensures
        as_map(keys, values).contains_key(k) <==> exists|i: int|
            0 <= i < keys.len() && #[trigger] keys[i] == k,
        forall|i: int| 0 <= i < keys.len() ==> as_map(keys, values)[#[trigger] keys[i]] == values[i],
{
    assert(distinct(keys));
    lemma_as_map(keys, values);
    assert(as_map(keys, values).contains_key(k) <==> keys.contains(k));
}

} // verus!
