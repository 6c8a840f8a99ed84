use vstd::prelude::*;

verus! {

/// A table held as a sequence of (key, value) pairs, read as a map.
/// Later pairs win, though every table in this crate keeps its keys distinct.
pub open spec fn table_map<V>(s: Seq<(int, V)>) -> Map<int, V>
    decreases s.len(),
{
    if s.len() == 0 {
        Map::empty()
    } else {
        table_map(s.drop_last()).insert(s.last().0, s.last().1)
    }
}

/// Keys appear in strictly ascending order.
pub open spec fn keys_ascending<V>(s: Seq<(int, V)>) -> bool {
    forall|i: int, j: int| 0 <= i < j < s.len() ==> s[i].0 < s[j].0
}

/// No key appears twice.
pub open spec fn keys_distinct<V>(s: Seq<(int, V)>) -> bool {
    forall|i: int, j: int| 0 <= i < j < s.len() ==> s[i].0 != s[j].0
}

pub proof fn lemma_keys_ascending_distinct<V>(s: Seq<(int, V)>)
    requires
        keys_ascending(s),
    ensures
        keys_distinct(s),
{
}

/// The map's domain is exactly the set of keys in the sequence.
pub proof fn lemma_table_map_contains<V>(s: Seq<(int, V)>, k: int)
    ensures
        table_map(s).contains_key(k) <==> exists|i: int| 0 <= i < s.len() && s[i].0 == k,
    decreases s.len(),
{
    if s.len() > 0 {
        lemma_table_map_contains(s.drop_last(), k);
        if s.last().0 == k {
            assert(s[s.len() - 1].0 == k);
        } else if table_map(s).contains_key(k) {
            let i = choose|i: int| 0 <= i < s.drop_last().len() && s.drop_last()[i].0 == k;
            assert(s[i].0 == k);
        } else {
            assert(forall|i: int|
                0 <= i < s.len() && #[trigger] s[i].0 == k ==> 0 <= i < s.drop_last().len()
                    && s.drop_last()[i].0 == k);
        }
    }
}

/// With distinct keys, each pair of the sequence is read back unchanged.
pub proof fn lemma_table_map_index<V>(s: Seq<(int, V)>, i: int)
    requires
        keys_distinct(s),
        0 <= i < s.len(),
    ensures
        table_map(s).contains_key(s[i].0),
        table_map(s)[s[i].0] == s[i].1,
    decreases s.len(),
{
    if i < s.len() - 1 {
        assert(keys_distinct(s.drop_last())) by {
            assert(forall|p: int, q: int|
                0 <= p < q < s.drop_last().len() ==> s.drop_last()[p] == s[p]
                    && s.drop_last()[q] == s[q]);
        }
        lemma_table_map_index(s.drop_last(), i);
        assert(s.drop_last()[i] == s[i]);
        assert(s.last().0 != s[i].0);
    }
}

/// Removing the pair at an index removes exactly its key from the map.
pub proof fn lemma_table_map_remove<V>(s: Seq<(int, V)>, i: int)
    requires
        keys_distinct(s),
        0 <= i < s.len(),
    ensures
        table_map(s.remove(i)) == table_map(s).remove(s[i].0),
    decreases s.len(),
{
    assert(keys_distinct(s.drop_last())) by {
        assert(forall|p: int, q: int|
            0 <= p < q < s.drop_last().len() ==> s.drop_last()[p] == s[p]
                && s.drop_last()[q] == s[q]);
    }
    if i == s.len() - 1 {
        assert(s.remove(i) =~= s.drop_last());
        lemma_table_map_contains(s.drop_last(), s[i].0);
        assert(forall|j: int| 0 <= j < s.drop_last().len() ==> #[trigger] s.drop_last()[j].0 != s[
            i].0);
        assert(table_map(s).remove(s[i].0) =~= table_map(s.drop_last()));
    } else {
        lemma_table_map_remove(s.drop_last(), i);
        let t = s.remove(i);
        assert(t.drop_last() =~= s.drop_last().remove(i));
        assert(t.last() == s.last());
        assert(t.len() > 0);
        assert(table_map(t) == table_map(s.drop_last().remove(i)).insert(s.last().0, s.last().1));
        assert(s.drop_last()[i] == s[i]);
        assert(s.last().0 != s[i].0);
        assert(table_map(s.drop_last()).remove(s[i].0).insert(s.last().0, s.last().1) =~= table_map(
            s.drop_last()).insert(s.last().0, s.last().1).remove(s[i].0));
    }
}

/// Replacing the value at an index, keeping its key, updates the map at that key.
pub proof fn lemma_table_map_update<V>(s: Seq<(int, V)>, i: int, v: V)
    requires
        keys_distinct(s),
        0 <= i < s.len(),
    ensures
        table_map(s.update(i, (s[i].0, v))) == table_map(s).insert(s[i].0, v),
    decreases s.len(),
{
    assert(keys_distinct(s.drop_last())) by {
        assert(forall|p: int, q: int|
            0 <= p < q < s.drop_last().len() ==> s.drop_last()[p] == s[p]
                && s.drop_last()[q] == s[q]);
    }
    let t = s.update(i, (s[i].0, v));
    if i == s.len() - 1 {
        assert(t.drop_last() =~= s.drop_last());
        assert(t.last() == (s[i].0, v));
        assert(table_map(t) =~= table_map(s).insert(s[i].0, v));
    } else {
        lemma_table_map_update(s.drop_last(), i, v);
        assert(t.drop_last() =~= s.drop_last().update(i, (s[i].0, v)));
        assert(t.last() == s.last());
        assert(t.len() > 0);
        assert(s.drop_last()[i] == s[i]);
        assert(table_map(t) == table_map(s.drop_last().update(i, (s[i].0, v))).insert(
            s.last().0,
            s.last().1,
        ));
        assert(s.last().0 != s[i].0);
        assert(table_map(s.drop_last()).insert(s[i].0, v).insert(s.last().0, s.last().1)
            =~= table_map(s.drop_last()).insert(s.last().0, s.last().1).insert(s[i].0, v));
    }
}

/// Membership after inserting an element at a position.
pub proof fn lemma_insert_contains(s: Seq<int>, i: int, x: int)
    requires
        0 <= i <= s.len(),
    ensures
        forall|y: int| #[trigger] s.insert(i, x).contains(y) <==> (s.contains(y) || y == x),
{
    let t = s.insert(i, x);
    assert forall|y: int| #[trigger] t.contains(y) implies (s.contains(y) || y == x) by {
        let n = choose|n: int| 0 <= n < t.len() && t[n] == y;
        if n < i {
            assert(s[n] == y);
        } else if n > i {
            assert(s[n - 1] == y);
        }
    }
    assert forall|y: int| (s.contains(y) || y == x) implies #[trigger] t.contains(y) by {
        if y == x {
            assert(t[i] == y);
        } else {
            let n = choose|n: int| 0 <= n < s.len() && s[n] == y;
            if n < i {
                assert(t[n] == y);
            } else {
                assert(t[n + 1] == y);
            }
        }
    }
}

/// Membership after removing the element at a position, when no element
/// appears twice.
pub proof fn lemma_remove_contains(s: Seq<int>, i: int)
    requires
        0 <= i < s.len(),
        forall|p: int, q: int| 0 <= p < q < s.len() ==> s[p] != s[q],
    ensures
        forall|y: int| #[trigger] s.remove(i).contains(y) <==> (s.contains(y) && y != s[i]),
{
    let t = s.remove(i);
    assert forall|y: int| #[trigger] t.contains(y) implies (s.contains(y) && y != s[i]) by {
        let n = choose|n: int| 0 <= n < t.len() && t[n] == y;
        if n < i {
            assert(s[n] == y);
        } else {
            assert(s[n + 1] == y);
        }
    }
    assert forall|y: int| (s.contains(y) && y != s[i]) implies #[trigger] t.contains(y) by {
        let n = choose|n: int| 0 <= n < s.len() && s[n] == y;
        if n < i {
            assert(t[n] == y);
        } else {
            assert(n > i);
            assert(t[n - 1] == y);
        }
    }
}

/// Membership after appending an element.
pub proof fn lemma_push_contains(s: Seq<int>, x: int)
    ensures
        forall|y: int| #[trigger] s.push(x).contains(y) <==> (s.contains(y) || y == x),
{
    let t = s.push(x);
    assert forall|y: int| #[trigger] t.contains(y) implies (s.contains(y) || y == x) by {
        let n = choose|n: int| 0 <= n < t.len() && t[n] == y;
        if n < s.len() {
            assert(s[n] == y);
        }
    }
    assert forall|y: int| (s.contains(y) || y == x) implies #[trigger] t.contains(y) by {
        if y == x {
            assert(t[s.len() as int] == y);
        } else {
            let n = choose|n: int| 0 <= n < s.len() && s[n] == y;
            assert(t[n] == y);
        }
    }
}

} // verus!
