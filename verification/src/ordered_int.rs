//! Vectors of entries kept in strictly increasing order of integer keys.
use vstd::prelude::*;

verus! {

/// The order of integer keys.
pub open spec fn int_lt(a: int, b: int) -> bool {
    a < b
}

proof fn lemma_int_lt_irreflexive(a: int)
    ensures
        !int_lt(a, a),
{
}

proof fn lemma_int_lt_transitive(a: int, b: int, c: int)
    requires
        int_lt(a, b),
        int_lt(b, c),
    ensures
        int_lt(a, c),
{
}

proof fn lemma_int_lt_asymmetric(a: int, b: int)
    requires
        int_lt(a, b),
    ensures
        !int_lt(b, a),
        a != b,
{
}

/// Keys in strictly increasing order.
pub open spec fn keys_sorted_int<V>(s: Seq<(int, V)>) -> bool {
    forall|i: int, j: int| 0 <= i < j < s.len() ==> int_lt(#[trigger] s[i].0, #[trigger] s[j].0)
}

/// The map an entry sequence denotes.
pub open spec fn entries_map_int<V>(s: Seq<(int, V)>) -> Map<int, V> {
    Map::new(
        |k: int| exists|i: int| 0 <= i < s.len() && s[i].0 == k,
        |k: int| s[choose|i: int| 0 <= i < s.len() && s[i].0 == k].1,
    )
}

/// In sorted entries, the entry at `i` is what the map holds at its key.
pub proof fn lemma_entry_in_map_int<V>(s: Seq<(int, V)>, i: int)
    requires
        keys_sorted_int(s),
        0 <= i < s.len(),
    ensures
        entries_map_int(s).contains_key(s[i].0),
        entries_map_int(s)[s[i].0] == s[i].1,
{
    let m = entries_map_int(s);
    assert(m.contains_key(s[i].0));
    let j = choose|j: int| 0 <= j < s.len() && s[j].0 == s[i].0;
    if j < i {
        lemma_int_lt_asymmetric(s[j].0, s[i].0);
    } else if i < j {
        lemma_int_lt_asymmetric(s[i].0, s[j].0);
    }
}

/// A key of the map is the key of some entry.
pub proof fn lemma_map_key_index_int<V>(s: Seq<(int, V)>, k: int) -> (i: int)
    requires
        entries_map_int(s).contains_key(k),
    ensures
        0 <= i < s.len(),
        s[i].0 == k,
{
    choose|i: int| 0 <= i < s.len() && s[i].0 == k
}

/// Sorted entries are determined by the map they denote.
pub proof fn lemma_sorted_unique_int<V>(s: Seq<(int, V)>, t: Seq<(int, V)>)
    requires
        keys_sorted_int(s),
        keys_sorted_int(t),
        entries_map_int(s) == entries_map_int(t),
    ensures
        s == t,
{
    lemma_sorted_prefix_equal_int(s, t, 0);
    if s.len() > t.len() {
        let k = s[t.len() as int].0;
        lemma_entry_in_map_int(s, t.len() as int);
        let j = lemma_map_key_index_int(t, k);
        lemma_entry_in_map_int(s, j);
        lemma_int_lt_asymmetric(s[j].0, s[t.len() as int].0);
    } else if t.len() > s.len() {
        let k = t[s.len() as int].0;
        lemma_entry_in_map_int(t, s.len() as int);
        let j = lemma_map_key_index_int(s, k);
        lemma_int_lt_asymmetric(t[j].0, t[s.len() as int].0);
    }
    assert(s =~= t);
}

/// From position `i` on, sorted entries denoting one map agree.
proof fn lemma_sorted_prefix_equal_int<V>(s: Seq<(int, V)>, t: Seq<(int, V)>, i: int)
    requires
        keys_sorted_int(s),
        keys_sorted_int(t),
        entries_map_int(s) == entries_map_int(t),
        0 <= i,
        forall|p: int| 0 <= p < i && p < s.len() && p < t.len() ==> s[p] == t[p],
    ensures
        forall|p: int| 0 <= p < s.len() && p < t.len() ==> s[p] == t[p],
    decreases s.len() - i,
{
    if i < s.len() && i < t.len() {
        let k1 = s[i].0;
        let k2 = t[i].0;
        lemma_entry_in_map_int(s, i);
        lemma_entry_in_map_int(t, i);
        let j = lemma_map_key_index_int(t, k1);
        let jj = lemma_map_key_index_int(s, k2);
        if j < i {
            lemma_int_lt_asymmetric(s[j].0, s[i].0);
        }
        if jj < i {
            lemma_int_lt_asymmetric(t[jj].0, t[i].0);
        }
        if j > i {
            // t[i] < t[j] == s[i], while s[i] <= s[jj] == t[i].
            if jj > i {
                lemma_int_lt_transitive(s[i].0, s[jj].0, t[j].0);
                lemma_int_lt_irreflexive(s[i].0);
            }
        }
        assert(k1 == k2) by {
            if j != i {
                if jj == i {
                    assert(k2 == k1);
                } else {
                    lemma_int_lt_transitive(s[i].0, s[jj].0, t[j].0);
                    lemma_int_lt_irreflexive(s[i].0);
                }
            }
        }
        assert(s[i] == t[i]);
        lemma_sorted_prefix_equal_int(s, t, i + 1);
    }
}


/// Replacing the value of an entry keeps the order and replaces the value in
/// the map.
pub proof fn lemma_update_entry_int<V>(s: Seq<(int, V)>, i: int, v: V)
    requires
        keys_sorted_int(s),
        0 <= i < s.len(),
    ensures
        keys_sorted_int(s.update(i, (s[i].0, v))),
        entries_map_int(s.update(i, (s[i].0, v))) == entries_map_int(s).insert(s[i].0, v),
{
    let t = s.update(i, (s[i].0, v));
    assert(forall|j: int| 0 <= j < t.len() ==> t[j].0 == s[j].0);
    assert forall|a: int, b: int| 0 <= a < b < t.len() implies int_lt(#[trigger] t[a].0, #[trigger] t[b].0) by {
        assert(t[a].0 == s[a].0 && t[b].0 == s[b].0);
    }
    let m = entries_map_int(s).insert(s[i].0, v);
    assert forall|k: int| entries_map_int(t).contains_key(k) <==> m.contains_key(k) by {
        if entries_map_int(t).contains_key(k) {
            let j = lemma_map_key_index_int(t, k);
            lemma_entry_in_map_int(s, j);
        }
        if m.contains_key(k) && k != s[i].0 {
            let j = lemma_map_key_index_int(s, k);
            assert(t[j].0 == k);
        }
        if k == s[i].0 {
            assert(t[i].0 == k);
        }
    }
    assert forall|k: int| entries_map_int(t).contains_key(k) implies entries_map_int(t)[k] == m[k] by {
        let j = lemma_map_key_index_int(t, k);
        lemma_entry_in_map_int(t, j);
        lemma_entry_in_map_int(s, j);
        if j != i {
            lemma_entry_in_map_int(s, i);
            if j < i {
                lemma_int_lt_asymmetric(s[j].0, s[i].0);
            } else {
                lemma_int_lt_asymmetric(s[i].0, s[j].0);
            }
            assert(k != s[i].0);
            assert(m[k] == entries_map_int(s)[k]);
        }
    }
    assert(entries_map_int(t) =~= m);
}

/// Removing an entry keeps the order and removes its key from the map.
pub proof fn lemma_remove_entry_int<V>(s: Seq<(int, V)>, i: int)
    requires
        keys_sorted_int(s),
        0 <= i < s.len(),
    ensures
        keys_sorted_int(s.remove(i)),
        entries_map_int(s.remove(i)) == entries_map_int(s).remove(s[i].0),
{
    let t = s.remove(i);
    assert forall|a: int, b: int| 0 <= a < b < t.len() implies int_lt(#[trigger] t[a].0, #[trigger] t[b].0) by {
        let a2 = if a < i { a } else { a + 1 };
        let b2 = if b < i { b } else { b + 1 };
        assert(t[a] == s[a2] && t[b] == s[b2]);
    }
    let m = entries_map_int(s).remove(s[i].0);
    assert forall|k: int| entries_map_int(t).contains_key(k) <==> m.contains_key(k) by {
        if entries_map_int(t).contains_key(k) {
            let j = lemma_map_key_index_int(t, k);
            let j2 = if j < i { j } else { j + 1 };
            assert(t[j] == s[j2]);
            lemma_entry_in_map_int(s, j2);
            if j2 < i {
                lemma_int_lt_asymmetric(s[j2].0, s[i].0);
            } else {
                lemma_int_lt_asymmetric(s[i].0, s[j2].0);
            }
        }
        if m.contains_key(k) {
            let j = lemma_map_key_index_int(s, k);
            assert(j != i);
            let j2 = if j < i { j } else { j - 1 };
            assert(t[j2] == s[j]);
        }
    }
    assert forall|k: int| entries_map_int(t).contains_key(k) implies entries_map_int(t)[k] == m[k] by {
        let j = lemma_map_key_index_int(t, k);
        let j2 = if j < i { j } else { j + 1 };
        assert(t[j] == s[j2]);
        lemma_entry_in_map_int(t, j);
        lemma_entry_in_map_int(s, j2);
        if j2 < i {
            lemma_int_lt_asymmetric(s[j2].0, s[i].0);
        } else {
            lemma_int_lt_asymmetric(s[i].0, s[j2].0);
        }
        assert(k != s[i].0);
        assert(m[k] == entries_map_int(s)[k]);
    }
    assert(entries_map_int(t) =~= m);
}

/// Inserting an entry where its key falls between its neighbours keeps the
/// order and adds it to the map.
pub proof fn lemma_insert_entry_int<V>(s: Seq<(int, V)>, i: int, k: int, v: V)
    requires
        keys_sorted_int(s),
        0 <= i <= s.len(),
        forall|j: int| 0 <= j < i ==> int_lt(#[trigger] s[j].0, k),
        i < s.len() ==> int_lt(k, s[i].0),
    ensures
        keys_sorted_int(s.insert(i, (k, v))),
        entries_map_int(s.insert(i, (k, v))) == entries_map_int(s).insert(k, v),
        !entries_map_int(s).contains_key(k),
{
    let t = s.insert(i, (k, v));
    assert forall|j: int| i <= j < s.len() implies int_lt(k, #[trigger] s[j].0) by {
        if j > i {
            lemma_int_lt_transitive(k, s[i].0, s[j].0);
        }
    }
    assert forall|a: int, b: int| 0 <= a < b < t.len() implies int_lt(#[trigger] t[a].0, #[trigger] t[b].0) by {
        if b == i {
            assert(t[a] == s[a]);
        } else if a == i {
            assert(t[b] == s[b - 1]);
        } else {
            let a2 = if a < i { a } else { a - 1 };
            let b2 = if b < i { b } else { b - 1 };
            assert(t[a] == s[a2] && t[b] == s[b2]);
            if a < i && b > i {
                lemma_int_lt_transitive(s[a2].0, k, s[b2].0);
            }
        }
    }
    assert(!entries_map_int(s).contains_key(k)) by {
        if entries_map_int(s).contains_key(k) {
            let j = lemma_map_key_index_int(s, k);
            lemma_int_lt_irreflexive(k);
        }
    }
    let m = entries_map_int(s).insert(k, v);
    assert forall|x: int| entries_map_int(t).contains_key(x) <==> m.contains_key(x) by {
        if entries_map_int(t).contains_key(x) {
            let j = lemma_map_key_index_int(t, x);
            if j != i {
                let j2 = if j < i { j } else { j - 1 };
                assert(t[j] == s[j2]);
                lemma_entry_in_map_int(s, j2);
            }
        }
        if m.contains_key(x) {
            if x == k {
                assert(t[i].0 == k);
            } else {
                let j = lemma_map_key_index_int(s, x);
                let j2 = if j < i { j } else { j + 1 };
                assert(t[j2] == s[j]);
            }
        }
    }
    assert forall|x: int| entries_map_int(t).contains_key(x) implies entries_map_int(t)[x] == m[x] by {
        let j = lemma_map_key_index_int(t, x);
        lemma_entry_in_map_int(t, j);
        if j != i {
            let j2 = if j < i { j } else { j - 1 };
            assert(t[j] == s[j2]);
            lemma_entry_in_map_int(s, j2);
        }
    }
    assert(entries_map_int(t) =~= m);
}

/// The first `i + 1` entries denote the first `i` with one more key.
pub proof fn lemma_take_entry_int<V>(s: Seq<(int, V)>, i: int)
    requires
        keys_sorted_int(s),
        0 <= i < s.len(),
    ensures
        keys_sorted_int(s.take(i + 1)),
        entries_map_int(s.take(i + 1)) == entries_map_int(s.take(i)).insert(s[i].0, s[i].1),
        !entries_map_int(s.take(i)).contains_key(s[i].0),
{
    let t = s.take(i);
    assert(s.take(i + 1) =~= t.insert(i, (s[i].0, s[i].1)));
    assert forall|j: int| 0 <= j < i implies int_lt(#[trigger] t[j].0, s[i].0) by {
        assert(t[j] == s[j]);
    }
    lemma_insert_entry_int(t, i, s[i].0, s[i].1);
}

/// All entries denote the whole map, none the empty one.
pub proof fn lemma_take_all_int<V>(s: Seq<(int, V)>)
    ensures
        s.take(s.len() as int) == s,
        entries_map_int(s.take(0)) == Map::<int, V>::empty(),
{
    assert(s.take(s.len() as int) =~= s);
    assert(entries_map_int(s.take(0)) =~= Map::<int, V>::empty());
}

} // verus!
