//! Vectors of entries kept in strictly increasing order of their text keys:
//! the form a sparse map from identifiers to exact values takes. The order is
//! that of `String`.
use crate::text::seq_lt;
use vstd::prelude::*;

verus! {

/// `seq_lt` never holds of a sequence and itself.
pub proof fn lemma_lt_irreflexive(a: Seq<char>)
    ensures
        !seq_lt(a, a),
    decreases a.len(),
{
    if a.len() > 0 {
        lemma_lt_irreflexive(a.drop_first());
    }
}

pub proof fn lemma_lt_transitive(a: Seq<char>, b: Seq<char>, c: Seq<char>)
    requires
        seq_lt(a, b),
        seq_lt(b, c),
    ensures
        seq_lt(a, c),
    decreases a.len(),
{
    if a.len() > 0 && b.len() > 0 && c.len() > 0 && a[0] == b[0] && b[0] == c[0] {
        lemma_lt_transitive(a.drop_first(), b.drop_first(), c.drop_first());
    }
}

/// Two different sequences are ordered one way or the other.
pub proof fn lemma_lt_total(a: Seq<char>, b: Seq<char>)
    ensures
        a == b || seq_lt(a, b) || seq_lt(b, a),
    decreases a.len(),
{
    if a.len() > 0 && b.len() > 0 && a[0] == b[0] {
        lemma_lt_total(a.drop_first(), b.drop_first());
        if a.drop_first() == b.drop_first() {
            assert(a =~= seq![a[0]] + a.drop_first());
            assert(b =~= seq![b[0]] + b.drop_first());
        }
    } else if a.len() == 0 && b.len() == 0 {
        assert(a =~= b);
    }
}

pub proof fn lemma_lt_asymmetric(a: Seq<char>, b: Seq<char>)
    requires
        seq_lt(a, b),
    ensures
        !seq_lt(b, a),
        a != b,
{
    lemma_lt_irreflexive(a);
    if seq_lt(b, a) {
        lemma_lt_transitive(a, b, a);
    }
}

/// Keys in strictly increasing order.
pub open spec fn keys_sorted<V>(s: Seq<(Seq<char>, V)>) -> bool {
    forall|i: int, j: int| 0 <= i < j < s.len() ==> seq_lt(#[trigger] s[i].0, #[trigger] s[j].0)
}

/// The map an entry sequence denotes.
pub open spec fn entries_map<V>(s: Seq<(Seq<char>, V)>) -> Map<Seq<char>, V> {
    Map::new(
        |k: Seq<char>| exists|i: int| 0 <= i < s.len() && s[i].0 == k,
        |k: Seq<char>| s[choose|i: int| 0 <= i < s.len() && s[i].0 == k].1,
    )
}

/// In sorted entries, the entry at `i` is what the map holds at its key.
pub proof fn lemma_entry_in_map<V>(s: Seq<(Seq<char>, V)>, i: int)
    requires
        keys_sorted(s),
        0 <= i < s.len(),
    ensures
        entries_map(s).contains_key(s[i].0),
        entries_map(s)[s[i].0] == s[i].1,
{
    let m = entries_map(s);
    assert(m.contains_key(s[i].0));
    let j = choose|j: int| 0 <= j < s.len() && s[j].0 == s[i].0;
    if j < i {
        lemma_lt_asymmetric(s[j].0, s[i].0);
    } else if i < j {
        lemma_lt_asymmetric(s[i].0, s[j].0);
    }
}

/// A key of the map is the key of some entry.
pub proof fn lemma_map_key_index<V>(s: Seq<(Seq<char>, V)>, k: Seq<char>) -> (i: int)
    requires
        entries_map(s).contains_key(k),
    ensures
        0 <= i < s.len(),
        s[i].0 == k,
{
    choose|i: int| 0 <= i < s.len() && s[i].0 == k
}

/// Sorted entries are determined by the map they denote.
pub proof fn lemma_sorted_unique<V>(s: Seq<(Seq<char>, V)>, t: Seq<(Seq<char>, V)>)
    requires
        keys_sorted(s),
        keys_sorted(t),
        entries_map(s) == entries_map(t),
    ensures
        s == t,
{
    lemma_sorted_prefix_equal(s, t, 0);
    if s.len() > t.len() {
        let k = s[t.len() as int].0;
        lemma_entry_in_map(s, t.len() as int);
        let j = lemma_map_key_index(t, k);
        lemma_entry_in_map(s, j);
        lemma_lt_asymmetric(s[j].0, s[t.len() as int].0);
    } else if t.len() > s.len() {
        let k = t[s.len() as int].0;
        lemma_entry_in_map(t, s.len() as int);
        let j = lemma_map_key_index(s, k);
        lemma_lt_asymmetric(t[j].0, t[s.len() as int].0);
    }
    assert(s =~= t);
}

/// From position `i` on, sorted entries denoting one map agree.
proof fn lemma_sorted_prefix_equal<V>(s: Seq<(Seq<char>, V)>, t: Seq<(Seq<char>, V)>, i: int)
    requires
        keys_sorted(s),
        keys_sorted(t),
        entries_map(s) == entries_map(t),
        0 <= i,
        forall|p: int| 0 <= p < i && p < s.len() && p < t.len() ==> s[p] == t[p],
    ensures
        forall|p: int| 0 <= p < s.len() && p < t.len() ==> s[p] == t[p],
    decreases s.len() - i,
{
    if i < s.len() && i < t.len() {
        let k1 = s[i].0;
        let k2 = t[i].0;
        lemma_entry_in_map(s, i);
        lemma_entry_in_map(t, i);
        let j = lemma_map_key_index(t, k1);
        let jj = lemma_map_key_index(s, k2);
        if j < i {
            lemma_lt_asymmetric(s[j].0, s[i].0);
        }
        if jj < i {
            lemma_lt_asymmetric(t[jj].0, t[i].0);
        }
        if j > i {
            // t[i] < t[j] == s[i], while s[i] <= s[jj] == t[i].
            if jj > i {
                lemma_lt_transitive(s[i].0, s[jj].0, t[j].0);
                lemma_lt_irreflexive(s[i].0);
            }
        }
        assert(k1 == k2) by {
            if j != i {
                if jj == i {
                    assert(k2 == k1);
                } else {
                    lemma_lt_transitive(s[i].0, s[jj].0, t[j].0);
                    lemma_lt_irreflexive(s[i].0);
                }
            }
        }
        assert(s[i] == t[i]);
        lemma_sorted_prefix_equal(s, t, i + 1);
    }
}


/// Replacing the value of an entry keeps the order and replaces the value in
/// the map.
pub proof fn lemma_update_entry<V>(s: Seq<(Seq<char>, V)>, i: int, v: V)
    requires
        keys_sorted(s),
        0 <= i < s.len(),
    ensures
        keys_sorted(s.update(i, (s[i].0, v))),
        entries_map(s.update(i, (s[i].0, v))) == entries_map(s).insert(s[i].0, v),
{
    let t = s.update(i, (s[i].0, v));
    assert(forall|j: int| 0 <= j < t.len() ==> t[j].0 == s[j].0);
    assert forall|a: int, b: int| 0 <= a < b < t.len() implies seq_lt(#[trigger] t[a].0, #[trigger] t[b].0) by {
        assert(t[a].0 == s[a].0 && t[b].0 == s[b].0);
    }
    let m = entries_map(s).insert(s[i].0, v);
    assert forall|k: Seq<char>| entries_map(t).contains_key(k) <==> m.contains_key(k) by {
        if entries_map(t).contains_key(k) {
            let j = lemma_map_key_index(t, k);
            lemma_entry_in_map(s, j);
        }
        if m.contains_key(k) && k != s[i].0 {
            let j = lemma_map_key_index(s, k);
            assert(t[j].0 == k);
        }
        if k == s[i].0 {
            assert(t[i].0 == k);
        }
    }
    assert forall|k: Seq<char>| entries_map(t).contains_key(k) implies entries_map(t)[k] == m[k] by {
        let j = lemma_map_key_index(t, k);
        lemma_entry_in_map(t, j);
        lemma_entry_in_map(s, j);
        if j != i {
            lemma_entry_in_map(s, i);
            if j < i {
                lemma_lt_asymmetric(s[j].0, s[i].0);
            } else {
                lemma_lt_asymmetric(s[i].0, s[j].0);
            }
            assert(k != s[i].0);
            assert(m[k] == entries_map(s)[k]);
        }
    }
    assert(entries_map(t) =~= m);
}

/// Removing an entry keeps the order and removes its key from the map.
pub proof fn lemma_remove_entry<V>(s: Seq<(Seq<char>, V)>, i: int)
    requires
        keys_sorted(s),
        0 <= i < s.len(),
    ensures
        keys_sorted(s.remove(i)),
        entries_map(s.remove(i)) == entries_map(s).remove(s[i].0),
{
    let t = s.remove(i);
    assert forall|a: int, b: int| 0 <= a < b < t.len() implies seq_lt(#[trigger] t[a].0, #[trigger] t[b].0) by {
        let a2 = if a < i { a } else { a + 1 };
        let b2 = if b < i { b } else { b + 1 };
        assert(t[a] == s[a2] && t[b] == s[b2]);
    }
    let m = entries_map(s).remove(s[i].0);
    assert forall|k: Seq<char>| entries_map(t).contains_key(k) <==> m.contains_key(k) by {
        if entries_map(t).contains_key(k) {
            let j = lemma_map_key_index(t, k);
            let j2 = if j < i { j } else { j + 1 };
            assert(t[j] == s[j2]);
            lemma_entry_in_map(s, j2);
            if j2 < i {
                lemma_lt_asymmetric(s[j2].0, s[i].0);
            } else {
                lemma_lt_asymmetric(s[i].0, s[j2].0);
            }
        }
        if m.contains_key(k) {
            let j = lemma_map_key_index(s, k);
            assert(j != i);
            let j2 = if j < i { j } else { j - 1 };
            assert(t[j2] == s[j]);
        }
    }
    assert forall|k: Seq<char>| entries_map(t).contains_key(k) implies entries_map(t)[k] == m[k] by {
        let j = lemma_map_key_index(t, k);
        let j2 = if j < i { j } else { j + 1 };
        assert(t[j] == s[j2]);
        lemma_entry_in_map(t, j);
        lemma_entry_in_map(s, j2);
        if j2 < i {
            lemma_lt_asymmetric(s[j2].0, s[i].0);
        } else {
            lemma_lt_asymmetric(s[i].0, s[j2].0);
        }
        assert(k != s[i].0);
        assert(m[k] == entries_map(s)[k]);
    }
    assert(entries_map(t) =~= m);
}

/// Inserting an entry where its key falls between its neighbours keeps the
/// order and adds it to the map.
pub proof fn lemma_insert_entry<V>(s: Seq<(Seq<char>, V)>, i: int, k: Seq<char>, v: V)
    requires
        keys_sorted(s),
        0 <= i <= s.len(),
        forall|j: int| 0 <= j < i ==> seq_lt(#[trigger] s[j].0, k),
        i < s.len() ==> seq_lt(k, s[i].0),
    ensures
        keys_sorted(s.insert(i, (k, v))),
        entries_map(s.insert(i, (k, v))) == entries_map(s).insert(k, v),
        !entries_map(s).contains_key(k),
{
    let t = s.insert(i, (k, v));
    assert forall|j: int| i <= j < s.len() implies seq_lt(k, #[trigger] s[j].0) by {
        if j > i {
            lemma_lt_transitive(k, s[i].0, s[j].0);
        }
    }
    assert forall|a: int, b: int| 0 <= a < b < t.len() implies seq_lt(#[trigger] t[a].0, #[trigger] t[b].0) by {
        if b == i {
            assert(t[a] == s[a]);
        } else if a == i {
            assert(t[b] == s[b - 1]);
        } else {
            let a2 = if a < i { a } else { a - 1 };
            let b2 = if b < i { b } else { b - 1 };
            assert(t[a] == s[a2] && t[b] == s[b2]);
            if a < i && b > i {
                lemma_lt_transitive(s[a2].0, k, s[b2].0);
            }
        }
    }
    assert(!entries_map(s).contains_key(k)) by {
        if entries_map(s).contains_key(k) {
            let j = lemma_map_key_index(s, k);
            lemma_lt_irreflexive(k);
        }
    }
    let m = entries_map(s).insert(k, v);
    assert forall|x: Seq<char>| entries_map(t).contains_key(x) <==> m.contains_key(x) by {
        if entries_map(t).contains_key(x) {
            let j = lemma_map_key_index(t, x);
            if j != i {
                let j2 = if j < i { j } else { j - 1 };
                assert(t[j] == s[j2]);
                lemma_entry_in_map(s, j2);
            }
        }
        if m.contains_key(x) {
            if x == k {
                assert(t[i].0 == k);
            } else {
                let j = lemma_map_key_index(s, x);
                let j2 = if j < i { j } else { j + 1 };
                assert(t[j2] == s[j]);
            }
        }
    }
    assert forall|x: Seq<char>| entries_map(t).contains_key(x) implies entries_map(t)[x] == m[x] by {
        let j = lemma_map_key_index(t, x);
        lemma_entry_in_map(t, j);
        if j != i {
            let j2 = if j < i { j } else { j - 1 };
            assert(t[j] == s[j2]);
            lemma_entry_in_map(s, j2);
        }
    }
    assert(entries_map(t) =~= m);
}

/// The first `i + 1` entries denote the first `i` with one more key.
pub proof fn lemma_take_entry<V>(s: Seq<(Seq<char>, V)>, i: int)
    requires
        keys_sorted(s),
        0 <= i < s.len(),
    ensures
        keys_sorted(s.take(i + 1)),
        entries_map(s.take(i + 1)) == entries_map(s.take(i)).insert(s[i].0, s[i].1),
        !entries_map(s.take(i)).contains_key(s[i].0),
{
    let t = s.take(i);
    assert(s.take(i + 1) =~= t.insert(i, (s[i].0, s[i].1)));
    assert forall|j: int| 0 <= j < i implies seq_lt(#[trigger] t[j].0, s[i].0) by {
        assert(t[j] == s[j]);
    }
    lemma_insert_entry(t, i, s[i].0, s[i].1);
}

/// All entries denote the whole map, none the empty one.
pub proof fn lemma_take_all<V>(s: Seq<(Seq<char>, V)>)
    ensures
        s.take(s.len() as int) == s,
        entries_map(s.take(0)) == Map::<Seq<char>, V>::empty(),
{
    assert(s.take(s.len() as int) =~= s);
    assert(entries_map(s.take(0)) =~= Map::<Seq<char>, V>::empty());
}

} // verus!
