//! Provenance notes read as a map from names to text: a later note of a
//! name replaces an earlier one, and the notes are kept by increasing name.
use crate::catalog::text_pairs;
use crate::ordered::{entries_map, keys_sorted, lemma_entry_in_map, lemma_insert_entry, lemma_lt_total, lemma_map_key_index};
use crate::strings::{str_eq, str_lt};
use crate::text::seq_lt;
use vstd::prelude::*;

verus! {

/// The notes as a map: each note, in turn, sets its name's text.
pub open spec fn notes_map(s: Seq<(Seq<char>, Seq<char>)>) -> Map<Seq<char>, Seq<char>>
    decreases s.len(),
{
    if s.len() == 0 {
        Map::empty()
    } else {
        notes_map(s.drop_last()).insert(s.last().0, s.last().1)
    }
}

/// The notes by increasing name, one per name.
pub open spec fn notes_listing(s: Seq<(Seq<char>, Seq<char>)>) -> Seq<(Seq<char>, Seq<char>)> {
    choose|t: Seq<(Seq<char>, Seq<char>)>| keys_sorted(t) && entries_map(t) == notes_map(s)
}

/// Replacing the text at a sorted entry's own name sets that name's text.
proof fn lemma_replace_entry(s: Seq<(Seq<char>, Seq<char>)>, i: int, v: Seq<char>)
    requires
        keys_sorted(s),
        0 <= i < s.len(),
    ensures
        keys_sorted(s.update(i, (s[i].0, v))),
        entries_map(s.update(i, (s[i].0, v))) == entries_map(s).insert(s[i].0, v),
{
    let k = s[i].0;
    let t = s.update(i, (k, v));
    assert forall|a: int, b: int| 0 <= a < b < t.len() implies seq_lt(#[trigger] t[a].0, #[trigger] t[b].0) by {
        assert(t[a].0 == s[a].0 && t[b].0 == s[b].0);
    }
    let m = entries_map(s).insert(k, v);
    assert forall|x: Seq<char>| #[trigger] entries_map(t).contains_key(x) <==> m.contains_key(x) by {
        if entries_map(t).contains_key(x) {
            let j = lemma_map_key_index(t, x);
            assert(s[j].0 == x);
            lemma_entry_in_map(s, j);
        }
        if m.contains_key(x) {
            if x == k {
                assert(t[i].0 == x);
            } else {
                let j = lemma_map_key_index(s, x);
                assert(t[j].0 == x);
            }
        }
    }
    assert forall|x: Seq<char>| #[trigger] entries_map(t).contains_key(x) implies entries_map(t)[x] == m[x] by {
        let j = lemma_map_key_index(t, x);
        lemma_entry_in_map(t, j);
        if x != k {
            assert(j != i);
            assert(t[j] == s[j]);
            lemma_entry_in_map(s, j);
        } else if j != i {
            if j < i {
                assert(seq_lt(t[j].0, t[i].0));
            } else {
                assert(seq_lt(t[i].0, t[j].0));
            }
            crate::ordered::lemma_lt_irreflexive(k);
        }
    }
    assert(entries_map(t) =~= m);
}

/// The notes by increasing name, one per name, a later note of a name
/// replacing an earlier one.
pub fn sorted_notes(notes: Vec<(String, String)>) -> (r: Vec<(String, String)>)
    ensures
        text_pairs(r@) == notes_listing(text_pairs(notes@)),
        keys_sorted(text_pairs(r@)),
{
    let ghost s = text_pairs(notes@);
    let mut r: Vec<(String, String)> = Vec::new();
    assert(entries_map(text_pairs(r@)) =~= Map::<Seq<char>, Seq<char>>::empty());
    let n = notes.len();
    for i in 0..n
        invariant
            n == notes.len(),
            s == text_pairs(notes@),
            keys_sorted(text_pairs(r@)),
            entries_map(text_pairs(r@)) == notes_map(s.take(i as int)),
    {
        assert(s.take(i + 1).drop_last() =~= s.take(i as int));
        assert(s[i as int] == (notes@[i as int].0@, notes@[i as int].1@));
        let ghost t = text_pairs(r@);
        let key = notes[i].0.clone();
        let text = notes[i].1.clone();
        let mut p: usize = 0;
        while p < r.len() && str_lt(r[p].0.as_str(), key.as_str())
            invariant
                p <= r.len(),
                t == text_pairs(r@),
                forall|j: int| 0 <= j < p ==> seq_lt(#[trigger] t[j].0, key@),
            decreases r.len() - p,
        {
            assert(t[p as int] == (r@[p as int].0@, r@[p as int].1@));
            p = p + 1;
        }
        if p < r.len() && str_eq(r[p].0.as_str(), key.as_str()) {
            assert(t[p as int] == (r@[p as int].0@, r@[p as int].1@));
            proof {
                lemma_replace_entry(t, p as int, text@);
            }
            r.set(p, (key, text));
            assert(text_pairs(r@) =~= t.update(p as int, (t[p as int].0, s[i as int].1)));
        } else {
            proof {
                if p < r.len() {
                    assert(t[p as int] == (r@[p as int].0@, r@[p as int].1@));
                    lemma_lt_total(key@, t[p as int].0);
                }
                lemma_insert_entry(t, p as int, key@, text@);
            }
            r.insert(p, (key, text));
            assert(text_pairs(r@) =~= t.insert(p as int, (s[i as int].0, s[i as int].1)));
        }
    }
    assert(s.take(n as int) =~= s);
    proof {
        let l = notes_listing(s);
        assert(keys_sorted(l) && entries_map(l) == notes_map(s));
        crate::ordered::lemma_sorted_unique(l, text_pairs(r@));
    }
    r
}

} // verus!
