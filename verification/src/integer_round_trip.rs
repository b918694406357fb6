//! An integer signature reads back as the canonical dimensions it was
//! written from.
use crate::dimension::{canonical_id, sig_rank};
use crate::integer_dims::{
    add_to, by_rank, has_key, is_signature, joined_with, key_index, keys_distinct, keys_increasing, lemma_add_to_keys,
    lemma_key_index, lemma_nonzero_keys, merged, nonzero, of_rank, part_entry, parsed_entries, parts_parse, put,
    signature_entry, signature_with, sorts_keys,
};
use crate::round_trip::{lemma_find_after, lemma_int_text, lemma_split_append, lemma_split_single};
use crate::text::{int_text, is_digit, split_on};
use vstd::prelude::*;

verus! {

/// Canonical spelling is idempotent, and adds neither `,` nor `:`.
proof fn lemma_canonical_id(k: Seq<char>)
    ensures
        canonical_id(canonical_id(k)) == canonical_id(k),
        !k.contains(',') ==> !canonical_id(k).contains(','),
        !k.contains(':') ==> !canonical_id(k).contains(':'),
{
    reveal_strlit("Theta");
    reveal_strlit("\u{0398}");
    reveal_strlit("\u{03b8}");
    assert("Theta"@.len() == 5);
    if canonical_id(k) != k {
        let t = "Theta"@;
        assert forall|i: int| 0 <= i < t.len() implies t[i] != ',' && t[i] != ':' by {}
    }
}

/// Merged entries have distinct, canonical identifiers, each the canonical
/// spelling of an identifier of the entries.
#[verifier::spinoff_prover]
proof fn lemma_merged(s: Seq<(Seq<char>, int)>)
    ensures
        keys_distinct(merged(s)),
        forall|i: int| 0 <= i < merged(s).len() ==> canonical_id((#[trigger] merged(s)[i]).0) == merged(s)[i].0,
        forall|x: Seq<char>| #[trigger] has_key(merged(s), x) ==> exists|j: int| 0 <= j < s.len() && canonical_id(s[j].0) == x,
    decreases s.len(),
{
    if s.len() > 0 {
        let t = s.drop_last();
        lemma_merged(t);
        let k = canonical_id(s.last().0);
        lemma_canonical_id(s.last().0);
        lemma_add_to_keys(merged(t), k, s.last().1);
        lemma_key_index(merged(t), k);
        let m = merged(s);
        assert forall|i: int| 0 <= i < m.len() implies canonical_id((#[trigger] m[i]).0) == m[i].0 by {
            if i < merged(t).len() {
                assert(m[i].0 == merged(t)[i].0);
            } else {
                assert(m[i].0 == k);
            }
        }
        assert forall|x: Seq<char>| #[trigger] has_key(m, x) implies exists|j: int| 0 <= j < s.len() && canonical_id(s[j].0) == x by {
            if x == k {
                assert(canonical_id(s[s.len() - 1].0) == x);
            } else {
                assert(has_key(merged(t), x));
                let j = choose|j: int| 0 <= j < t.len() && canonical_id(t[j].0) == x;
                assert(s[j] == t[j]);
            }
        }
    }
}

/// The entries of a rank are its members, with distinct identifiers.
#[verifier::spinoff_prover]
proof fn lemma_of_rank(s: Seq<(Seq<char>, int)>, r: nat)
    requires
        keys_distinct(s),
    ensures
        keys_distinct(of_rank(s, r)),
        forall|x: (Seq<char>, int)| #[trigger] of_rank(s, r).contains(x) <==> (s.contains(x) && sig_rank(x.0) == r),
    decreases s.len(),
{
    if s.len() > 0 {
        let t = s.drop_last();
        assert(keys_distinct(t)) by {
            assert forall|i: int, j: int| 0 <= i < j < t.len() implies #[trigger] t[i].0 != #[trigger] t[j].0 by {
                assert(s[i].0 != s[j].0);
            }
        }
        lemma_of_rank(t, r);
        let o = of_rank(s, r);
        assert forall|x: (Seq<char>, int)| #[trigger] o.contains(x) <==> (s.contains(x) && sig_rank(x.0) == r) by {
            if o.contains(x) {
                let i = choose|i: int| 0 <= i < o.len() && o[i] == x;
                if i < of_rank(t, r).len() {
                    assert(of_rank(t, r).contains(x));
                    let j = choose|j: int| 0 <= j < t.len() && t[j] == x;
                    assert(s[j] == x);
                } else {
                    assert(s[s.len() - 1] == x);
                }
            }
            if s.contains(x) && sig_rank(x.0) == r {
                let i = choose|i: int| 0 <= i < s.len() && s[i] == x;
                if i < s.len() - 1 {
                    assert(t[i] == x);
                    assert(of_rank(t, r).contains(x));
                    let j = choose|j: int| 0 <= j < of_rank(t, r).len() && of_rank(t, r)[j] == x;
                    assert(o[j] == x);
                } else {
                    assert(o[o.len() - 1] == x);
                }
            }
        }
        if sig_rank(s.last().0) == r {
            assert forall|i: int, j: int| 0 <= i < j < o.len() implies #[trigger] o[i].0 != #[trigger] o[j].0 by {
                if j == o.len() - 1 {
                    assert(of_rank(t, r).contains(o[i]));
                    let k = choose|k: int| 0 <= k < t.len() && t[k] == o[i];
                    assert(s[k].0 != s[s.len() - 1].0);
                } else {
                    assert(o[i] == of_rank(t, r)[i] && o[j] == of_rank(t, r)[j]);
                }
            }
        }
    }
}

/// The entries of the ranks below `r` are their members, with distinct
/// identifiers.
#[verifier::spinoff_prover]
proof fn lemma_by_rank(s: Seq<(Seq<char>, int)>, r: nat)
    requires
        keys_distinct(s),
    ensures
        keys_distinct(by_rank(s, r)),
        forall|x: (Seq<char>, int)| #[trigger] by_rank(s, r).contains(x) <==> (s.contains(x) && sig_rank(x.0) < r),
    decreases r,
{
    if r > 0 {
        let m = (r - 1) as nat;
        lemma_by_rank(s, m);
        lemma_of_rank(s, m);
        let a = by_rank(s, m);
        let b = of_rank(s, m);
        let c = by_rank(s, r);
        assert(c == a + b);
        assert forall|x: (Seq<char>, int)| #[trigger] c.contains(x) <==> (s.contains(x) && sig_rank(x.0) < r) by {
            if c.contains(x) {
                let i = choose|i: int| 0 <= i < c.len() && c[i] == x;
                if i < a.len() {
                    assert(a.contains(x));
                } else {
                    assert(b[i - a.len()] == x);
                    assert(b.contains(x));
                }
            }
            if s.contains(x) && sig_rank(x.0) < r {
                if sig_rank(x.0) < m {
                    assert(a.contains(x));
                    let i = choose|i: int| 0 <= i < a.len() && a[i] == x;
                    assert(c[i] == x);
                } else {
                    assert(b.contains(x));
                    let i = choose|i: int| 0 <= i < b.len() && b[i] == x;
                    assert(c[a.len() + i] == x);
                }
            }
        }
        assert forall|i: int, j: int| 0 <= i < j < c.len() implies #[trigger] c[i].0 != #[trigger] c[j].0 by {
            if j < a.len() {
                assert(c[i] == a[i] && c[j] == a[j]);
            } else if i >= a.len() {
                assert(c[i] == b[i - a.len()] && c[j] == b[j - a.len()]);
            } else {
                assert(c[i] == a[i]);
                assert(a.contains(a[i]));
                assert(c[j] == b[j - a.len()]);
                assert(b.contains(b[j - a.len()]));
            }
        }
    }
}

/// An entry's signature text reads back as the entry.
#[verifier::spinoff_prover]
proof fn lemma_signature_entry(e: (Seq<char>, int))
    requires
        !e.0.contains(':'),
    ensures
        part_entry(signature_entry(e)) == Some(e),
        signature_entry(e).len() >= 2,
        !e.0.contains(',') ==> !signature_entry(e).contains(','),
{
    reveal_strlit(":");
    lemma_int_text(e.1);
    let t = signature_entry(e);
    let n = int_text(e.1);
    assert(t =~= e.0 + seq![':'] + n);
    assert forall|i: int| 0 <= i < e.0.len() implies e.0[i] != ':' by {
        assert(e.0.contains(e.0[i]));
    }
    lemma_find_after(e.0, ':', n);
    assert(t.take(e.0.len() as int) =~= e.0);
    assert(t.skip(e.0.len() as int + 1) =~= n);
    assert(n.len() >= 1) by {
        assert(crate::text::parse_int(n) is Some);
        if n.len() == 0 {
            assert(crate::text::parse_nat(n) is None);
        }
    }
    if !e.0.contains(',') && t.contains(',') {
        let j = choose|j: int| 0 <= j < t.len() && t[j] == ',';
        if j < e.0.len() {
            assert(e.0[j] == ',');
            assert(e.0.contains(','));
        } else if j > e.0.len() {
            assert(n[j - e.0.len() - 1] == ',');
            assert(is_digit(n[j - e.0.len() - 1]) || n[j - e.0.len() - 1] == '-');
        }
    }
}

/// Texts without commas, joined by commas, split back into the texts.
#[verifier::spinoff_prover]
proof fn lemma_split_joined_with(parts: Seq<Seq<char>>)
    requires
        parts.len() >= 1,
        forall|i: int| 0 <= i < parts.len() ==> !(#[trigger] parts[i]).contains(','),
    ensures
        split_on(joined_with(parts, ","@), ',') == parts,
    decreases parts.len(),
{
    reveal_strlit(",");
    assert forall|i: int, j: int| 0 <= i < parts.len() && 0 <= j < parts[i].len() implies #[trigger] parts[i][j] != ',' by {
        if parts[i][j] == ',' {
            assert(parts[i].contains(','));
        }
    }
    if parts.len() == 1 {
        lemma_split_single(parts[0]);
        assert(parts =~= seq![parts[0]]);
    } else {
        let t = parts.drop_last();
        assert forall|i: int| 0 <= i < t.len() implies !(#[trigger] t[i]).contains(',') by {
            assert(t[i] == parts[i]);
        }
        lemma_split_joined_with(t);
        assert(joined_with(parts, ","@) =~= joined_with(t, ","@) + seq![','] + parts.last());
        assert forall|j: int| 0 <= j < parts.last().len() implies parts.last()[j] != ',' by {
            assert(parts[parts.len() - 1][j] != ',');
        }
        lemma_split_append(joined_with(t, ","@), parts.last());
        assert(t.push(parts.last()) =~= parts);
    }
}

/// Inserting entries with distinct identifiers, in turn, gives them back.
#[verifier::spinoff_prover]
proof fn lemma_parsed(s: Seq<(Seq<char>, int)>)
    requires
        keys_distinct(s),
        forall|i: int| 0 <= i < s.len() ==> !(#[trigger] s[i]).0.contains(':'),
    ensures
        parsed_entries(s.map_values(|e: (Seq<char>, int)| signature_entry(e))) == s,
    decreases s.len(),
{
    let parts = s.map_values(|e: (Seq<char>, int)| signature_entry(e));
    if s.len() == 0 {
        assert(s =~= Seq::<(Seq<char>, int)>::empty());
    } else {
        let t = s.drop_last();
        assert(keys_distinct(t)) by {
            assert forall|i: int, j: int| 0 <= i < j < t.len() implies #[trigger] t[i].0 != #[trigger] t[j].0 by {
                assert(s[i].0 != s[j].0);
            }
        }
        assert forall|i: int| 0 <= i < t.len() implies !(#[trigger] t[i]).0.contains(':') by {
            assert(t[i] == s[i]);
        }
        lemma_parsed(t);
        assert(parts.drop_last() =~= t.map_values(|e: (Seq<char>, int)| signature_entry(e)));
        let e = s.last();
        assert(e == s[s.len() - 1]);
        lemma_signature_entry(e);
        lemma_key_index(t, e.0);
        if key_index(t, e.0) is Some {
            let i = key_index(t, e.0)->0;
            assert(s[i].0 != s[s.len() - 1].0);
        }
        assert(put(t, e.0, e.1) =~= s);
    }
}

/// Merging canonical, distinct identifiers changes nothing.
#[verifier::spinoff_prover]
proof fn lemma_merged_fixed(s: Seq<(Seq<char>, int)>)
    requires
        keys_distinct(s),
        forall|i: int| 0 <= i < s.len() ==> canonical_id((#[trigger] s[i]).0) == s[i].0,
    ensures
        merged(s) == s,
    decreases s.len(),
{
    if s.len() == 0 {
        assert(s =~= Seq::<(Seq<char>, int)>::empty());
    } else {
        let t = s.drop_last();
        assert(keys_distinct(t)) by {
            assert forall|i: int, j: int| 0 <= i < j < t.len() implies #[trigger] t[i].0 != #[trigger] t[j].0 by {
                assert(s[i].0 != s[j].0);
            }
        }
        assert forall|i: int| 0 <= i < t.len() implies canonical_id((#[trigger] t[i]).0) == t[i].0 by {
            assert(t[i] == s[i]);
        }
        lemma_merged_fixed(t);
        let e = s.last();
        assert(canonical_id(s[s.len() - 1].0) == s[s.len() - 1].0);
        lemma_key_index(t, e.0);
        if key_index(t, e.0) is Some {
            let i = key_index(t, e.0)->0;
            assert(s[i].0 != s[s.len() - 1].0);
        }
        assert(add_to(t, e.0, e.1) =~= s);
    }
}

/// Entries without a zero exponent are their own nonzero entries.
proof fn lemma_nonzero_fixed(s: Seq<(Seq<char>, int)>)
    requires
        forall|i: int| 0 <= i < s.len() ==> (#[trigger] s[i]).1 != 0,
    ensures
        nonzero(s) == s,
    decreases s.len(),
{
    if s.len() == 0 {
        assert(s =~= Seq::<(Seq<char>, int)>::empty());
    } else {
        let t = s.drop_last();
        assert forall|i: int| 0 <= i < t.len() implies (#[trigger] t[i]).1 != 0 by {
            assert(t[i] == s[i]);
        }
        lemma_nonzero_fixed(t);
        assert(s[s.len() - 1].1 != 0);
        assert(t.push(s.last()) =~= s);
    }
}

/// Joined texts of at least two characters are longer than one.
proof fn lemma_joined_with_len(parts: Seq<Seq<char>>)
    requires
        parts.len() >= 1,
        forall|i: int| 0 <= i < parts.len() ==> (#[trigger] parts[i]).len() >= 2,
    ensures
        joined_with(parts, ","@).len() >= 2,
    decreases parts.len(),
{
    if parts.len() > 1 {
        let t = parts.drop_last();
        assert forall|i: int| 0 <= i < t.len() implies (#[trigger] t[i]).len() >= 2 by {
            assert(t[i] == parts[i]);
        }
        lemma_joined_with_len(t);
        assert(parts[parts.len() - 1].len() >= 2);
    } else {
        assert(parts[0].len() >= 2);
    }
}

/// An integer signature reads back as the canonical dimensions it was
/// written from: for entries whose identifiers hold neither `,` nor `:`,
/// the text `signature` writes parses, and gives the same entries as
/// `canonicalize`, in some order.
#[verifier::spinoff_prover]
pub proof fn law_integer_signature_round_trip(entries: Seq<(Seq<char>, int)>, text: Seq<char>)
    requires
        is_signature(entries, text),
        forall|i: int| 0 <= i < entries.len() ==> !(#[trigger] entries[i]).0.contains(',') && !entries[i].0.contains(':'),
    ensures
        text == "1"@ || parts_parse(text),
        (if text == "1"@ {
            Seq::<(Seq<char>, int)>::empty()
        } else {
            nonzero(merged(parsed_entries(split_on(text, ','))))
        }).to_set() == nonzero(merged(entries)).to_set(),
{
    reveal_strlit("1");
    let c = nonzero(merged(entries));
    lemma_merged(entries);
    lemma_nonzero_keys(merged(entries));
    assert forall|i: int| 0 <= i < c.len() implies canonical_id((#[trigger] c[i]).0) == c[i].0 && !c[i].0.contains(',')
        && !c[i].0.contains(':') && c[i].1 != 0 by {
        assert(merged(entries).contains(c[i]));
        let j = choose|j: int| 0 <= j < merged(entries).len() && merged(entries)[j] == c[i];
        assert(has_key(merged(entries), c[i].0));
        let p = choose|p: int| 0 <= p < entries.len() && canonical_id(entries[p].0) == c[i].0;
        lemma_canonical_id(entries[p].0);
        assert(!entries[p].0.contains(',') && !entries[p].0.contains(':'));
    }
    if c.len() == 0 {
        assert(text == "1"@);
        assert(c.to_set() =~= Seq::<(Seq<char>, int)>::empty().to_set());
    } else {
        let u = choose|u: Seq<(Seq<char>, int)>| #[trigger] sorts_keys(u, of_rank(c, 7)) && text == signature_with(c, u);
        lemma_by_rank(c, 7);
        lemma_of_rank(c, 7);
        let head = by_rank(c, 7);
        let order = head + u;
        assert forall|x: (Seq<char>, int)| order.contains(x) <==> c.contains(x) by {
            if order.contains(x) {
                let i = choose|i: int| 0 <= i < order.len() && order[i] == x;
                if i >= head.len() {
                    assert(u[i - head.len()] == x);
                    assert(u.contains(x));
                    assert(u.to_set().contains(x));
                    assert(of_rank(c, 7).to_set().contains(x));
                    assert(of_rank(c, 7).contains(x));
                } else {
                    assert(head[i] == x);
                    assert(head.contains(x));
                }
                assert(c.contains(x));
            }
            if c.contains(x) {
                if sig_rank(x.0) < 7 {
                    assert(head.contains(x));
                    let i = choose|i: int| 0 <= i < head.len() && head[i] == x;
                    assert(order[i] == x);
                } else {
                    assert(sig_rank(x.0) == 7);
                    assert(of_rank(c, 7).contains(x));
                    assert(of_rank(c, 7).to_set().contains(x));
                    assert(u.to_set().contains(x));
                    assert(u.contains(x));
                    let i = choose|i: int| 0 <= i < u.len() && u[i] == x;
                    assert(order[head.len() + i] == x);
                }
                assert(order.contains(x));
            }
        }
        assert(keys_distinct(order)) by {
            assert forall|i: int, j: int| 0 <= i < j < order.len() implies #[trigger] order[i].0 != #[trigger] order[j].0 by {
                if j < head.len() {
                    assert(order[i] == head[i] && order[j] == head[j]);
                } else if i >= head.len() {
                    assert(order[i] == u[i - head.len()] && order[j] == u[j - head.len()]);
                    crate::ordered::lemma_lt_asymmetric(u[i - head.len()].0, u[j - head.len()].0);
                } else {
                    assert(order[i] == head[i]);
                    assert(head.contains(head[i]));
                    assert(order[j] == u[j - head.len()]);
                    assert(u.to_set().contains(u[j - head.len()]));
                    assert(of_rank(c, 7).contains(u[j - head.len()]));
                }
            }
        }
        assert forall|i: int| 0 <= i < order.len() implies canonical_id((#[trigger] order[i]).0) == order[i].0
            && !order[i].0.contains(',') && !order[i].0.contains(':') && order[i].1 != 0 by {
            assert(order.contains(order[i]));
            let j = choose|j: int| 0 <= j < c.len() && c[j] == order[i];
            assert(c[j] == order[i]);
        }
        assert(order.len() >= 1) by {
            assert(c.contains(c[0]));
        }
        let parts = order.map_values(|e: (Seq<char>, int)| signature_entry(e));
        assert forall|i: int| 0 <= i < parts.len() implies !(#[trigger] parts[i]).contains(',') && parts[i].len() >= 2 by {
            lemma_signature_entry(order[i]);
        }
        assert(text == joined_with(parts, ","@));
        lemma_joined_with_len(parts);
        assert(text != "1"@);
        lemma_split_joined_with(parts);
        assert(split_on(text, ',') == parts);
        assert forall|i: int| 0 <= i < split_on(text, ',').len() implies (#[trigger] part_entry(split_on(text, ',')[i])) is Some by {
            lemma_signature_entry(order[i]);
        }
        lemma_parsed(order);
        lemma_merged_fixed(order);
        lemma_nonzero_fixed(order);
        assert(order.to_set() =~= c.to_set());
    }
}

} // verus!
