//! Written text reads back as what it was written from: dimension
//! signatures and exact scalars.
use crate::bignum::parse_ratio;
use crate::numtheory::{canonical, lemma_add_zero, lemma_rat_of_canonical, rat_zero};
use crate::dimension::{
    canonical_id, dims_insert, dims_ok, dims_signature, entry_text, joined, part_power, parts_map, power_in, ranked,
    signature_map, signature_parses, signature_powers, sig_order_upto, sig_rank, sorted_entries, DimMap,
};
use crate::ordered::{entries_map, keys_sorted};
use crate::scalar::{scalar_parse, scalar_text, ScalarModel};
use crate::text::{find_seq, digit_char, digit_value, digits_value, find_char, int_text, is_digit, nat_text, parse_int, parse_nat, rat_text, rfind_char, split_on};
use vstd::prelude::*;

verus! {

/// A decimal digit reads back as itself.
proof fn lemma_digit(d: nat)
    requires
        d < 10,
    ensures
        is_digit(digit_char(d)),
        digit_value(digit_char(d)) == d,
{
}

/// The digits of a natural number are digits and read back as it.
#[verifier::spinoff_prover]
proof fn lemma_nat_text(n: nat)
    ensures
        nat_text(n).len() >= 1,
        forall|i: int| 0 <= i < nat_text(n).len() ==> is_digit(#[trigger] nat_text(n)[i]),
        digits_value(nat_text(n)) == n,
    decreases n,
{
    if n < 10 {
        lemma_digit(n);
        assert(nat_text(n).drop_last() =~= Seq::<char>::empty());
        assert(nat_text(n).last() == digit_char(n));
        assert(digit_char(n) != '_');
        assert(digits_value(nat_text(n)) == digits_value(Seq::<char>::empty()) * 10 + digit_value(digit_char(n)));
    } else {
        lemma_nat_text(n / 10);
        lemma_digit(n % 10);
        let t = nat_text(n);
        assert(t.drop_last() =~= nat_text(n / 10));
        assert(t.last() == digit_char(n % 10));
        assert(digit_char(n % 10) != '_');
        assert(digits_value(t) == digits_value(nat_text(n / 10)) * 10 + digit_value(digit_char(n % 10)));
        assert((n / 10) * 10 + n % 10 == n);
        assert forall|i: int| 0 <= i < t.len() implies is_digit(#[trigger] t[i]) by {
            if i < t.len() - 1 {
                assert(t[i] == nat_text(n / 10)[i]);
            }
        }
    }
}

/// Decimal text reads back as the integer it was written from.
#[verifier::spinoff_prover]
pub proof fn lemma_int_text(n: int)
    ensures
        parse_int(int_text(n)) == Some(n),
        forall|i: int| 0 <= i < int_text(n).len() ==> is_digit(#[trigger] int_text(n)[i]) || int_text(n)[i] == '-',
{
    if n < 0 {
        let m = (-n) as nat;
        lemma_nat_text(m);
        let s = int_text(n);
        assert(s.drop_first() =~= nat_text(m));
        assert(is_digit(nat_text(m)[0]));
        assert(s[1] == nat_text(m)[0]);
        assert forall|i: int| 0 <= i < s.len() implies is_digit(#[trigger] s[i]) || s[i] == '-' by {
            if i > 0 {
                assert(s[i] == nat_text(m)[i - 1]);
            }
        }
        assert(parse_nat(nat_text(m)) == Some(m));
    } else {
        lemma_nat_text(n as nat);
        assert(is_digit(nat_text(n as nat)[0]));
    }
}

/// The first `c` of `a + [c] + b`, where `a` has none, is right after `a`.
pub proof fn lemma_find_after(a: Seq<char>, c: char, b: Seq<char>)
    requires
        forall|i: int| 0 <= i < a.len() ==> a[i] != c,
    ensures
        find_char(a + seq![c] + b, c) == Some(a.len() as int),
    decreases a.len(),
{
    let s = a + seq![c] + b;
    if a.len() > 0 {
        lemma_find_after(a.drop_first(), c, b);
        assert(s.drop_first() =~= a.drop_first() + seq![c] + b);
        assert(s[0] == a[0]);
    }
}

/// No `c` in a text: `find_char` finds none.
proof fn lemma_find_none(a: Seq<char>, c: char)
    requires
        forall|i: int| 0 <= i < a.len() ==> a[i] != c,
    ensures
        find_char(a, c) is None,
    decreases a.len(),
{
    if a.len() > 0 {
        lemma_find_none(a.drop_first(), c);
    }
}

/// The last `c` of `a + [c] + b`, where `b` has none, is right after `a`.
proof fn lemma_rfind_before(a: Seq<char>, c: char, b: Seq<char>)
    requires
        forall|i: int| 0 <= i < b.len() ==> b[i] != c,
    ensures
        rfind_char(a + seq![c] + b, c) == Some(a.len() as int),
    decreases b.len(),
{
    let s = a + seq![c] + b;
    if b.len() > 0 {
        lemma_rfind_before(a, c, b.drop_last());
        assert(s.drop_last() =~= a + seq![c] + b.drop_last());
    } else {
        assert(s =~= a.push(c));
    }
}

/// A fraction's text reads back as the fraction.
#[verifier::spinoff_prover]
pub proof fn lemma_rat_text(p: (int, int))
    requires
        canonical(p),
    ensures
        parse_ratio(rat_text(p)) == Some(p),
        forall|i: int| 0 <= i < rat_text(p).len() ==> #[trigger] rat_text(p)[i] != ':' && rat_text(p)[i] != ','
            && rat_text(p)[i] != '*',
{
    lemma_int_text(p.0);
    lemma_int_text(p.1);
    let a = int_text(p.0);
    let b = int_text(p.1);
    assert forall|i: int| 0 <= i < a.len() implies a[i] != '/' && a[i] != ':' && a[i] != ',' && a[i] != '*' by {
        assert(is_digit(a[i]) || a[i] == '-');
    }
    assert forall|i: int| 0 <= i < b.len() implies b[i] != '/' && b[i] != ':' && b[i] != ',' && b[i] != '*' by {
        assert(is_digit(b[i]) || b[i] == '-');
    }
    lemma_rat_of_canonical(p, p.0, p.1);
    if p.1 == 1 {
        lemma_find_none(a, '/');
    } else {
        reveal_strlit("/");
        let s = rat_text(p);
        assert(s =~= a + seq!['/'] + b);
        lemma_find_after(a, '/', b);
        assert(s.subrange(0, a.len() as int) =~= a);
        assert(s.subrange(a.len() as int + 1, s.len() as int) =~= b);
        assert forall|i: int| 0 <= i < s.len() implies #[trigger] s[i] != ':' && s[i] != ',' && s[i] != '*' by {
            if i < a.len() {
                assert(s[i] == a[i]);
            } else if i > a.len() {
                assert(s[i] == b[i - a.len() - 1]);
            }
        }
    }
}

} // verus!

verus! {

/// A text without commas is one piece.
pub proof fn lemma_split_single(y: Seq<char>)
    requires
        forall|i: int| 0 <= i < y.len() ==> y[i] != ',',
    ensures
        split_on(y, ',') == seq![y],
    decreases y.len(),
{
    if y.len() > 0 {
        lemma_split_single(y.drop_last());
        assert(y.drop_last().push(y.last()) =~= y);
        assert(seq![y.drop_last()].update(0, y.drop_last().push(y.last())) =~= seq![y]);
    } else {
        assert(y =~= Seq::<char>::empty());
    }
}

/// A comma and a text without commas add one piece.
pub proof fn lemma_split_append(x: Seq<char>, y: Seq<char>)
    requires
        forall|i: int| 0 <= i < y.len() ==> y[i] != ',',
    ensures
        split_on(x + seq![','] + y, ',') == split_on(x, ',').push(y),
    decreases y.len(),
{
    let s = x + seq![','] + y;
    if y.len() > 0 {
        lemma_split_append(x, y.drop_last());
        assert(s.drop_last() =~= x + seq![','] + y.drop_last());
        assert(s.last() == y.last());
        crate::text::lemma_split_nonempty(x, ',');
        let p = split_on(x, ',').push(y.drop_last());
        assert(p.update(p.len() - 1, p.last().push(y.last())) =~= split_on(x, ',').push(y)) by {
            assert(y.drop_last().push(y.last()) =~= y);
        }
    } else {
        assert(s.drop_last() =~= x);
        assert(y =~= Seq::<char>::empty());
    }
}

/// Entry texts joined by commas split back into the entry texts.
#[verifier::spinoff_prover]
proof fn lemma_split_joined(s: Seq<(Seq<char>, (int, int))>)
    requires
        s.len() >= 1,
        forall|i: int, j: int| 0 <= i < s.len() && 0 <= j < entry_text(s[i]).len() ==> #[trigger] entry_text(s[i])[j] != ',',
    ensures
        split_on(joined(s), ',') == s.map_values(|e: (Seq<char>, (int, int))| entry_text(e)),
    decreases s.len(),
{
    if s.len() == 1 {
        lemma_split_single(entry_text(s[0]));
        assert(s.map_values(|e: (Seq<char>, (int, int))| entry_text(e)) =~= seq![entry_text(s[0])]);
    } else {
        let t = s.drop_last();
        assert forall|i: int, j: int| 0 <= i < t.len() && 0 <= j < entry_text(t[i]).len() implies #[trigger] entry_text(t[i])[j] != ',' by {
            assert(t[i] == s[i]);
        }
        lemma_split_joined(t);
        reveal_strlit(",");
        assert(joined(s) =~= joined(t) + seq![','] + entry_text(s.last()));
        assert forall|j: int| 0 <= j < entry_text(s.last()).len() implies entry_text(s.last())[j] != ',' by {
            assert(entry_text(s[s.len() - 1])[j] != ',');
        }
        lemma_split_append(joined(t), entry_text(s.last()));
        assert(s.map_values(|e: (Seq<char>, (int, int))| entry_text(e)) =~= t.map_values(|e: (Seq<char>, (int, int))| entry_text(e)).push(entry_text(s.last())));
    }
}

/// An entry's text reads back as the entry.
#[verifier::spinoff_prover]
proof fn lemma_part_entry(e: (Seq<char>, (int, int)))
    requires
        canonical(e.1),
    ensures
        part_power(entry_text(e)) == Some(e),
        entry_text(e).len() >= 2,
        forall|j: int| 0 <= j < entry_text(e).len() && !e.0.contains(#[trigger] entry_text(e)[j]) ==> entry_text(e)[j] != ',',
{
    lemma_rat_text(e.1);
    reveal_strlit(":");
    let r = rat_text(e.1);
    let t = entry_text(e);
    assert(t =~= e.0 + seq![':'] + r);
    lemma_rfind_before(e.0, ':', r);
    assert(t.take(e.0.len() as int) =~= e.0);
    assert(t.skip(e.0.len() as int + 1) =~= r);
    lemma_int_text(e.1.0);
    assert(r.len() >= 1) by {
        if e.1.1 == 1 {
            assert(r == int_text(e.1.0));
        } else {
            assert(r =~= int_text(e.1.0) + "/"@ + int_text(e.1.1));
        }
        assert(int_text(e.1.0).len() >= 1) by {
            if e.1.0 < 0 {
            } else {
                lemma_nat_len(e.1.0 as nat);
            }
        }
    }
    assert forall|j: int| 0 <= j < t.len() && !e.0.contains(#[trigger] t[j]) implies t[j] != ',' by {
        if j < e.0.len() {
            assert(e.0.contains(e.0[j]));
            assert(t[j] == e.0[j]);
        } else if j > e.0.len() {
            assert(t[j] == r[j - e.0.len() - 1]);
        }
    }
}

proof fn lemma_nat_len(n: nat)
    ensures
        nat_text(n).len() >= 1,
{
    lemma_nat_text(n);
}

} // verus!

verus! {

/// No identifier occurs twice.
pub open spec fn distinct_keys(s: Seq<(Seq<char>, (int, int))>) -> bool {
    forall|i: int, j: int| 0 <= i < s.len() && 0 <= j < s.len() && i != j ==> #[trigger] s[i].0 != #[trigger] s[j].0
}

/// Entries that are well formed: canonical identifiers and nonzero
/// exponents in lowest terms.
pub open spec fn entries_well_formed(s: Seq<(Seq<char>, (int, int))>) -> bool {
    forall|i: int|
        0 <= i < s.len() ==> canonical((#[trigger] s[i]).1) && s[i].1.0 != 0 && canonical_id(s[i].0) == s[i].0
}

/// Entries with distinct identifiers and the same members denote one map.
#[verifier::spinoff_prover]
proof fn lemma_same_members(a: Seq<(Seq<char>, (int, int))>, b: Seq<(Seq<char>, (int, int))>)
    requires
        distinct_keys(a),
        distinct_keys(b),
        forall|x: (Seq<char>, (int, int))| a.contains(x) <==> b.contains(x),
    ensures
        entries_map(a) == entries_map(b),
{
    assert forall|k: Seq<char>| #[trigger] entries_map(a).contains_key(k) <==> entries_map(b).contains_key(k) by {
        if exists|i: int| 0 <= i < a.len() && a[i].0 == k {
            let i = choose|i: int| 0 <= i < a.len() && a[i].0 == k;
            assert(a.contains(a[i]));
            let j = choose|j: int| 0 <= j < b.len() && b[j] == a[i];
            assert(b[j].0 == k);
        }
        if exists|i: int| 0 <= i < b.len() && b[i].0 == k {
            let i = choose|i: int| 0 <= i < b.len() && b[i].0 == k;
            assert(b.contains(b[i]));
            let j = choose|j: int| 0 <= j < a.len() && a[j] == b[i];
            assert(a[j].0 == k);
        }
    }
    assert forall|k: Seq<char>| #[trigger] entries_map(a).contains_key(k) implies entries_map(a)[k] == entries_map(b)[k] by {
        let i = choose|i: int| 0 <= i < a.len() && a[i].0 == k;
        let j = choose|j: int| 0 <= j < b.len() && b[j].0 == k;
        assert(a.contains(a[i]));
        let j2 = choose|j2: int| 0 <= j2 < b.len() && b[j2] == a[i];
        assert(b[j2].0 == k);
        if j2 != j {
            assert(b[j2].0 != b[j].0);
        }
    }
    assert(entries_map(a) =~= entries_map(b));
}

/// The entries of one rank keep distinct identifiers and are the members of
/// that rank.
#[verifier::spinoff_prover]
proof fn lemma_ranked(s: Seq<(Seq<char>, (int, int))>, r: nat)
    requires
        distinct_keys(s),
    ensures
        distinct_keys(ranked(s, r)),
        forall|x: (Seq<char>, (int, int))| #[trigger] ranked(s, r).contains(x) <==> (s.contains(x) && sig_rank(x.0) == r),
    decreases s.len(),
{
    if s.len() > 0 {
        let t = s.drop_last();
        assert(distinct_keys(t)) by {
            assert forall|i: int, j: int| 0 <= i < t.len() && 0 <= j < t.len() && i != j implies #[trigger] t[i].0 != #[trigger] t[j].0 by {
                assert(s[i].0 != s[j].0);
            }
        }
        lemma_ranked(t, r);
        let o = ranked(s, r);
        assert forall|x: (Seq<char>, (int, int))| #[trigger] o.contains(x) <==> (s.contains(x) && sig_rank(x.0) == r) by {
            if o.contains(x) {
                let i = choose|i: int| 0 <= i < o.len() && o[i] == x;
                if i < ranked(t, r).len() {
                    assert(ranked(t, r).contains(x));
                    let j = choose|j: int| 0 <= j < t.len() && t[j] == x;
                    assert(s[j] == x);
                } else {
                    assert(s[s.len() - 1] == x);
                }
            }
            if s.contains(x) && sig_rank(x.0) == r {
                let i = choose|i: int| 0 <= i < s.len() && s[i] == x;
                if i < s.len() - 1 {
                    assert(t[i] == x);
                    assert(t.contains(x));
                    assert(ranked(t, r).contains(x));
                    let j = choose|j: int| 0 <= j < ranked(t, r).len() && ranked(t, r)[j] == x;
                    assert(o[j] == x);
                } else {
                    assert(o[o.len() - 1] == x);
                }
            }
        }
        if sig_rank(s.last().0) == r {
            assert forall|i: int, j: int| 0 <= i < o.len() && 0 <= j < o.len() && i != j implies #[trigger] o[i].0 != #[trigger] o[j].0 by {
                let n = o.len() - 1;
                if i == n || j == n {
                    let other = if i == n { j } else { i };
                    assert(ranked(t, r).contains(o[other]));
                    let k = choose|k: int| 0 <= k < t.len() && t[k] == o[other];
                    assert(s[k].0 != s[s.len() - 1].0);
                } else {
                    assert(o[i] == ranked(t, r)[i] && o[j] == ranked(t, r)[j]);
                }
            }
        }
    }
}

/// The entries of the ranks below `r`, rank by rank, keep distinct
/// identifiers and are the members of those ranks.
#[verifier::spinoff_prover]
proof fn lemma_sig_order(s: Seq<(Seq<char>, (int, int))>, r: nat)
    requires
        distinct_keys(s),
    ensures
        distinct_keys(sig_order_upto(s, r)),
        forall|x: (Seq<char>, (int, int))| #[trigger] sig_order_upto(s, r).contains(x) <==> (s.contains(x) && sig_rank(x.0) < r),
    decreases r,
{
    if r > 0 {
        let m = (r - 1) as nat;
        lemma_sig_order(s, m);
        lemma_ranked(s, m);
        let a = sig_order_upto(s, m);
        let b = ranked(s, m);
        let c = sig_order_upto(s, r);
        assert(c == a + b);
        assert forall|x: (Seq<char>, (int, int))| #[trigger] c.contains(x) <==> (s.contains(x) && sig_rank(x.0) < r) by {
            if c.contains(x) {
                let i = choose|i: int| 0 <= i < c.len() && c[i] == x;
                if i < a.len() {
                    assert(a.contains(x));
                } else {
                    assert(b[i - a.len()] == x);
                    assert(b.contains(x));
                }
            }
            if s.contains(x) && sig_rank(x.0) < r {
                if sig_rank(x.0) < m {
                    assert(a.contains(x));
                    let i = choose|i: int| 0 <= i < a.len() && a[i] == x;
                    assert(c[i] == x);
                } else {
                    assert(b.contains(x));
                    let i = choose|i: int| 0 <= i < b.len() && b[i] == x;
                    assert(c[a.len() + i] == x);
                }
            }
        }
        assert forall|i: int, j: int| 0 <= i < c.len() && 0 <= j < c.len() && i != j implies #[trigger] c[i].0 != #[trigger] c[j].0 by {
            if i < a.len() && j < a.len() {
                assert(c[i] == a[i] && c[j] == a[j]);
            } else if i >= a.len() && j >= a.len() {
                assert(c[i] == b[i - a.len()] && c[j] == b[j - a.len()]);
            } else {
                let (p, q) = if i < a.len() { (i, j) } else { (j, i) };
                assert(c[p] == a[p]);
                assert(a.contains(a[p]));
                assert(sig_rank(a[p].0) < m);
                assert(c[q] == b[q - a.len()]);
                assert(b.contains(b[q - a.len()]));
                assert(sig_rank(b[q - a.len()].0) == m);
            }
        }
    }
}

} // verus!

verus! {

/// The parts written for well-formed entries with distinct identifiers
/// read back as the map the entries denote.
#[verifier::spinoff_prover]
proof fn lemma_parts_map(s: Seq<(Seq<char>, (int, int))>)
    requires
        distinct_keys(s),
        entries_well_formed(s),
    ensures
        parts_map(s.map_values(|e: (Seq<char>, (int, int))| entry_text(e))) == entries_map(s),
    decreases s.len(),
{
    let parts = s.map_values(|e: (Seq<char>, (int, int))| entry_text(e));
    if s.len() == 0 {
        assert(entries_map(s) =~= DimMap::empty());
    } else {
        let t = s.drop_last();
        assert(distinct_keys(t)) by {
            assert forall|i: int, j: int| 0 <= i < t.len() && 0 <= j < t.len() && i != j implies #[trigger] t[i].0 != #[trigger] t[j].0 by {
                assert(s[i].0 != s[j].0);
            }
        }
        assert(entries_well_formed(t)) by {
            assert forall|i: int| 0 <= i < t.len() implies canonical((#[trigger] t[i]).1) && t[i].1.0 != 0 && canonical_id(t[i].0) == t[i].0 by {
                assert(t[i] == s[i]);
            }
        }
        lemma_parts_map(t);
        assert(parts.drop_last() =~= t.map_values(|e: (Seq<char>, (int, int))| entry_text(e)));
        let e = s.last();
        assert(e == s[s.len() - 1]);
        lemma_part_entry(e);
        assert(parts.last() == entry_text(e));
        let k = e.0;
        let v = e.1;
        assert(canonical_id(k) == k);
        let before = entries_map(t);
        assert(!before.contains_key(k)) by {
            if before.contains_key(k) {
                let i = choose|i: int| 0 <= i < t.len() && t[i].0 == k;
                assert(s[i].0 != s[s.len() - 1].0);
            }
        }
        assert(power_in(before, k) == rat_zero());
        lemma_add_zero(v);
        assert(parts_map(parts) == dims_insert(before, k, v));
        assert(dims_insert(before, k, v) == before.insert(k, v));
        assert forall|x: Seq<char>| #[trigger] entries_map(s).contains_key(x) <==> before.insert(k, v).contains_key(x) by {
            if exists|i: int| 0 <= i < s.len() && s[i].0 == x {
                let i = choose|i: int| 0 <= i < s.len() && s[i].0 == x;
                if i < s.len() - 1 {
                    assert(t[i].0 == x);
                }
            }
            if exists|i: int| 0 <= i < t.len() && t[i].0 == x {
                let i = choose|i: int| 0 <= i < t.len() && t[i].0 == x;
                assert(s[i].0 == x);
            }
            if x == k {
                assert(s[s.len() - 1].0 == x);
            }
        }
        assert forall|x: Seq<char>| #[trigger] entries_map(s).contains_key(x) implies entries_map(s)[x] == before.insert(k, v)[x] by {
            let i = choose|i: int| 0 <= i < s.len() && s[i].0 == x;
            if x == k {
                if i != s.len() - 1 {
                    assert(s[i].0 != s[s.len() - 1].0);
                }
            } else {
                assert(i < s.len() - 1);
                let j = choose|j: int| 0 <= j < t.len() && t[j].0 == x;
                if i != j {
                    assert(s[i].0 != s[j].0);
                }
                assert(t[j] == s[j]);
            }
        }
        assert(entries_map(s) =~= before.insert(k, v));
    }
}

/// A signature reads back as the dimensions it was written from: for
/// well-formed dimensions whose identifiers hold no comma (identifiers
/// with a comma would split), `parse_signature(signature(d))` succeeds and
/// gives `d`.
#[verifier::spinoff_prover]
pub proof fn law_signature_round_trip(m: DimMap)
    requires
        dims_ok(m),
        exists|s: Seq<(Seq<char>, (int, int))>| keys_sorted(s) && #[trigger] entries_map(s) == m,
        forall|k: Seq<char>| #[trigger] m.contains_key(k) ==> !k.contains(','),
    ensures
        signature_parses(dims_signature(m)),
        signature_map(dims_signature(m)) == m,
{
    reveal_strlit("1");
    let sorted = sorted_entries(m);
    assert(keys_sorted(sorted) && entries_map(sorted) == m);
    assert(distinct_keys(sorted)) by {
        assert forall|i: int, j: int| 0 <= i < sorted.len() && 0 <= j < sorted.len() && i != j implies #[trigger] sorted[i].0 != #[trigger] sorted[j].0 by {
            if i < j {
                crate::ordered::lemma_lt_asymmetric(sorted[i].0, sorted[j].0);
            } else {
                crate::ordered::lemma_lt_asymmetric(sorted[j].0, sorted[i].0);
            }
        }
    }
    let order = signature_powers(m);
    lemma_sig_order(sorted, 8);
    assert forall|x: (Seq<char>, (int, int))| order.contains(x) <==> sorted.contains(x) by {
        assert(sig_rank(x.0) < 8);
    }
    lemma_same_members(order, sorted);
    assert forall|i: int| 0 <= i < sorted.len() implies canonical((#[trigger] sorted[i]).1) && sorted[i].1.0 != 0
        && canonical_id(sorted[i].0) == sorted[i].0 && !sorted[i].0.contains(',') by {
        crate::ordered::lemma_entry_in_map(sorted, i);
    }
    assert(entries_well_formed(order)) by {
        assert forall|i: int| 0 <= i < order.len() implies canonical((#[trigger] order[i]).1) && order[i].1.0 != 0
            && canonical_id(order[i].0) == order[i].0 by {
            assert(order.contains(order[i]));
            let j = choose|j: int| 0 <= j < sorted.len() && sorted[j] == order[i];
            assert(sorted[j] == order[i]);
        }
    }
    if m.dom() == Set::<Seq<char>>::empty() {
        assert(dims_signature(m) == "1"@);
        assert(m =~= DimMap::empty());
    } else {
        assert(exists|k: Seq<char>| m.dom().contains(k)) by {
            if !(exists|k: Seq<char>| m.dom().contains(k)) {
                assert(m.dom() =~= Set::<Seq<char>>::empty());
            }
        }
        let k0 = choose|k: Seq<char>| m.dom().contains(k);
        assert(m.contains_key(k0));
        let i0 = crate::ordered::lemma_map_key_index(sorted, k0);
        assert(order.contains(sorted[i0]));
        assert(order.len() >= 1);
        assert forall|i: int, j: int| 0 <= i < order.len() && 0 <= j < entry_text(order[i]).len() implies #[trigger] entry_text(order[i])[j] != ',' by {
            assert(order.contains(order[i]));
            let p = choose|p: int| 0 <= p < sorted.len() && sorted[p] == order[i];
            assert(!sorted[p].0.contains(','));
            lemma_part_entry(order[i]);
            if order[i].0.contains(entry_text(order[i])[j]) {
                if entry_text(order[i])[j] == ',' {
                    assert(order[i].0.contains(','));
                }
            }
        }
        lemma_split_joined(order);
        let text = dims_signature(m);
        assert(text == joined(order));
        lemma_joined_len(order);
        assert(text != "1"@);
        let parts = split_on(text, ',');
        assert(parts == order.map_values(|e: (Seq<char>, (int, int))| entry_text(e)));
        assert forall|i: int| 0 <= i < parts.len() implies (#[trigger] part_power(parts[i])) is Some by {
            lemma_part_entry(order[i]);
        }
        lemma_parts_map(order);
    }
}

/// Joined entry texts are longer than one character.
proof fn lemma_joined_len(s: Seq<(Seq<char>, (int, int))>)
    requires
        s.len() >= 1,
        entries_well_formed(s),
    ensures
        joined(s).len() >= 2,
    decreases s.len(),
{
    lemma_part_entry(s.last());
    assert(s.last() == s[s.len() - 1]);
    if s.len() > 1 {
        let t = s.drop_last();
        assert(entries_well_formed(t)) by {
            assert forall|i: int| 0 <= i < t.len() implies canonical((#[trigger] t[i]).1) && t[i].1.0 != 0 && canonical_id(t[i].0) == t[i].0 by {
                assert(t[i] == s[i]);
            }
        }
        lemma_joined_len(t);
    } else {
        lemma_part_entry(s[0]);
    }
}

} // verus!

verus! {

/// A text without `*` holds no `*pi^`.
proof fn lemma_no_marker(s: Seq<char>)
    requires
        forall|i: int| 0 <= i < s.len() ==> s[i] != '*',
    ensures
        find_seq(s, "*pi^"@) is None,
    decreases s.len(),
{
    reveal_strlit("*pi^");
    let p = "*pi^"@;
    assert(p.len() == 4 && p[0] == '*');
    if s.len() >= p.len() {
        assert(s.take(4)[0] == s[0]);
        assert(s.take(4) != p);
        lemma_no_marker(s.drop_first());
    }
}

/// After a text without `*`, the first `*pi^` is where it is put.
proof fn lemma_marker_after(a: Seq<char>, e: Seq<char>)
    requires
        forall|i: int| 0 <= i < a.len() ==> a[i] != '*',
    ensures
        find_seq(a + "*pi^"@ + e, "*pi^"@) == Some(a.len() as int),
    decreases a.len(),
{
    reveal_strlit("*pi^");
    let p = "*pi^"@;
    let s = a + p + e;
    assert(p.len() == 4 && p[0] == '*');
    if a.len() == 0 {
        assert(s.take(4) =~= p);
    } else {
        assert(s[0] == a[0]);
        assert(s.take(4)[0] == s[0]);
        assert(s.take(4) != p);
        assert(s.drop_first() =~= a.drop_first() + p + e);
        lemma_marker_after(a.drop_first(), e);
    }
}

/// An exact scalar's text reads back as the scalar: `parse(encoded(s))`
/// gives `s` back, for every scalar (whose coefficient is always in lowest
/// terms).
#[verifier::spinoff_prover]
pub proof fn law_scalar_text_round_trip(a: ScalarModel)
    requires
        canonical(a.0),
    ensures
        scalar_parse(scalar_text(a)) == Ok::<ScalarModel, bool>(a),
{
    reveal_strlit("*pi^");
    lemma_rat_text(a.0);
    let r = rat_text(a.0);
    assert forall|i: int| 0 <= i < r.len() implies r[i] != '*' by {
        assert(r[i] != ':');
    }
    if a.1 == 0 {
        lemma_no_marker(r);
    } else {
        lemma_int_text(a.1);
        let e = int_text(a.1);
        let t = scalar_text(a);
        assert(t == r + "*pi^"@ + e);
        lemma_marker_after(r, e);
        assert("*pi^"@.len() == 4);
        assert(t.skip(r.len() as int + 4) =~= e);
        assert(t.take(r.len() as int) =~= r);
    }
}

} // verus!
