//! Dimension maps with arbitrary-precision integer exponents, kept in
//! insertion order. Arithmetic keeps that order; canonical signatures use the
//! SI base-dimension order.
use crate::bignum::{integer_add, integer_clone, integer_eq, integer_is_zero, integer_mul, integer_neg, integer_text, Integer};
use crate::error::texts;
use crate::strings::{chars_of, string_from_chars, string_push_str};
use crate::text::{find_char, int_text, parse_int, seq_lt, split_on};
use crate::dimension::{canonical_id, sig_rank};
use crate::strings::str_eq;
use indexmap::IndexMap;
use num_bigint::BigInt;
use vstd::prelude::*;

verus! {

#[verifier::external_type_specification]
#[verifier::external_body]
#[verifier::reject_recursive_types(K)]
#[verifier::reject_recursive_types(V)]
#[verifier::reject_recursive_types(S)]
pub struct ExIndexMap<K, V, S>(IndexMap<K, V, S>);

/// A dimension map with arbitrary-precision integer exponents.
pub type Dimensions = IndexMap<String, BigInt>;

/// The entries of a map, in its order: identifiers and exponents.
pub uninterp spec fn dimension_entries(m: IndexMap<String, BigInt>) -> Seq<(Seq<char>, int)>;

/// No identifier occurs twice.
pub open spec fn keys_distinct(s: Seq<(Seq<char>, int)>) -> bool {
    forall|i: int, j: int| 0 <= i < j < s.len() ==> #[trigger] s[i].0 != #[trigger] s[j].0
}

/// Where identifier `k` stands.
pub open spec fn key_index(s: Seq<(Seq<char>, int)>, k: Seq<char>) -> Option<int>
    decreases s.len(),
{
    if s.len() == 0 {
        None
    } else {
        match key_index(s.drop_last(), k) {
            Some(i) => Some(i),
            None => if s.last().0 == k {
                Some(s.len() - 1)
            } else {
                None
            },
        }
    }
}

/// `IndexMap::insert`: a present identifier keeps its place and takes the
/// new exponent; a new one goes last.
pub open spec fn put(s: Seq<(Seq<char>, int)>, k: Seq<char>, v: int) -> Seq<(Seq<char>, int)> {
    match key_index(s, k) {
        Some(i) => s.update(i, (k, v)),
        None => s.push((k, v)),
    }
}

/// Adding `v` to the exponent of `k`, which goes last where it is new.
pub open spec fn add_to(s: Seq<(Seq<char>, int)>, k: Seq<char>, v: int) -> Seq<(Seq<char>, int)> {
    match key_index(s, k) {
        Some(i) => s.update(i, (k, s[i].1 + v)),
        None => s.push((k, v)),
    }
}

/// The entries with nonzero exponents, in their order.
pub open spec fn nonzero(s: Seq<(Seq<char>, int)>) -> Seq<(Seq<char>, int)>
    decreases s.len(),
{
    if s.len() == 0 {
        Seq::empty()
    } else if s.last().1 != 0 {
        nonzero(s.drop_last()).push(s.last())
    } else {
        nonzero(s.drop_last())
    }
}

/// `IndexMap::new`: no entries.
#[verifier::external_body]
fn empty_dimensions() -> (r: Dimensions)
    ensures
        dimension_entries(r) == Seq::<(Seq<char>, int)>::empty(),
{
    IndexMap::new()
}

/// `IndexMap::len`: the number of entries.
#[verifier::external_body]
fn entry_count(m: &Dimensions) -> (r: usize)
    ensures
        r == dimension_entries(*m).len(),
{
    m.len()
}

/// `IndexMap::get_index` on a position that holds an entry: a copy of it.
/// A map holds each key once, so no other entry has its key.
#[verifier::external_body]
fn entry_at(m: &Dimensions, i: usize) -> (r: (String, Integer))
    requires
        i < dimension_entries(*m).len(),
    ensures
        r.0@ == dimension_entries(*m)[i as int].0,
        r.1@ == dimension_entries(*m)[i as int].1,
        forall|j: int| 0 <= j < dimension_entries(*m).len() && j != i ==> dimension_entries(*m)[j].0 != r.0@,
{
    let (key, value) = m.get_index(i).unwrap();
    (key.clone(), Integer { value: value.clone(), model: Ghost(dimension_entries(*m)[i as int].1) })
}

/// `IndexMap::insert`.
#[verifier::external_body]
fn put_entry(m: &mut Dimensions, key: String, value: Integer)
    ensures
        dimension_entries(*final(m)) == put(dimension_entries(*old(m)), key@, value@),
{
    m.insert(key, value.value);
}

/// The entries of a vector as identifiers and exponents.
pub open spec fn entry_view(v: Seq<(String, Integer)>) -> Seq<(Seq<char>, int)> {
    v.map_values(|e: (String, Integer)| (e.0@, e.1@))
}

/// The entries of a map, copied out.
fn entries_of(m: &Dimensions) -> (r: Vec<(String, Integer)>)
    ensures
        entry_view(r@) == dimension_entries(*m),
        keys_distinct(dimension_entries(*m)),
{
    let n = entry_count(m);
    let mut r: Vec<(String, Integer)> = Vec::new();
    let ghost s = dimension_entries(*m);
    for i in 0..n
        invariant
            n == s.len(),
            s == dimension_entries(*m),
            r.len() == i,
            forall|j: int| 0 <= j < i ==> #[trigger] entry_view(r@)[j] == s[j],
            forall|a: int, b: int| 0 <= a < i && 0 <= b < n && a != b ==> #[trigger] s[a].0 != #[trigger] s[b].0,
    {
        let ghost before = r@;
        r.push(entry_at(m, i));
        proof {
            assert forall|j: int| 0 <= j < i + 1 implies #[trigger] entry_view(r@)[j] == s[j] by {
                if j < i {
                    assert(r@[j] == before[j]);
                    assert(entry_view(before)[j] == s[j]);
                }
            }
            assert forall|a: int, b: int| 0 <= a < i + 1 && 0 <= b < n && a != b implies #[trigger] s[a].0 != #[trigger] s[b].0 by {
                if a == i {
                    assert(s[b].0 != r@[i as int].0@);
                }
            }
        }
    }
    assert(entry_view(r@) =~= s);
    r
}

/// Putting an identifier that is not there adds it last.
pub proof fn lemma_key_index(s: Seq<(Seq<char>, int)>, k: Seq<char>)
    ensures
        key_index(s, k) matches Some(i) ==> 0 <= i < s.len() && s[i].0 == k && forall|j: int| 0 <= j < i ==> s[j].0 != k,
        key_index(s, k) is None ==> forall|j: int| 0 <= j < s.len() ==> s[j].0 != k,
    decreases s.len(),
{
    if s.len() > 0 {
        let t = s.drop_last();
        lemma_key_index(t, k);
        assert forall|j: int| 0 <= j < t.len() implies t[j] == s[j] by {}
    }
}

/// A map built from entries with distinct identifiers, in their order.
fn from_entries(v: &Vec<(String, Integer)>) -> (m: Dimensions)
    requires
        keys_distinct(entry_view(v@)),
    ensures
        dimension_entries(m) == entry_view(v@),
{
    let mut m = empty_dimensions();
    for i in 0..v.len()
        invariant
            keys_distinct(entry_view(v@)),
            dimension_entries(m) == entry_view(v@).take(i as int),
    {
        let ghost before = dimension_entries(m);
        proof {
            lemma_key_index(before, v@[i as int].0@);
            assert forall|j: int| 0 <= j < before.len() implies before[j].0 != v@[i as int].0@ by {
                assert(before[j] == entry_view(v@)[j]);
                assert(entry_view(v@)[i as int].0 == v@[i as int].0@);
            }
        }
        put_entry(&mut m, v[i].0.clone(), integer_clone(&v[i].1));
        assert(dimension_entries(m) =~= entry_view(v@).take(i + 1));
    }
    assert(entry_view(v@).take(v.len() as int) =~= entry_view(v@));
    m
}

} // verus!

verus! {

/// The first place of an identifier stays where a longer sequence has it.
proof fn lemma_key_index_prefix(s: Seq<(Seq<char>, int)>, k: Seq<char>, m: int)
    requires
        0 <= m <= s.len(),
        key_index(s.take(m), k) is Some,
    ensures
        key_index(s, k) == key_index(s.take(m), k),
    decreases s.len() - m,
{
    if m < s.len() {
        assert(s.take(m + 1).drop_last() =~= s.take(m));
        lemma_key_index_prefix(s, k, m + 1);
    } else {
        assert(s.take(m) =~= s);
    }
}

/// Where an identifier stands among the entries.
fn find_key(v: &Vec<(String, Integer)>, k: &str) -> (r: Option<usize>)
    ensures
        r matches Some(i) ==> key_index(entry_view(v@), k@) == Some(i as int),
        r is None ==> key_index(entry_view(v@), k@) is None,
{
    let ghost s = entry_view(v@);
    for i in 0..v.len()
        invariant
            s == entry_view(v@),
            key_index(s.take(i as int), k@) is None,
    {
        assert(s.take(i + 1).drop_last() =~= s.take(i as int));
        assert(s[i as int].0 == v@[i as int].0@);
        if str_eq(v[i].0.as_str(), k) {
            proof {
                lemma_key_index_prefix(s, k@, i + 1);
            }
            return Some(i);
        }
    }
    assert(s.take(v.len() as int) =~= s);
    None
}

/// Adds `e` to the exponent of `k`, which goes last where it is new.
fn add_entry(v: &mut Vec<(String, Integer)>, k: String, e: Integer)
    ensures
        entry_view(final(v)@) == add_to(entry_view(old(v)@), k@, e@),
{
    let ghost s = entry_view(v@);
    match find_key(v, k.as_str()) {
        Some(i) => {
            proof {
                lemma_key_index(s, k@);
            }
            let total = integer_add(&v[i].1, &e);
            v.set(i, (k, total));
            assert(entry_view(v@) =~= s.update(i as int, (k@, s[i as int].1 + e@)));
        },
        None => {
            v.push((k, e));
            assert(entry_view(v@) =~= s.push((k@, e@)));
        },
    }
}

/// The entries with nonzero exponents.
fn nonzero_entries(v: &Vec<(String, Integer)>) -> (r: Vec<(String, Integer)>)
    ensures
        entry_view(r@) == nonzero(entry_view(v@)),
{
    let ghost s = entry_view(v@);
    let mut r: Vec<(String, Integer)> = Vec::new();
    for i in 0..v.len()
        invariant
            s == entry_view(v@),
            entry_view(r@) == nonzero(s.take(i as int)),
    {
        assert(s.take(i + 1).drop_last() =~= s.take(i as int));
        assert(s.take(i + 1).last() == s[i as int]);
        assert(s[i as int] == (v@[i as int].0@, v@[i as int].1@));
        if !integer_is_zero(&v[i].1) {
            let ghost before = entry_view(r@);
            r.push((v[i].0.clone(), integer_clone(&v[i].1)));
            assert(entry_view(r@) =~= before.push(s[i as int]));
        }
    }
    assert(s.take(v.len() as int) =~= s);
    r
}

/// The identifiers of some entries.
pub open spec fn has_key(s: Seq<(Seq<char>, int)>, k: Seq<char>) -> bool {
    exists|i: int| 0 <= i < s.len() && (#[trigger] s[i]).0 == k
}

pub proof fn lemma_add_to_keys(s: Seq<(Seq<char>, int)>, k: Seq<char>, v: int)
    requires
        keys_distinct(s),
    ensures
        keys_distinct(add_to(s, k, v)),
        forall|x: Seq<char>| #[trigger] has_key(add_to(s, k, v), x) <==> (has_key(s, x) || x == k),
{
    lemma_key_index(s, k);
    let t = add_to(s, k, v);
    assert forall|x: Seq<char>| #[trigger] has_key(t, x) <==> (has_key(s, x) || x == k) by {
        if has_key(t, x) {
            let i = choose|i: int| 0 <= i < t.len() && (#[trigger] t[i]).0 == x;
            if i < s.len() && t[i].0 != k {
                assert(s[i].0 == x);
            }
        }
        if has_key(s, x) {
            let i = choose|i: int| 0 <= i < s.len() && (#[trigger] s[i]).0 == x;
            assert(t[i].0 == x);
        }
        if x == k {
            match key_index(s, k) {
                Some(i) => assert(t[i].0 == x),
                None => assert(t[s.len() as int].0 == x),
            }
        }
    }
}

pub proof fn lemma_nonzero_keys(s: Seq<(Seq<char>, int)>)
    requires
        keys_distinct(s),
    ensures
        keys_distinct(nonzero(s)),
        forall|x: Seq<char>| #[trigger] has_key(nonzero(s), x) ==> has_key(s, x),
        forall|i: int| 0 <= i < nonzero(s).len() ==> (#[trigger] nonzero(s)[i]).1 != 0 && s.contains(nonzero(s)[i]),
    decreases s.len(),
{
    if s.len() > 0 {
        let t = s.drop_last();
        assert(keys_distinct(t));
        lemma_nonzero_keys(t);
        let n = nonzero(s);
        assert forall|x: Seq<char>| #[trigger] has_key(n, x) implies has_key(s, x) by {
            let i = choose|i: int| 0 <= i < n.len() && (#[trigger] n[i]).0 == x;
            if i < nonzero(t).len() {
                assert(has_key(nonzero(t), x));
                let j = choose|j: int| 0 <= j < t.len() && (#[trigger] t[j]).0 == x;
                assert(s[j].0 == x);
            } else {
                assert(s[s.len() - 1].0 == x);
            }
        }
        assert forall|i: int| 0 <= i < n.len() implies (#[trigger] n[i]).1 != 0 && s.contains(n[i]) by {
            if i < nonzero(t).len() {
                assert(t.contains(nonzero(t)[i]));
                let j = choose|j: int| 0 <= j < t.len() && t[j] == nonzero(t)[i];
                assert(s[j] == n[i]);
            } else {
                assert(s[s.len() - 1] == n[i]);
            }
        }
        if s.last().1 != 0 {
            assert forall|i: int, j: int| 0 <= i < j < n.len() implies #[trigger] n[i].0 != #[trigger] n[j].0 by {
                if j == n.len() - 1 && i < j {
                    if n[i].0 == n[j].0 {
                        assert(has_key(nonzero(t), n[i].0));
                        let m = choose|m: int| 0 <= m < t.len() && (#[trigger] t[m]).0 == n[i].0;
                        assert(s[m].0 == s[s.len() - 1].0);
                    }
                }
            }
        }
    }
}

} // verus!

verus! {

/// The identifiers merged under their canonical spelling: each exponent
/// added, in turn, to that of its canonical identifier.
pub open spec fn merged(s: Seq<(Seq<char>, int)>) -> Seq<(Seq<char>, int)>
    decreases s.len(),
{
    if s.len() == 0 {
        Seq::empty()
    } else {
        add_to(merged(s.drop_last()), canonical_id(s.last().0), s.last().1)
    }
}

/// The exponents of `right` added, in turn, to those of `left`; subtracted
/// where `negate` holds.
pub open spec fn added(left: Seq<(Seq<char>, int)>, right: Seq<(Seq<char>, int)>, negate: bool) -> Seq<(Seq<char>, int)>
    decreases right.len(),
{
    if right.len() == 0 {
        left
    } else {
        add_to(
            added(left, right.drop_last(), negate),
            right.last().0,
            if negate {
                -right.last().1
            } else {
                right.last().1
            },
        )
    }
}

/// Every exponent multiplied by `e`.
pub open spec fn scaled(s: Seq<(Seq<char>, int)>, e: int) -> Seq<(Seq<char>, int)> {
    s.map_values(|p: (Seq<char>, int)| (p.0, p.1 * e))
}

/// The canonical spelling of an identifier: `Θ`, `θ` and `Theta` are one.
pub fn canonical_key(key: &str) -> (r: &str)
    ensures
        r@ == canonical_id(key@),
{
    proof {
        reveal_strlit("\u{0398}");
        reveal_strlit("\u{03b8}");
        reveal_strlit("Theta");
    }
    if str_eq(key, "\u{0398}") || str_eq(key, "\u{03b8}") || str_eq(key, "Theta") {
        "Theta"
    } else {
        key
    }
}

/// The position of an identifier in the SI base-dimension order
/// `M L T I Theta N J`; seven for every other identifier.
pub fn dimension_index(key: &str) -> (r: usize)
    ensures
        r == sig_rank(key@),
{
    proof {
        reveal_strlit("M");
        reveal_strlit("L");
        reveal_strlit("T");
        reveal_strlit("I");
        reveal_strlit("Theta");
        reveal_strlit("N");
        reveal_strlit("J");
    }
    if str_eq(key, "M") {
        0
    } else if str_eq(key, "L") {
        1
    } else if str_eq(key, "T") {
        2
    } else if str_eq(key, "I") {
        3
    } else if str_eq(key, "Theta") {
        4
    } else if str_eq(key, "N") {
        5
    } else if str_eq(key, "J") {
        6
    } else {
        7
    }
}

/// The entries with a zero exponent removed, in their order.
pub fn clean(dimensions: &Dimensions) -> (r: Dimensions)
    ensures
        dimension_entries(r) == nonzero(dimension_entries(*dimensions)),
{
    let entries = entries_of(dimensions);
    let kept = nonzero_entries(&entries);
    proof {
        lemma_nonzero_keys(entry_view(entries@));
    }
    from_entries(&kept)
}

/// Temperature identifiers merged under `Theta`, exponents of one
/// identifier added, and zero exponents removed; identifiers in the order
/// they first appear.
pub fn canonicalize(dimensions: &Dimensions) -> (r: Dimensions)
    ensures
        dimension_entries(r) == nonzero(merged(dimension_entries(*dimensions))),
{
    let entries = entries_of(dimensions);
    let ghost s = entry_view(entries@);
    let mut result: Vec<(String, Integer)> = Vec::new();
    for i in 0..entries.len()
        invariant
            s == entry_view(entries@),
            entry_view(result@) == merged(s.take(i as int)),
            keys_distinct(entry_view(result@)),
    {
        assert(s.take(i + 1).drop_last() =~= s.take(i as int));
        assert(s[i as int] == (entries@[i as int].0@, entries@[i as int].1@));
        let key = canonical_key(entries[i].0.as_str()).to_owned();
        proof {
            lemma_add_to_keys(entry_view(result@), key@, entries@[i as int].1@);
        }
        add_entry(&mut result, key, integer_clone(&entries[i].1));
    }
    assert(s.take(entries.len() as int) =~= s);
    let kept = nonzero_entries(&result);
    proof {
        lemma_nonzero_keys(entry_view(result@));
    }
    from_entries(&kept)
}

/// The exponents of `right` added to those of `left` (subtracted where
/// `subtract` holds), new identifiers last, and zero exponents removed.
fn combine(left: &Dimensions, right: &Dimensions, subtract: bool) -> (r: Dimensions)
    ensures
        dimension_entries(r) == nonzero(added(dimension_entries(*left), dimension_entries(*right), subtract)),
{
    let mut result = entries_of(left);
    let others = entries_of(right);
    let ghost l = entry_view(result@);
    let ghost s = entry_view(others@);
    for i in 0..others.len()
        invariant
            s == entry_view(others@),
            entry_view(result@) == added(l, s.take(i as int), subtract),
            keys_distinct(entry_view(result@)),
    {
        assert(s.take(i + 1).drop_last() =~= s.take(i as int));
        assert(s[i as int] == (others@[i as int].0@, others@[i as int].1@));
        let value = if subtract {
            integer_neg(&others[i].1)
        } else {
            integer_clone(&others[i].1)
        };
        proof {
            lemma_add_to_keys(entry_view(result@), others@[i as int].0@, value@);
        }
        add_entry(&mut result, others[i].0.clone(), value);
    }
    assert(s.take(others.len() as int) =~= s);
    let kept = nonzero_entries(&result);
    proof {
        lemma_nonzero_keys(entry_view(result@));
    }
    from_entries(&kept)
}

/// The dimensions of a product: exponents added.
pub fn multiply(left: &Dimensions, right: &Dimensions) -> (r: Dimensions)
    ensures
        dimension_entries(r) == nonzero(added(dimension_entries(*left), dimension_entries(*right), false)),
{
    combine(left, right, false)
}

/// The dimensions of a quotient: the divisor's exponents subtracted.
pub fn divide(left: &Dimensions, right: &Dimensions) -> (r: Dimensions)
    ensures
        dimension_entries(r) == nonzero(added(dimension_entries(*left), dimension_entries(*right), true)),
{
    combine(left, right, true)
}

/// The dimensions raised to an integer power: none for the power zero, else
/// every exponent multiplied, zero ones removed.
pub fn power(dimensions: &Dimensions, exponent: &Integer) -> (r: Dimensions)
    ensures
        exponent@ == 0 ==> dimension_entries(r) == Seq::<(Seq<char>, int)>::empty(),
        exponent@ != 0 ==> dimension_entries(r) == nonzero(scaled(dimension_entries(*dimensions), exponent@)),
{
    if integer_is_zero(exponent) {
        return empty_dimensions();
    }
    let entries = entries_of(dimensions);
    let ghost s = entry_view(entries@);
    let mut products: Vec<(String, Integer)> = Vec::new();
    for i in 0..entries.len()
        invariant
            s == entry_view(entries@),
            entry_view(products@) == scaled(s, exponent@).take(i as int),
    {
        assert(s[i as int] == (entries@[i as int].0@, entries@[i as int].1@));
        let product = integer_mul(&entries[i].1, exponent);
        let ghost before = products@;
        products.push((entries[i].0.clone(), product));
        assert(scaled(s, exponent@)[i as int] == (s[i as int].0, s[i as int].1 * exponent@));
        assert(entry_view(products@) =~= entry_view(before).push((s[i as int].0, s[i as int].1 * exponent@)));
        assert(entry_view(products@) =~= scaled(s, exponent@).take(i + 1));
    }
    assert(scaled(s, exponent@).take(entries.len() as int) =~= scaled(s, exponent@));
    let kept = nonzero_entries(&products);
    proof {
        assert forall|i: int, j: int| 0 <= i < j < scaled(s, exponent@).len() implies #[trigger] scaled(s, exponent@)[i].0
            != #[trigger] scaled(s, exponent@)[j].0 by {
            assert(s[i].0 != s[j].0);
        }
        lemma_nonzero_keys(scaled(s, exponent@));
    }
    from_entries(&kept)
}

/// Whether every exponent is zero.
pub fn is_dimensionless(dimensions: &Dimensions) -> (r: bool)
    ensures
        r == forall|i: int| 0 <= i < dimension_entries(*dimensions).len() ==> #[trigger] dimension_entries(*dimensions)[i].1 == 0,
{
    let entries = entries_of(dimensions);
    let ghost s = entry_view(entries@);
    for i in 0..entries.len()
        invariant
            s == entry_view(entries@),
            s == dimension_entries(*dimensions),
            forall|j: int| 0 <= j < i ==> #[trigger] s[j].1 == 0,
    {
        assert(s[i as int] == (entries@[i as int].0@, entries@[i as int].1@));
        if !integer_is_zero(&entries[i].1) {
            assert(dimension_entries(*dimensions)[i as int].1 != 0);
            return false;
        }
    }
    true
}

} // verus!

verus! {

/// Entries whose identifiers differ are themselves all different.
proof fn lemma_distinct_entries(s: Seq<(Seq<char>, int)>)
    requires
        keys_distinct(s),
    ensures
        s.no_duplicates(),
        s.to_set().len() == s.len(),
        s.to_set().finite(),
{
    assert forall|i: int, j: int| 0 <= i < s.len() && 0 <= j < s.len() && i != j implies s[i] != s[j] by {
        if i < j {
            assert(s[i].0 != s[j].0);
        } else {
            assert(s[j].0 != s[i].0);
        }
    }
    s.unique_seq_to_set();
    vstd::seq_lib::seq_to_set_is_finite(s);
}

/// Whether two dimension maps agree once zero exponents are removed: the
/// same identifiers with the same exponents, in any order.
pub fn equal(left: &Dimensions, right: &Dimensions) -> (r: bool)
    ensures
        r == (nonzero(dimension_entries(*left)).to_set() == nonzero(dimension_entries(*right)).to_set()),
{
    let all_left = entries_of(left);
    let all_right = entries_of(right);
    let l = nonzero_entries(&all_left);
    let rr = nonzero_entries(&all_right);
    let ghost a = entry_view(l@);
    let ghost b = entry_view(rr@);
    proof {
        lemma_nonzero_keys(entry_view(all_left@));
        lemma_nonzero_keys(entry_view(all_right@));
        lemma_distinct_entries(a);
        lemma_distinct_entries(b);
    }
    if l.len() != rr.len() {
        return false;
    }
    for i in 0..l.len()
        invariant
            a == entry_view(l@),
            b == entry_view(rr@),
            a == nonzero(dimension_entries(*left)),
            b == nonzero(dimension_entries(*right)),
            keys_distinct(a),
            keys_distinct(b),
            a.len() == b.len(),
            forall|j: int| 0 <= j < i ==> b.contains(#[trigger] a[j]),
    {
        assert(a[i as int] == (l@[i as int].0@, l@[i as int].1@));
        match find_key(&rr, l[i].0.as_str()) {
            Some(j) => {
                proof {
                    lemma_key_index(b, a[i as int].0);
                    assert(b[j as int] == (rr@[j as int].0@, rr@[j as int].1@));
                }
                if !integer_eq(&l[i].1, &rr[j].1) {
                    proof {
                        if b.contains(a[i as int]) {
                            let k = choose|k: int| 0 <= k < b.len() && b[k] == a[i as int];
                            if k != j {
                                if k < j {
                                    assert(b[k].0 != b[j as int].0);
                                } else {
                                    assert(b[j as int].0 != b[k].0);
                                }
                            }
                        }
                        assert(a.to_set().contains(a[i as int]));
                        assert(!b.to_set().contains(a[i as int]));
                    }
                    return false;
                }
                proof {
                    assert(b[j as int] == a[i as int]);
                }
            },
            None => {
                proof {
                    lemma_key_index(b, a[i as int].0);
                    assert(a.to_set().contains(a[i as int]));
                    assert(!b.to_set().contains(a[i as int]));
                }
                return false;
            },
        }
    }
    proof {
        assert(a.to_set().subset_of(b.to_set()));
        vstd::set_lib::lemma_subset_equality(a.to_set(), b.to_set());
    }
    true
}

/// The superscript form of a digit or minus sign.
pub open spec fn superscript_char(c: char) -> char {
    if c == '-' {
        '\u{207b}'
    } else if c == '0' {
        '\u{2070}'
    } else if c == '1' {
        '\u{00b9}'
    } else if c == '2' {
        '\u{00b2}'
    } else if c == '3' {
        '\u{00b3}'
    } else if c == '4' {
        '\u{2074}'
    } else if c == '5' {
        '\u{2075}'
    } else if c == '6' {
        '\u{2076}'
    } else if c == '7' {
        '\u{2077}'
    } else if c == '8' {
        '\u{2078}'
    } else if c == '9' {
        '\u{2079}'
    } else {
        c
    }
}

/// The decimal text of an integer in superscript characters.
pub open spec fn superscript_text(n: int) -> Seq<char> {
    int_text(n).map_values(|c: char| superscript_char(c))
}

fn superscript_of(c: char) -> (r: char)
    ensures
        r == superscript_char(c),
{
    match c {
        '-' => '\u{207b}',
        '0' => '\u{2070}',
        '1' => '\u{00b9}',
        '2' => '\u{00b2}',
        '3' => '\u{00b3}',
        '4' => '\u{2074}',
        '5' => '\u{2075}',
        '6' => '\u{2076}',
        '7' => '\u{2077}',
        '8' => '\u{2078}',
        '9' => '\u{2079}',
        _ => c,
    }
}

/// An exponent written in superscript digits.
pub fn superscript(exponent: &Integer) -> (r: String)
    ensures
        r@ == superscript_text(exponent@),
{
    let text = integer_text(exponent);
    let chars = chars_of(text.as_str());
    let mut out: Vec<char> = Vec::new();
    for i in 0..chars.len()
        invariant
            chars@ == int_text(exponent@),
            out@ == superscript_text(exponent@).take(i as int),
    {
        out.push(superscript_of(chars[i]));
        assert(out@ =~= superscript_text(exponent@).take(i + 1));
    }
    assert(superscript_text(exponent@).take(chars.len() as int) =~= superscript_text(exponent@));
    string_from_chars(out.as_slice())
}

/// The entries of one rank, in their order.
pub open spec fn of_rank(s: Seq<(Seq<char>, int)>, r: nat) -> Seq<(Seq<char>, int)>
    decreases s.len(),
{
    if s.len() == 0 {
        Seq::empty()
    } else if sig_rank(s.last().0) == r {
        of_rank(s.drop_last(), r).push(s.last())
    } else {
        of_rank(s.drop_last(), r)
    }
}

/// The entries of the ranks below `r`, rank by rank: a stable sort by rank.
pub open spec fn by_rank(s: Seq<(Seq<char>, int)>, r: nat) -> Seq<(Seq<char>, int)>
    decreases r,
{
    if r == 0 {
        Seq::empty()
    } else {
        by_rank(s, (r - 1) as nat) + of_rank(s, (r - 1) as nat)
    }
}

/// Texts joined with a separator.
pub open spec fn joined_with(parts: Seq<Seq<char>>, sep: Seq<char>) -> Seq<char>
    decreases parts.len(),
{
    if parts.len() == 0 {
        Seq::empty()
    } else if parts.len() == 1 {
        parts[0]
    } else {
        joined_with(parts.drop_last(), sep) + sep + parts.last()
    }
}

/// Strings joined with a separator.
fn join(parts: &Vec<String>, sep: &str) -> (r: String)
    ensures
        r@ == joined_with(texts(parts@), sep@),
{
    let mut r = String::new();
    for i in 0..parts.len()
        invariant
            r@ == joined_with(texts(parts@).take(i as int), sep@),
    {
        assert(texts(parts@).take(i + 1).drop_last() =~= texts(parts@).take(i as int));
        assert(texts(parts@)[i as int] == parts@[i as int]@);
        if i > 0 {
            string_push_str(&mut r, sep);
        }
        string_push_str(&mut r, parts[i].as_str());
        proof {
            if i == 0 {
                assert(r@ =~= texts(parts@).take(1)[0]);
            }
        }
    }
    assert(texts(parts@).take(parts.len() as int) =~= texts(parts@));
    r
}

/// An entry as `format` writes it: the identifier, with its exponent in
/// superscript unless it is one.
pub open spec fn formatted_entry(e: (Seq<char>, int)) -> Seq<char> {
    if e.1 == 1 {
        e.0
    } else {
        e.0 + superscript_text(e.1)
    }
}

/// `format`'s text: `1` without nonzero exponents, else the entries sorted
/// by rank (ties in their order), each formatted, joined by spaces.
pub open spec fn formatted(s: Seq<(Seq<char>, int)>) -> Seq<char> {
    if nonzero(s).len() == 0 {
        "1"@
    } else {
        joined_with(by_rank(nonzero(s), 8).map_values(|e: (Seq<char>, int)| formatted_entry(e)), " "@)
    }
}

/// The entries of rank `r`, in their order.
fn entries_of_rank(v: &Vec<(String, Integer)>, r: usize) -> (out: Vec<(String, Integer)>)
    ensures
        entry_view(out@) == of_rank(entry_view(v@), r as nat),
{
    let ghost s = entry_view(v@);
    let mut out: Vec<(String, Integer)> = Vec::new();
    for i in 0..v.len()
        invariant
            s == entry_view(v@),
            entry_view(out@) == of_rank(s.take(i as int), r as nat),
    {
        assert(s.take(i + 1).drop_last() =~= s.take(i as int));
        assert(s[i as int] == (v@[i as int].0@, v@[i as int].1@));
        if dimension_index(v[i].0.as_str()) == r {
            let ghost before = entry_view(out@);
            out.push((v[i].0.clone(), integer_clone(&v[i].1)));
            assert(entry_view(out@) =~= before.push(s[i as int]));
        }
    }
    assert(s.take(v.len() as int) =~= s);
    out
}

/// Dimensions with Unicode superscript exponents: `1` without nonzero
/// exponents, else identifiers in SI order (others after, in their order),
/// each with its exponent unless it is one, separated by spaces.
pub fn format(dimensions: &Dimensions) -> (r: String)
    ensures
        r@ == formatted(dimension_entries(*dimensions)),
{
    proof {
        reveal_strlit("1");
        reveal_strlit(" ");
    }
    let entries = entries_of(dimensions);
    let cleaned = nonzero_entries(&entries);
    if cleaned.len() == 0 {
        return "1".to_owned();
    }
    let ghost s = entry_view(cleaned@);
    let mut parts: Vec<String> = Vec::new();
    for rank in 0..8
        invariant
            s == entry_view(cleaned@),
            texts(parts@) == by_rank(s, rank as nat).map_values(|e: (Seq<char>, int)| formatted_entry(e)),
    {
        let chosen = entries_of_rank(&cleaned, rank);
        let ghost before = texts(parts@);
        for j in 0..chosen.len()
            invariant
                texts(parts@) == before + of_rank(s, rank as nat).take(j as int).map_values(
                    |e: (Seq<char>, int)| formatted_entry(e),
                ),
                entry_view(chosen@) == of_rank(s, rank as nat),
        {
            assert(entry_view(chosen@)[j as int] == (chosen@[j as int].0@, chosen@[j as int].1@));
            let mut text = chosen[j].0.clone();
            if !integer_eq(&chosen[j].1, &crate::bignum::integer_from_i64(1)) {
                let sup = superscript(&chosen[j].1);
                string_push_str(&mut text, sup.as_str());
            }
            let ghost was = texts(parts@);
            parts.push(text);
            assert(texts(parts@) =~= was.push(formatted_entry(of_rank(s, rank as nat)[j as int])));
            assert(of_rank(s, rank as nat).take(j + 1).map_values(|e: (Seq<char>, int)| formatted_entry(e))
                =~= of_rank(s, rank as nat).take(j as int).map_values(|e: (Seq<char>, int)| formatted_entry(e)).push(
                formatted_entry(of_rank(s, rank as nat)[j as int]),
            ));
        }
        assert(of_rank(s, rank as nat).take(chosen.len() as int) =~= of_rank(s, rank as nat));
        assert(by_rank(s, (rank + 1) as nat).map_values(|e: (Seq<char>, int)| formatted_entry(e)) =~= by_rank(
            s,
            rank as nat,
        ).map_values(|e: (Seq<char>, int)| formatted_entry(e)) + of_rank(s, rank as nat).map_values(
            |e: (Seq<char>, int)| formatted_entry(e),
        ));
    }
    join(&parts, " ")
}

} // verus!

verus! {

/// Identifiers strictly increasing.
pub open spec fn keys_increasing(u: Seq<(Seq<char>, int)>) -> bool {
    forall|i: int, j: int| 0 <= i < j < u.len() ==> seq_lt(#[trigger] u[i].0, #[trigger] u[j].0)
}

/// `u` holds the entries of `t`, by increasing identifier.
pub open spec fn sorts_keys(u: Seq<(Seq<char>, int)>, t: Seq<(Seq<char>, int)>) -> bool {
    u.to_set() == t.to_set() && keys_increasing(u)
}

/// An entry as a signature writes it.
pub open spec fn signature_entry(e: (Seq<char>, int)) -> Seq<char> {
    e.0 + ":"@ + int_text(e.1)
}

/// A signature over canonical entries `c`, with the entries of the last
/// rank ordered as `u`.
pub open spec fn signature_with(c: Seq<(Seq<char>, int)>, u: Seq<(Seq<char>, int)>) -> Seq<char> {
    joined_with((by_rank(c, 7) + u).map_values(|e: (Seq<char>, int)| signature_entry(e)), ","@)
}

/// `text` is the signature of the entries: `1` when no exponent remains
/// after canonicalizing, else `id:exponent` entries ordered by SI rank and
/// then by identifier, joined by commas.
pub open spec fn is_signature(entries: Seq<(Seq<char>, int)>, text: Seq<char>) -> bool {
    let c = nonzero(merged(entries));
    if c.len() == 0 {
        text == "1"@
    } else {
        exists|u: Seq<(Seq<char>, int)>| #[trigger] sorts_keys(u, of_rank(c, 7)) && text == signature_with(c, u)
    }
}

/// `v` with `e` added in identifier order.
fn insert_by_key(v: &mut Vec<(String, Integer)>, e: (String, Integer))
    requires
        keys_increasing(entry_view(old(v)@)),
        forall|i: int| 0 <= i < old(v)@.len() ==> #[trigger] old(v)@[i].0@ != e.0@,
    ensures
        keys_increasing(entry_view(final(v)@)),
        entry_view(final(v)@).to_set() == entry_view(old(v)@).to_set().insert((e.0@, e.1@)),
{
    let ghost before = entry_view(v@);
    let ghost x = (e.0@, e.1@);
    let mut p: usize = 0;
    while p < v.len() && crate::strings::str_lt(v[p].0.as_str(), e.0.as_str())
        invariant
            p <= v.len(),
            before == entry_view(v@),
            x == (e.0@, e.1@),
            keys_increasing(before),
            forall|j: int| 0 <= j < p ==> seq_lt(#[trigger] before[j].0, x.0),
        decreases v.len() - p,
    {
        assert(before[p as int] == (v@[p as int].0@, v@[p as int].1@));
        p = p + 1;
    }
    proof {
        if p < v.len() {
            assert(before[p as int] == (v@[p as int].0@, v@[p as int].1@));
            assert(before[p as int].0 != x.0);
            crate::ordered::lemma_lt_total(before[p as int].0, x.0);
        }
    }
    v.insert(p, e);
    let ghost after = entry_view(v@);
    assert(after =~= before.insert(p as int, x));
    proof {
        assert forall|i: int, j: int| 0 <= i < j < after.len() implies seq_lt(#[trigger] after[i].0, #[trigger] after[j].0) by {
            if j < p {
            } else if i < p && j == p {
            } else if i < p && j > p {
                if p < before.len() {
                    if j - 1 > p {
                        crate::ordered::lemma_lt_transitive(x.0, before[p as int].0, before[j - 1].0);
                    }
                }
                crate::ordered::lemma_lt_transitive(after[i].0, x.0, after[j].0);
            } else if i == p {
                if j - 1 > p {
                    crate::ordered::lemma_lt_transitive(x.0, before[p as int].0, before[j - 1].0);
                }
            } else {
            }
        }
        assert forall|y: (Seq<char>, int)| #[trigger] after.to_set().contains(y) <==> before.to_set().insert(x).contains(y) by {
            if after.contains(y) {
                let j = choose|j: int| 0 <= j < after.len() && after[j] == y;
                if j < p {
                    assert(before[j] == y);
                } else if j > p {
                    assert(before[j - 1] == y);
                }
            }
            if before.contains(y) {
                let j = choose|j: int| 0 <= j < before.len() && before[j] == y;
                if j < p {
                    assert(after[j] == y);
                } else {
                    assert(after[j + 1] == y);
                }
            }
            if y == x {
                assert(after[p as int] == y);
            }
        }
        assert(after.to_set() =~= before.to_set().insert(x));
    }
}

/// A canonical, zero-stripped signature: `1` without nonzero exponents,
/// else `id:exponent` entries in SI order, other identifiers after them in
/// increasing order, joined by commas.
pub fn signature(dimensions: &Dimensions) -> (r: String)
    ensures
        is_signature(dimension_entries(*dimensions), r@),
{
    proof {
        reveal_strlit("1");
        reveal_strlit(",");
        reveal_strlit(":");
    }
    let canonical = canonicalize(dimensions);
    let entries = entries_of(&canonical);
    let ghost c = entry_view(entries@);
    if entries.len() == 0 {
        return "1".to_owned();
    }
    let mut ordered: Vec<(String, Integer)> = Vec::new();
    for rank in 0..7
        invariant
            c == entry_view(entries@),
            entry_view(ordered@) == by_rank(c, rank as nat),
    {
        let chosen = entries_of_rank(&entries, rank);
        let ghost before = entry_view(ordered@);
        for j in 0..chosen.len()
            invariant
                entry_view(ordered@) == before + of_rank(c, rank as nat).take(j as int),
                entry_view(chosen@) == of_rank(c, rank as nat),
        {
            assert(entry_view(chosen@)[j as int] == (chosen@[j as int].0@, chosen@[j as int].1@));
            let ghost was = entry_view(ordered@);
            ordered.push((chosen[j].0.clone(), integer_clone(&chosen[j].1)));
            assert(entry_view(ordered@) =~= was.push(of_rank(c, rank as nat)[j as int]));
            assert(of_rank(c, rank as nat).take(j + 1) =~= of_rank(c, rank as nat).take(j as int).push(
                of_rank(c, rank as nat)[j as int],
            ));
        }
        assert(of_rank(c, rank as nat).take(chosen.len() as int) =~= of_rank(c, rank as nat));
    }
    let others = entries_of_rank(&entries, 7);
    let ghost t = entry_view(others@);
    proof {
        lemma_of_rank_distinct(c, 7);
    }
    let mut sorted: Vec<(String, Integer)> = Vec::new();
    for j in 0..others.len()
        invariant
            t == entry_view(others@),
            keys_distinct(t),
            keys_increasing(entry_view(sorted@)),
            entry_view(sorted@).to_set() == t.take(j as int).to_set(),
    {
        assert(t[j as int] == (others@[j as int].0@, others@[j as int].1@));
        proof {
            assert forall|i: int| 0 <= i < sorted@.len() implies #[trigger] sorted@[i].0@ != others@[j as int].0@ by {
                assert(entry_view(sorted@)[i] == (sorted@[i].0@, sorted@[i].1@));
                assert(entry_view(sorted@).to_set().contains(entry_view(sorted@)[i]));
                assert(t.take(j as int).to_set().contains(entry_view(sorted@)[i]));
                let k = choose|k: int| 0 <= k < t.take(j as int).len() && t.take(j as int)[k] == entry_view(sorted@)[i];
                assert(t[k].0 != t[j as int].0);
            }
        }
        insert_by_key(&mut sorted, (others[j].0.clone(), integer_clone(&others[j].1)));
        proof {
            let longer = t.take(j + 1);
            let shorter = t.take(j as int);
            assert(longer =~= shorter.push(t[j as int]));
            assert forall|y: (Seq<char>, int)| #[trigger] longer.to_set().contains(y) <==> shorter.to_set().insert(t[j as int]).contains(y) by {
                if longer.contains(y) {
                    let k = choose|k: int| 0 <= k < longer.len() && longer[k] == y;
                    if k < j {
                        assert(shorter[k] == y);
                    }
                }
                if shorter.contains(y) {
                    let k = choose|k: int| 0 <= k < shorter.len() && shorter[k] == y;
                    assert(longer[k] == y);
                }
                if y == t[j as int] {
                    assert(longer[j as int] == y);
                }
            }
            assert(longer.to_set() =~= shorter.to_set().insert(t[j as int]));
        }
    }
    assert(t.take(others.len() as int) =~= t);
    let mut parts: Vec<String> = Vec::new();
    let ghost all = entry_view(ordered@) + entry_view(sorted@);
    for i in 0..ordered.len()
        invariant
            texts(parts@) == entry_view(ordered@).take(i as int).map_values(|e: (Seq<char>, int)| signature_entry(e)),
    {
        proof {
            reveal_strlit(":");
        }
        let mut text = ordered[i].0.clone();
        string_push_str(&mut text, ":");
        let number = integer_text(&ordered[i].1);
        string_push_str(&mut text, number.as_str());
        let ghost was = texts(parts@);
        assert(entry_view(ordered@)[i as int] == (ordered@[i as int].0@, ordered@[i as int].1@));
        assert(text@ == signature_entry(entry_view(ordered@)[i as int]));
        parts.push(text);
        assert(texts(parts@) =~= was.push(signature_entry(entry_view(ordered@)[i as int])));
        assert(texts(parts@) =~= entry_view(ordered@).take(i + 1).map_values(|e: (Seq<char>, int)| signature_entry(e)));
    }
    let ghost head = entry_view(ordered@);
    assert(head.take(ordered.len() as int) =~= head);
    for i in 0..sorted.len()
        invariant
            head == entry_view(ordered@),
            texts(parts@) == (head + entry_view(sorted@).take(i as int)).map_values(|e: (Seq<char>, int)| signature_entry(e)),
    {
        proof {
            reveal_strlit(":");
        }
        let mut text = sorted[i].0.clone();
        string_push_str(&mut text, ":");
        let number = integer_text(&sorted[i].1);
        string_push_str(&mut text, number.as_str());
        let ghost was = texts(parts@);
        assert(entry_view(sorted@)[i as int] == (sorted@[i as int].0@, sorted@[i as int].1@));
        assert(text@ == signature_entry(entry_view(sorted@)[i as int]));
        parts.push(text);
        assert(texts(parts@) =~= was.push(signature_entry(entry_view(sorted@)[i as int])));
        assert((head + entry_view(sorted@).take(i + 1)) =~= (head + entry_view(sorted@).take(i as int)).push(entry_view(sorted@)[i as int]));
        assert(texts(parts@) =~= (head + entry_view(sorted@).take(i + 1)).map_values(|e: (Seq<char>, int)| signature_entry(e)));
    }
    assert(entry_view(sorted@).take(sorted.len() as int) =~= entry_view(sorted@));
    proof {
        assert(sorts_keys(entry_view(sorted@), of_rank(c, 7)));
        assert(c == nonzero(merged(dimension_entries(*dimensions))));
    }
    join(&parts, ",")
}

/// The entries of one rank keep distinct identifiers.
proof fn lemma_of_rank_distinct(s: Seq<(Seq<char>, int)>, r: nat)
    requires
        keys_distinct(s),
    ensures
        keys_distinct(of_rank(s, r)),
        forall|x: (Seq<char>, int)| #[trigger] of_rank(s, r).contains(x) ==> s.contains(x),
    decreases s.len(),
{
    if s.len() > 0 {
        let t = s.drop_last();
        assert(keys_distinct(t));
        lemma_of_rank_distinct(t, r);
        let o = of_rank(s, r);
        assert forall|x: (Seq<char>, int)| #[trigger] o.contains(x) implies s.contains(x) by {
            let i = choose|i: int| 0 <= i < o.len() && o[i] == x;
            if i < of_rank(t, r).len() {
                assert(of_rank(t, r).contains(x));
                let j = choose|j: int| 0 <= j < t.len() && t[j] == x;
                assert(s[j] == x);
            } else {
                assert(s[s.len() - 1] == x);
            }
        }
        if sig_rank(s.last().0) == r {
            assert forall|i: int, j: int| 0 <= i < j < o.len() implies #[trigger] o[i].0 != #[trigger] o[j].0 by {
                if j == o.len() - 1 {
                    assert(of_rank(t, r).contains(o[i]));
                    let k = choose|k: int| 0 <= k < t.len() && t[k] == o[i];
                    assert(s[k].0 != s[s.len() - 1].0);
                } else {
                    assert(o[i] == of_rank(t, r)[i] && o[j] == of_rank(t, r)[j]);
                }
            }
        }
    }
}

} // verus!

verus! {

/// An invalid canonical dimension signature.
#[derive(Clone, Debug, PartialEq, Eq)]
pub struct ParseDimensionsError {
    message: String,
}

impl View for ParseDimensionsError {
    type V = Seq<char>;

    /// The message.
    closed spec fn view(&self) -> Seq<char> {
        self.message@
    }
}

impl ParseDimensionsError {
    /// An error with the given message.
    pub fn new(message: String) -> (r: Self)
        ensures
            r@ == message@,
    {
        Self { message }
    }

    /// The message.
    pub fn message(&self) -> (r: String)
        ensures
            r@ == self@,
    {
        self.message.clone()
    }
}

/// The `Debug` text of a string: quoted, with `str::escape_debug` escapes.
pub uninterp spec fn debug_quoted(s: Seq<char>) -> Seq<char>;

/// `format!("{:?}")` on a `&str`.
#[verifier::external_body]
fn debug_text(s: &str) -> (r: String)
    ensures
        r@ == debug_quoted(s@),
{
    format!("{s:?}")
}

/// The entry a part `id:exponent` spells, split at its first `:`.
pub open spec fn part_entry(part: Seq<char>) -> Option<(Seq<char>, int)> {
    match find_char(part, ':') {
        None => None,
        Some(i) => match parse_int(part.skip(i + 1)) {
            Some(n) => Some((part.take(i), n)),
            None => None,
        },
    }
}

/// Why a part is refused.
pub open spec fn part_message(part: Seq<char>) -> Seq<char> {
    match find_char(part, ':') {
        None => "missing ':' in "@ + debug_quoted(part),
        Some(i) => "invalid integer exponent "@ + debug_quoted(part.skip(i + 1)),
    }
}

/// The entries the parts give, each inserted in turn.
pub open spec fn parsed_entries(parts: Seq<Seq<char>>) -> Seq<(Seq<char>, int)>
    decreases parts.len(),
{
    if parts.len() == 0 {
        Seq::empty()
    } else {
        let e = part_entry(parts.last())->0;
        put(parsed_entries(parts.drop_last()), e.0, e.1)
    }
}

/// Whether every comma-separated part of a signature other than `1` parses.
pub open spec fn parts_parse(value: Seq<char>) -> bool {
    forall|i: int| 0 <= i < split_on(value, ',').len() ==> (#[trigger] part_entry(split_on(value, ',')[i])) is Some
}

/// The message of the first part that does not parse.
pub open spec fn parse_error(value: Seq<char>, message: Seq<char>) -> bool {
    let parts = split_on(value, ',');
    exists|i: int|
        0 <= i < parts.len() && (forall|j: int| 0 <= j < i ==> (#[trigger] part_entry(parts[j])) is Some)
            && part_entry(parts[i]) is None && message == part_message(parts[i])
}

proof fn lemma_find_char(s: Seq<char>, c: char)
    ensures
        find_char(s, c) matches Some(i) ==> 0 <= i < s.len() && s[i] == c && forall|j: int| 0 <= j < i ==> s[j] != c,
        find_char(s, c) is None ==> forall|j: int| 0 <= j < s.len() ==> s[j] != c,
    decreases s.len(),
{
    if s.len() > 0 {
        lemma_find_char(s.drop_first(), c);
        assert forall|j: int| 0 < j < s.len() implies s[j] == s.drop_first()[j - 1] by {}
    }
}

/// The first `:` of a part.
fn find_colon(part: &Vec<char>) -> (r: Option<usize>)
    ensures
        r matches Some(i) ==> find_char(part@, ':') == Some(i as int) && i < part.len(),
        r is None ==> find_char(part@, ':') is None,
{
    proof {
        lemma_find_char(part@, ':');
    }
    for i in 0..part.len()
        invariant
            forall|j: int| 0 <= j < i ==> part@[j] != ':',
            find_char(part@, ':') matches Some(k) ==> 0 <= k < part@.len() && part@[k] == ':' && forall|j: int|
                0 <= j < k ==> part@[j] != ':',
            find_char(part@, ':') is None ==> forall|j: int| 0 <= j < part@.len() ==> part@[j] != ':',
    {
        if part[i] == ':' {
            return Some(i);
        }
    }
    None
}

/// Parse a signature that `signature` writes: `1`, or comma-separated
/// `id:exponent` parts with integer exponents, each split at its first
/// `:`; the entries are then canonicalized. The first part without `:` or
/// with an exponent that is not an integer is refused.
pub fn parse_signature(value: &str) -> (r: Result<Dimensions, ParseDimensionsError>)
    ensures
        r is Ok <==> (value@ == "1"@ || parts_parse(value@)),
        r matches Ok(d) ==> dimension_entries(d) == (if value@ == "1"@ {
            Seq::<(Seq<char>, int)>::empty()
        } else {
            nonzero(merged(parsed_entries(split_on(value@, ','))))
        }),
        r matches Err(e) ==> value@ != "1"@ && parse_error(value@, e@),
{
    proof {
        reveal_strlit("1");
        reveal_strlit("missing ':' in ");
        reveal_strlit("invalid integer exponent ");
    }
    if str_eq(value, "1") {
        return Ok(empty_dimensions());
    }
    let chars = chars_of(value);
    let parts = crate::dimension::split_commas(&chars);
    let ghost ps = split_on(value@, ',');
    let mut parsed = empty_dimensions();
    let n = parts.len();
    assert(ps.take(0) =~= Seq::<Seq<char>>::empty());
    for i in 0..n
        invariant
            n == parts.len(),
            ps == parts@.map_values(|p: Vec<char>| p@),
            ps == split_on(value@, ','),
            value@ != "1"@,
            dimension_entries(parsed) == parsed_entries(ps.take(i as int)),
            forall|j: int| 0 <= j < i ==> (#[trigger] part_entry(ps[j])) is Some,
    {
        let part = &parts[i];
        assert(ps[i as int] == part@);
        assert(ps.take(i + 1).drop_last() =~= ps.take(i as int));
        match find_colon(part) {
            None => {
                proof {
                    reveal_strlit("missing ':' in ");
                }
                let text = crate::strings::string_from_chars(part.as_slice());
                let mut message = "missing ':' in ".to_owned();
                string_push_str(&mut message, debug_text(text.as_str()).as_str());
                let e = ParseDimensionsError::new(message);
                assert(part_entry(ps[i as int]) is None);
                assert(!parts_parse(value@));
                return Err(e);
            },
            Some(colon) => {
                let key = crate::strings::string_from_chars(crate::dimension::chars_between(part, 0, colon).as_slice());
                let exponent = crate::strings::string_from_chars(crate::dimension::chars_between(part, colon + 1, part.len()).as_slice());
                assert(part@.subrange(0, colon as int) =~= part@.take(colon as int));
                assert(part@.subrange(colon + 1, part@.len() as int) =~= part@.skip(colon + 1));
                match crate::bignum::integer_parse(exponent.as_str()) {
                    Ok(number) => {
                        put_entry(&mut parsed, key, number);
                    },
                    Err(_) => {
                        proof {
                            reveal_strlit("invalid integer exponent ");
                        }
                        let mut message = "invalid integer exponent ".to_owned();
                        string_push_str(&mut message, debug_text(exponent.as_str()).as_str());
                        let e = ParseDimensionsError::new(message);
                        assert(part_entry(ps[i as int]) is None);
                        assert(!parts_parse(value@));
                        return Err(e);
                    },
                }
            },
        }
    }
    assert(ps.take(n as int) =~= ps);
    Ok(canonicalize(&parsed))
}

} // verus!
