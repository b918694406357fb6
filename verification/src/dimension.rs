//! Exact dimensions: sparse maps from dimension identifiers to nonzero
//! rational exponents. The SI profile's aliases `Θ` and `θ` are `Theta`;
//! every other identifier stays itself.
use crate::bignum::{
    integer_text, parse_ratio, rational_parse, lemma_rational_canonical, rational_denom, rational_is_integer, rational_numer, rational_add, rational_clone, rational_eq, rational_is_zero,
    rational_mul, rational_neg, rational_zero, Rational,
};
use crate::numtheory::{
    canonical, lemma_add_zero, lemma_neg_canonical, lemma_rat_ops, lemma_zero_canonical,
    rat_add, rat_mul, rat_neg, rat_sub, rat_zero,
};
use crate::ordered::{
    entries_map, keys_sorted, lemma_entry_in_map, lemma_insert_entry, lemma_lt_total,
    lemma_map_key_index, lemma_remove_entry, lemma_sorted_unique, lemma_take_all,
    lemma_take_entry, lemma_update_entry,
};
use crate::strings::{chars_of, str_eq, str_lt, string_from_chars, string_push_str};
use crate::text::{rat_text, rfind_char, seq_lt, split_on};
use num_rational::ParseRatioError;
use vstd::prelude::*;

verus! {

/// Dimensions as a map from identifier to exponent.
pub type DimMap = Map<Seq<char>, (int, int)>;

/// The canonical spelling of a dimension identifier.
pub open spec fn canonical_id(id: Seq<char>) -> Seq<char> {
    if id == "\u{0398}"@ || id == "\u{03b8}"@ {
        "Theta"@
    } else {
        id
    }
}

/// The exponent of `k`, zero where it is absent.
pub open spec fn power_in(m: DimMap, k: Seq<char>) -> (int, int) {
    if m.contains_key(k) {
        m[k]
    } else {
        rat_zero()
    }
}

/// A well-formed dimension map: canonical identifiers and nonzero exponents
/// in lowest terms.
pub open spec fn dims_ok(m: DimMap) -> bool {
    forall|k: Seq<char>|
        #[trigger] m.contains_key(k) ==> m[k].0 != 0 && canonical(m[k]) && canonical_id(k) == k
}

/// Adding `p` to the exponent of `id`; an exponent that becomes zero leaves.
pub open spec fn dims_insert(m: DimMap, id: Seq<char>, p: (int, int)) -> DimMap {
    let k = canonical_id(id);
    let v = rat_add(power_in(m, k), p);
    if v.0 == 0 {
        m.remove(k)
    } else {
        m.insert(k, v)
    }
}

/// The dimensions of a product: exponents add.
pub open spec fn dims_mul(a: DimMap, b: DimMap) -> DimMap {
    Map::new(
        |k: Seq<char>|
            (a.contains_key(k) || b.contains_key(k)) && rat_add(power_in(a, k), power_in(b, k)).0
                != 0,
        |k: Seq<char>| rat_add(power_in(a, k), power_in(b, k)),
    )
}

/// The dimensions of a quotient: exponents subtract.
pub open spec fn dims_div(a: DimMap, b: DimMap) -> DimMap {
    Map::new(
        |k: Seq<char>|
            (a.contains_key(k) || b.contains_key(k)) && rat_sub(power_in(a, k), power_in(b, k)).0
                != 0,
        |k: Seq<char>| rat_sub(power_in(a, k), power_in(b, k)),
    )
}

/// The dimensions of a power: exponents scale.
pub open spec fn dims_pow(a: DimMap, p: (int, int)) -> DimMap {
    Map::new(
        |k: Seq<char>| a.contains_key(k) && rat_mul(a[k], p).0 != 0,
        |k: Seq<char>| rat_mul(a[k], p),
    )
}

/// The entries as identifiers and fractions.
pub open spec fn pairs(s: Seq<(String, Rational)>) -> Seq<(Seq<char>, (int, int))> {
    s.map_values(|e: (String, Rational)| (e.0@, e.1@))
}

/// Sorted entries of a well-formed map.
pub open spec fn entries_ok(s: Seq<(Seq<char>, (int, int))>) -> bool {
    &&& keys_sorted(s)
    &&& forall|i: int|
        0 <= i < s.len() ==> (#[trigger] s[i]).1.0 != 0 && canonical(s[i].1) && canonical_id(
            s[i].0,
        ) == s[i].0
}

/// A map from dimension identifiers to nonzero exact exponents.
pub struct Dimensions {
    entries: Vec<(String, Rational)>,
}

impl View for Dimensions {
    type V = DimMap;

    closed spec fn view(&self) -> DimMap {
        entries_map(pairs(self.entries@))
    }
}

proof fn lemma_entries_ok_map(s: Seq<(Seq<char>, (int, int))>)
    requires
        entries_ok(s),
    ensures
        dims_ok(entries_map(s)),
{
    assert forall|k: Seq<char>| #[trigger] entries_map(s).contains_key(k) implies entries_map(s)[k].0
        != 0 && canonical(entries_map(s)[k]) && canonical_id(k) == k by {
        let i = lemma_map_key_index(s, k);
        lemma_entry_in_map(s, i);
    }
}

/// The canonical spelling of a dimension identifier.
fn canonical_key(id: &str) -> (r: String)
    ensures
        r@ == canonical_id(id@),
{
    proof {
        reveal_strlit("\u{0398}");
        reveal_strlit("\u{03b8}");
        reveal_strlit("Theta");
    }
    if str_eq(id, "\u{0398}") || str_eq(id, "\u{03b8}") {
        "Theta".to_owned()
    } else {
        id.to_owned()
    }
}

impl Dimensions {
    #[verifier::type_invariant]
    closed spec fn inv(self) -> bool {
        entries_ok(pairs(self.entries@))
    }

    /// Dimension one: no exponents.
    pub fn one() -> (r: Dimensions)
        ensures
            r@ == DimMap::empty(),
            dims_ok(r@),
    {
        let r = Dimensions { entries: Vec::new() };
        assert(pairs(r.entries@) =~= Seq::empty());
        assert(r@ =~= DimMap::empty());
        r
    }

    /// The map is well formed, and listed by some sequence of entries in
    /// increasing order of identifiers.
    pub fn well_formed(&self)
        ensures
            dims_ok(self@),
            exists|s: Seq<(Seq<char>, (int, int))>| keys_sorted(s) && #[trigger] entries_map(s) == self@,
    {
        proof {
            use_type_invariant(self);
            lemma_entries_ok_map(pairs(self.entries@));
            assert(keys_sorted(pairs(self.entries@)) && entries_map(pairs(self.entries@)) == self@);
        }
    }

}

/// Add `power` to the exponent of `id` in sorted entries.
fn insert_power(entries: &mut Vec<(String, Rational)>, id: &str, power: Rational)
    requires
        entries_ok(pairs(old(entries)@)),
    ensures
        entries_ok(pairs(final(entries)@)),
        entries_map(pairs(final(entries)@)) == dims_insert(entries_map(pairs(old(entries)@)), id@, power@),
{
    proof {
        lemma_rational_canonical(power);
    }
    let key = canonical_key(id);
    let ghost s = pairs(entries@);
    let ghost m = entries_map(s);
    let ghost k = key@;
    let mut i: usize = 0;
    while i < entries.len() && str_lt(entries[i].0.as_str(), key.as_str())
        invariant
            0 <= i <= entries.len(),
            pairs(entries@) == s,
            k == key@,
            forall|j: int| 0 <= j < i ==> seq_lt(#[trigger] s[j].0, k),
        decreases entries.len() - i,
    {
        assert(s[i as int].0 == entries@[i as int].0@);
        assert(seq_lt(s[i as int].0, k));
        i = i + 1;
    }
    proof {
        lemma_entries_ok_map(s);
        lemma_zero_canonical();
        lemma_rat_ops(power_in(m, k), power@);
    }
    if i < entries.len() && str_eq(entries[i].0.as_str(), key.as_str()) {
        proof {
            lemma_entry_in_map(s, i as int);
            assert(s[i as int].0 == k);
        }
        let total = rational_add(&entries[i].1, &power);
        if rational_is_zero(&total) {
            entries.remove(i);
            proof {
                lemma_remove_entry(s, i as int);
                assert(pairs(entries@) =~= s.remove(i as int));
            }
        } else {
            let ghost tv = total@;
            entries.set(i, (key, total));
            proof {
                lemma_update_entry(s, i as int, tv);
                assert(pairs(entries@) =~= s.update(i as int, (k, tv)));
                lemma_rational_canonical(total);
            }
        }
    } else {
        proof {
            if i < s.len() {
                assert(s[i as int].0 == entries@[i as int].0@);
                lemma_lt_total(k, s[i as int].0);
            }
            lemma_insert_entry(s, i as int, k, power@);
            lemma_zero_canonical();
            lemma_add_zero(power@);
            crate::numtheory::lemma_add_commutes(rat_zero(), power@);
        }
        if !rational_is_zero(&power) {
            let ghost pv = power@;
            entries.insert(i, (key, power));
            proof {
                assert(pairs(entries@) =~= s.insert(i as int, (k, pv)));
            }
        } else {
            assert(entries_map(pairs(entries@)) =~= m.remove(k));
        }
    }
}


/// The exponent of any key of a well-formed map is canonical.
proof fn lemma_power_canonical(m: DimMap, k: Seq<char>)
    requires
        dims_ok(m),
    ensures
        canonical(power_in(m, k)),
        power_in(m, k).0 == 0 <==> !m.contains_key(k),
{
    lemma_zero_canonical();
}

/// Multiplying by dimension one changes nothing.
proof fn lemma_mul_empty(a: DimMap)
    requires
        dims_ok(a),
    ensures
        dims_mul(a, DimMap::empty()) == a,
        dims_div(a, DimMap::empty()) == a,
{
    assert forall|k: Seq<char>| a.contains_key(k) implies rat_add(a[k], rat_zero()) == a[k]
        && rat_add(a[k], rat_neg(rat_zero())) == a[k] by {
        lemma_add_zero(a[k]);
        assert(rat_neg(rat_zero()) == rat_zero());
    }
    assert(dims_mul(a, DimMap::empty()) =~= a);
    assert(dims_div(a, DimMap::empty()) =~= a);
}

/// Adding one more exponent of `b` to a product is inserting it.
proof fn lemma_mul_step(a: DimMap, b: DimMap, k: Seq<char>, v: (int, int))
    requires
        dims_ok(a),
        !b.contains_key(k),
        canonical_id(k) == k,
        canonical(v),
        v.0 != 0,
    ensures
        dims_insert(dims_mul(a, b), k, v) == dims_mul(a, b.insert(k, v)),
        dims_insert(dims_div(a, b), k, rat_neg(v)) == dims_div(a, b.insert(k, v)),
{
    lemma_power_canonical(a, k);
    let pa = power_in(a, k);
    lemma_add_zero(pa);
    assert(rat_neg(rat_zero()) == rat_zero());
    assert(power_in(dims_mul(a, b), k) == pa);
    assert(power_in(dims_div(a, b), k) == pa);
    assert(dims_insert(dims_mul(a, b), k, v) =~= dims_mul(a, b.insert(k, v)));
    assert(dims_insert(dims_div(a, b), k, rat_neg(v)) =~= dims_div(a, b.insert(k, v)));
}

/// Raising one more exponent is inserting its power.
proof fn lemma_pow_step(a: DimMap, k: Seq<char>, v: (int, int), p: (int, int))
    requires
        !a.contains_key(k),
        canonical_id(k) == k,
        canonical(v),
        canonical(p),
    ensures
        dims_insert(dims_pow(a, p), k, rat_mul(v, p)) == dims_pow(a.insert(k, v), p),
{
    lemma_rat_ops(v, p);
    lemma_zero_canonical();
    lemma_add_zero(rat_mul(v, p));
    crate::numtheory::lemma_add_commutes(rat_zero(), rat_mul(v, p));
    assert(power_in(dims_pow(a, p), k) == rat_zero());
    assert(dims_insert(dims_pow(a, p), k, rat_mul(v, p)) =~= dims_pow(a.insert(k, v), p));
}

/// A copy of sorted entries.
fn copy_entries(v: &Vec<(String, Rational)>) -> (r: Vec<(String, Rational)>)
    ensures
        pairs(r@) == pairs(v@),
{
    let mut r: Vec<(String, Rational)> = Vec::new();
    let n = v.len();
    for i in 0..n
        invariant
            n == v.len(),
            r@.len() == i,
            pairs(r@) == pairs(v@).take(i as int),
    {
        let key = v[i].0.clone();
        let value = rational_clone(&v[i].1);
        let ghost before = r@;
        r.push((key, value));
        assert(r@ == before.push((key, value)));
        assert(key@ == v@[i as int].0@);
        assert(r@.len() == i + 1);
        assert(pairs(r@).len() == i + 1);
        assert(pairs(r@)[i as int] == (key@, value@));
        assert(pairs(v@)[i as int] == (key@, value@));
        assert forall|j: int| 0 <= j < i + 1 implies pairs(r@)[j] == pairs(v@).take(i + 1)[j] by {
            if j < i {
                assert(pairs(before)[j] == pairs(v@).take(i as int)[j]);
            }
        }
        assert(pairs(r@) =~= pairs(v@).take(i + 1));
    }
    assert(pairs(v@).take(n as int) =~= pairs(v@));
    r
}

impl Dimensions {
    /// Exponents added: the dimensions of a product.
    pub fn mul(&self, rhs: &Dimensions) -> (r: Dimensions)
        ensures
            r@ == dims_mul(self@, rhs@),
    {
        self.combine(rhs, false)
    }

    /// Exponents subtracted: the dimensions of a quotient.
    pub fn div(&self, rhs: &Dimensions) -> (r: Dimensions)
        ensures
            r@ == dims_div(self@, rhs@),
    {
        self.combine(rhs, true)
    }

    fn combine(&self, rhs: &Dimensions, subtract: bool) -> (r: Dimensions)
        ensures
            !subtract ==> r@ == dims_mul(self@, rhs@),
            subtract ==> r@ == dims_div(self@, rhs@),
    {
        proof {
            use_type_invariant(self);
            use_type_invariant(rhs);
            lemma_entries_ok_map(pairs(self.entries@));
            lemma_mul_empty(self@);
        }
        let mut entries = copy_entries(&self.entries);
        let ghost a = self@;
        let ghost b = pairs(rhs.entries@);
        let n = rhs.entries.len();
        proof {
            lemma_take_all(b);
        }
        for i in 0..n
            invariant
                n == rhs.entries.len(),
                b == pairs(rhs.entries@),
                entries_ok(b),
                dims_ok(a),
                entries_ok(pairs(entries@)),
                !subtract ==> entries_map(pairs(entries@)) == dims_mul(a, entries_map(b.take(i as int))),
                subtract ==> entries_map(pairs(entries@)) == dims_div(a, entries_map(b.take(i as int))),
        {
            let ghost k = b[i as int].0;
            let ghost v = b[i as int].1;
            let power = if subtract {
                rational_neg(&rhs.entries[i].1)
            } else {
                rational_clone(&rhs.entries[i].1)
            };
            insert_power(&mut entries, rhs.entries[i].0.as_str(), power);
            proof {
                lemma_take_entry(b, i as int);
                lemma_mul_step(a, entries_map(b.take(i as int)), k, v);
            }
        }
        proof {
            lemma_take_all(b);
        }
        Dimensions { entries }
    }

    /// Every exponent times `power`.
    pub fn pow(&self, power: &Rational) -> (r: Dimensions)
        ensures
            r@ == dims_pow(self@, power@),
    {
        proof {
            use_type_invariant(self);
            lemma_rational_canonical(*power);
        }
        let mut entries: Vec<(String, Rational)> = Vec::new();
        let ghost a = pairs(self.entries@);
        let n = self.entries.len();
        proof {
            lemma_take_all(a);
            assert(dims_pow(DimMap::empty(), power@) =~= DimMap::empty());
            assert(pairs(entries@) =~= Seq::empty());
            assert(entries_map(pairs(entries@)) =~= DimMap::empty());
        }
        for i in 0..n
            invariant
                n == self.entries.len(),
                a == pairs(self.entries@),
                entries_ok(a),
                canonical(power@),
                entries_ok(pairs(entries@)),
                entries_map(pairs(entries@)) == dims_pow(entries_map(a.take(i as int)), power@),
        {
            let value = rational_mul(&self.entries[i].1, power);
            insert_power(&mut entries, self.entries[i].0.as_str(), value);
            proof {
                lemma_take_entry(a, i as int);
                lemma_pow_step(entries_map(a.take(i as int)), a[i as int].0, a[i as int].1, power@);
            }
        }
        proof {
            lemma_take_all(a);
        }
        Dimensions { entries }
    }

    /// Dimensions from identifiers and exponents, each added in turn.
    pub fn from_rational_powers(powers: Vec<(String, Rational)>) -> (r: Dimensions)
        ensures
            r@ == powers_map(pairs(powers@)),
    {
        let mut entries: Vec<(String, Rational)> = Vec::new();
        let n = powers.len();
        proof {
            assert(pairs(entries@) =~= Seq::empty());
            assert(entries_map(pairs(entries@)) =~= DimMap::empty());
            assert(pairs(powers@).take(0) =~= Seq::empty());
        }
        for i in 0..n
            invariant
                n == powers.len(),
                entries_ok(pairs(entries@)),
                entries_map(pairs(entries@)) == powers_map(pairs(powers@).take(i as int)),
        {
            let value = rational_clone(&powers[i].1);
            insert_power(&mut entries, powers[i].0.as_str(), value);
            assert(pairs(powers@).take(i + 1).drop_last() =~= pairs(powers@).take(i as int));
        }
        assert(pairs(powers@).take(n as int) =~= pairs(powers@));
        Dimensions { entries }
    }

    /// Dimensions from identifiers and integer exponents.
    pub fn from_integer_powers(powers: Vec<(String, i64)>) -> (r: Dimensions)
        ensures
            r@ == powers_map(powers@.map_values(|e: (String, i64)| (e.0@, crate::numtheory::rat_int(e.1 as int)))),
    {
        let mut rational: Vec<(String, Rational)> = Vec::new();
        let n = powers.len();
        for i in 0..n
            invariant
                n == powers.len(),
                rational@.len() == i,
                pairs(rational@) == powers@.map_values(|e: (String, i64)| (e.0@, crate::numtheory::rat_int(e.1 as int))).take(i as int),
        {
            let value = crate::bignum::rational_from_integer(&crate::bignum::integer_from_i64(powers[i].1));
            let key = powers[i].0.clone();
            let ghost before = rational@;
            rational.push((key, value));
            assert(key@ == powers@[i as int].0@);
            assert forall|j: int| 0 <= j < i + 1 implies pairs(rational@)[j] == powers@.map_values(|e: (String, i64)| (e.0@, crate::numtheory::rat_int(e.1 as int))).take(i + 1)[j] by {
                if j < i {
                    assert(pairs(before)[j] == powers@.map_values(|e: (String, i64)| (e.0@, crate::numtheory::rat_int(e.1 as int))).take(i as int)[j]);
                }
            }
            assert(pairs(rational@) =~= powers@.map_values(|e: (String, i64)| (e.0@, crate::numtheory::rat_int(e.1 as int))).take(i + 1));
        }
        assert(powers@.map_values(|e: (String, i64)| (e.0@, crate::numtheory::rat_int(e.1 as int))).take(n as int) =~= powers@.map_values(|e: (String, i64)| (e.0@, crate::numtheory::rat_int(e.1 as int))));
        Dimensions::from_rational_powers(rational)
    }
}

/// The map that adding each exponent in turn gives, from dimension one.
pub open spec fn powers_map(s: Seq<(Seq<char>, (int, int))>) -> DimMap
    decreases s.len(),
{
    if s.len() == 0 {
        DimMap::empty()
    } else {
        dims_insert(powers_map(s.drop_last()), s.last().0, s.last().1)
    }
}



/// The position of an identifier in signature order: the SI base dimensions
/// `M L T I Theta N J` first, every other identifier after them.
pub open spec fn sig_rank(k: Seq<char>) -> nat {
    if k == "M"@ {
        0
    } else if k == "L"@ {
        1
    } else if k == "T"@ {
        2
    } else if k == "I"@ {
        3
    } else if k == "Theta"@ {
        4
    } else if k == "N"@ {
        5
    } else if k == "J"@ {
        6
    } else {
        7
    }
}

/// The entries of one signature rank, in their order.
pub open spec fn ranked(s: Seq<(Seq<char>, (int, int))>, r: nat) -> Seq<(Seq<char>, (int, int))>
    decreases s.len(),
{
    if s.len() == 0 {
        Seq::empty()
    } else if sig_rank(s.last().0) == r {
        ranked(s.drop_last(), r).push(s.last())
    } else {
        ranked(s.drop_last(), r)
    }
}

/// The entries of the ranks below `r`, rank by rank.
pub open spec fn sig_order_upto(s: Seq<(Seq<char>, (int, int))>, r: nat) -> Seq<(Seq<char>, (int, int))>
    decreases r,
{
    if r == 0 {
        Seq::empty()
    } else {
        sig_order_upto(s, (r - 1) as nat) + ranked(s, (r - 1) as nat)
    }
}

/// The entries of a map in identifier order.
pub open spec fn sorted_entries(m: DimMap) -> Seq<(Seq<char>, (int, int))> {
    choose|s: Seq<(Seq<char>, (int, int))>| keys_sorted(s) && entries_map(s) == m
}

/// Nonzero exponents in signature order: SI bases first, in their order, then
/// every other identifier in `String` order.
pub open spec fn signature_powers(m: DimMap) -> Seq<(Seq<char>, (int, int))> {
    sig_order_upto(sorted_entries(m), 8)
}

pub open spec fn entry_text(e: (Seq<char>, (int, int))) -> Seq<char> {
    e.0 + ":"@ + rat_text(e.1)
}

/// Entry texts joined by commas.
pub open spec fn joined(s: Seq<(Seq<char>, (int, int))>) -> Seq<char>
    decreases s.len(),
{
    if s.len() == 0 {
        Seq::empty()
    } else if s.len() == 1 {
        entry_text(s[0])
    } else {
        joined(s.drop_last()) + ","@ + entry_text(s.last())
    }
}

/// The canonical signature: `1` for dimension one, else `id:power` entries in
/// signature order, joined by commas.
pub open spec fn dims_signature(m: DimMap) -> Seq<char> {
    if m.dom() == Set::<Seq<char>>::empty() {
        "1"@
    } else {
        joined(signature_powers(m))
    }
}

/// The rank of an identifier in signature order.
fn signature_rank(id: &str) -> (r: usize)
    ensures
        r == sig_rank(id@),
{
    proof {
        reveal_strlit("M");
        reveal_strlit("L");
        reveal_strlit("T");
        reveal_strlit("I");
        reveal_strlit("Theta");
        reveal_strlit("N");
        reveal_strlit("J");
    }
    if str_eq(id, "M") {
        0
    } else if str_eq(id, "L") {
        1
    } else if str_eq(id, "T") {
        2
    } else if str_eq(id, "I") {
        3
    } else if str_eq(id, "Theta") {
        4
    } else if str_eq(id, "N") {
        5
    } else if str_eq(id, "J") {
        6
    } else {
        7
    }
}

/// The text of an exponent.
pub fn rational_string(p: &Rational) -> (r: String)
    ensures
        r@ == rat_text(p@),
{
    let mut text = integer_text(&rational_numer(p));
    if !rational_is_integer(p) {
        proof {
            reveal_strlit("/");
        }
        string_push_str(&mut text, "/");
        let denominator = integer_text(&rational_denom(p));
        string_push_str(&mut text, denominator.as_str());
    }
    text
}

impl Dimensions {
    proof fn lemma_sorted_entries(&self)
        requires
            entries_ok(pairs(self.entries@)),
        ensures
            sorted_entries(self@) == pairs(self.entries@),
    {
        let s = pairs(self.entries@);
        assert(keys_sorted(s) && entries_map(s) == self@);
        let t = sorted_entries(self@);
        lemma_sorted_unique(t, s);
    }

    /// The exponent of an identifier (as spelled, not canonicalized); zero
    /// where it is absent.
    pub fn power(&self, id: &str) -> (r: Rational)
        ensures
            r@ == power_in(self@, id@),
    {
        proof {
            use_type_invariant(self);
        }
        let ghost s = pairs(self.entries@);
        let n = self.entries.len();
        for i in 0..n
            invariant
                n == self.entries.len(),
                s == pairs(self.entries@),
                entries_ok(s),
                forall|j: int| 0 <= j < i ==> (#[trigger] s[j]).0 != id@,
        {
            assert(s[i as int] == (self.entries@[i as int].0@, self.entries@[i as int].1@));
            if str_eq(self.entries[i].0.as_str(), id) {
                proof {
                    lemma_entry_in_map(s, i as int);
                }
                return rational_clone(&self.entries[i].1);
            }
        }
        proof {
            if entries_map(s).contains_key(id@) {
                let j = lemma_map_key_index(s, id@);
            }
        }
        rational_zero()
    }

    /// The identifiers with nonzero exponents, in increasing order.
    pub fn ids(&self) -> (r: Vec<String>)
        ensures
            forall|k: Seq<char>| self@.contains_key(k) <==> crate::error::texts(r@).contains(k),
            forall|i: int, j: int|
                0 <= i < j < r.len() ==> seq_lt(#[trigger] r@[i]@, #[trigger] r@[j]@),
    {
        proof {
            use_type_invariant(self);
        }
        let ghost s = pairs(self.entries@);
        let mut r: Vec<String> = Vec::new();
        let n = self.entries.len();
        for i in 0..n
            invariant
                n == self.entries.len(),
                s == pairs(self.entries@),
                entries_ok(s),
                r.len() == i,
                forall|j: int| 0 <= j < i ==> (#[trigger] r@[j])@ == s[j].0,
        {
            assert(s[i as int] == (self.entries@[i as int].0@, self.entries@[i as int].1@));
            r.push(self.entries[i].0.clone());
        }
        proof {
            assert forall|k: Seq<char>| self@.contains_key(k) <==> crate::error::texts(r@).contains(k) by {
                if self@.contains_key(k) {
                    let j = lemma_map_key_index(s, k);
                    assert(crate::error::texts(r@)[j] == k);
                }
                if crate::error::texts(r@).contains(k) {
                    let j = choose|j: int| 0 <= j < r.len() && crate::error::texts(r@)[j] == k;
                    assert(r@[j]@ == s[j].0);
                    lemma_entry_in_map(s, j);
                }
            }
            assert forall|i: int, j: int| 0 <= i < j < r.len() implies seq_lt(#[trigger] r@[i]@, #[trigger] r@[j]@) by {
                assert(r@[i]@ == s[i].0 && r@[j]@ == s[j].0);
            }
        }
        r
    }

    /// Whether this is dimension one.
    pub fn is_one(&self) -> (r: bool)
        ensures
            r == (self@ == DimMap::empty()),
    {
        proof {
            use_type_invariant(self);
        }
        if self.entries.len() == 0 {
            assert(pairs(self.entries@) =~= Seq::empty());
            assert(self@ =~= DimMap::empty());
            true
        } else {
            proof {
                lemma_entry_in_map(pairs(self.entries@), 0);
            }
            false
        }
    }

    /// Nonzero exponents in signature order: the SI base dimensions first, then
    /// any other identifier in `String` order.
    pub fn powers(&self) -> (r: Vec<(String, Rational)>)
        ensures
            pairs(r@) == signature_powers(self@),
    {
        proof {
            use_type_invariant(self);
            self.lemma_sorted_entries();
        }
        let ghost s = pairs(self.entries@);
        let n = self.entries.len();
        let mut r: Vec<(String, Rational)> = Vec::new();
        assert(pairs(r@) =~= sig_order_upto(s, 0));
        for rank in 0..8usize
            invariant
                n == self.entries.len(),
                s == pairs(self.entries@),
                pairs(r@) == sig_order_upto(s, rank as nat),
        {
            let ghost start = r@;
            assert(s.take(0) =~= Seq::empty());
            assert(ranked(s.take(0), rank as nat) =~= Seq::empty());
            for i in 0..n
                invariant
                    n == self.entries.len(),
                    s == pairs(self.entries@),
                    pairs(start) == sig_order_upto(s, rank as nat),
                    pairs(r@) == pairs(start) + ranked(s.take(i as int), rank as nat),
            {
                assert(s.take(i + 1).drop_last() =~= s.take(i as int));
                assert(s[i as int] == (self.entries@[i as int].0@, self.entries@[i as int].1@));
                if signature_rank(self.entries[i].0.as_str()) == rank {
                    let key = self.entries[i].0.clone();
                    let value = rational_clone(&self.entries[i].1);
                    let ghost before = r@;
                    r.push((key, value));
                    assert(pairs(r@) =~= pairs(before).push(s[i as int]));
                }
            }
            assert(s.take(n as int) =~= s);
        }
        r
    }

    /// The canonical signature, such as `M:1,L:1,T:-2` or `1`.
    pub fn signature(&self) -> (r: String)
        ensures
            r@ == dims_signature(self@),
    {
        proof {
            reveal_strlit("1");
            reveal_strlit(",");
            reveal_strlit(":");
        }
        if self.is_one() {
            assert(self@.dom() =~= Set::<Seq<char>>::empty());
            return "1".to_owned();
        }
        let powers = self.powers();
        let ghost ps = pairs(powers@);
        let mut text = String::new();
        let n = powers.len();
        for i in 0..n
            invariant
                n == powers.len(),
                ps == pairs(powers@),
                text@ == joined(ps.take(i as int)),
        {
            assert(ps.take(i + 1).drop_last() =~= ps.take(i as int));
            assert(ps[i as int] == (powers@[i as int].0@, powers@[i as int].1@));
            if i > 0 {
                string_push_str(&mut text, ",");
            }
            string_push_str(&mut text, powers[i].0.as_str());
            string_push_str(&mut text, ":");
            let power = rational_string(&powers[i].1);
            string_push_str(&mut text, power.as_str());
            proof {
                if i == 0 {
                    assert(ps.take(1) =~= seq![ps[0]]);
                }
            }
        }
        assert(ps.take(n as int) =~= ps);
        assert(self@.dom() != Set::<Seq<char>>::empty()) by {
            if self@.dom() =~= Set::<Seq<char>>::empty() {
                assert(self@ =~= DimMap::empty());
            }
        }
        text
    }
}


/// Why a text is not a dimension signature.
#[derive(Clone, Debug, PartialEq)]
pub enum DimensionError {
    /// A component without `:`.
    InvalidSignature(String),
    /// An exponent that is not an integer or a ratio with nonzero denominator.
    InvalidPower { text: String, source: ParseRatioError },
}

/// A signature component `id:power`, split at its last `:`.
pub open spec fn part_power(part: Seq<char>) -> Option<(Seq<char>, (int, int))> {
    match rfind_char(part, ':') {
        None => None,
        Some(i) => match parse_ratio(part.skip(i + 1)) {
            Some(p) => Some((part.take(i), p)),
            None => None,
        },
    }
}

/// The fault of a component that `part_power` refuses.
pub open spec fn part_error(part: Seq<char>, e: DimensionError) -> bool {
    match rfind_char(part, ':') {
        None => e matches DimensionError::InvalidSignature(t) && t@ == part,
        Some(i) => e matches DimensionError::InvalidPower { text, .. } && text@ == part.skip(i + 1),
    }
}

/// The dimensions the components give, each added in turn.
pub open spec fn parts_map(parts: Seq<Seq<char>>) -> DimMap
    decreases parts.len(),
{
    if parts.len() == 0 {
        DimMap::empty()
    } else {
        let e = part_power(parts.last())->0;
        dims_insert(parts_map(parts.drop_last()), e.0, e.1)
    }
}

/// Whether a signature parses: `1`, or comma-separated components that each do.
pub open spec fn signature_parses(s: Seq<char>) -> bool {
    s == "1"@ || forall|i: int|
        0 <= i < split_on(s, ',').len() ==> (#[trigger] part_power(split_on(s, ',')[i])) is Some
}

/// The dimensions a signature that parses denotes.
pub open spec fn signature_map(s: Seq<char>) -> DimMap {
    if s == "1"@ {
        DimMap::empty()
    } else {
        parts_map(split_on(s, ','))
    }
}

/// The fault of a signature that does not parse: that of its first component
/// that does not.
pub open spec fn signature_error(s: Seq<char>, e: DimensionError) -> bool {
    let parts = split_on(s, ',');
    exists|i: int|
        0 <= i < parts.len() && (forall|j: int| 0 <= j < i ==> (#[trigger] part_power(parts[j])) is Some)
            && part_power(parts[i]) is None && part_error(parts[i], e)
}

/// The characters of `v` from `from` up to `to`.
pub(crate) fn chars_between(v: &Vec<char>, from: usize, to: usize) -> (r: Vec<char>)
    requires
        from <= to <= v.len(),
    ensures
        r@ == v@.subrange(from as int, to as int),
{
    let mut r: Vec<char> = Vec::new();
    let mut i = from;
    while i < to
        invariant
            from <= i <= to <= v.len(),
            r@ == v@.subrange(from as int, i as int),
        decreases to - i,
    {
        r.push(v[i]);
        i = i + 1;
        assert(r@ =~= v@.subrange(from as int, i as int));
    }
    r
}

/// The pieces of `s` between commas.
pub(crate) fn split_commas(s: &Vec<char>) -> (r: Vec<Vec<char>>)
    ensures
        r@.map_values(|p: Vec<char>| p@) == split_on(s@, ','),
{
    let mut parts: Vec<Vec<char>> = Vec::new();
    let mut current: Vec<char> = Vec::new();
    let n = s.len();
    assert(s@.take(0) =~= Seq::<char>::empty());
    assert(parts@.map_values(|p: Vec<char>| p@).push(current@) =~= split_on(s@.take(0), ','));
    for i in 0..n
        invariant
            n == s.len(),
            parts@.map_values(|p: Vec<char>| p@).push(current@) == split_on(s@.take(i as int), ','),
    {
        assert(s@.take(i + 1).drop_last() =~= s@.take(i as int));
        let ghost before = parts@.map_values(|p: Vec<char>| p@).push(current@);
        if s[i] == ',' {
            let done = current;
            parts.push(done);
            current = Vec::new();
            assert(parts@.map_values(|p: Vec<char>| p@).push(current@) =~= before.push(Seq::<char>::empty()));
        } else {
            current.push(s[i]);
            assert(parts@.map_values(|p: Vec<char>| p@).push(current@) =~= before.update(before.len() - 1, before.last().push(s@[i as int])));
        }
    }
    parts.push(current);
    assert(s@.take(n as int) =~= s@);
    assert(parts@.map_values(|p: Vec<char>| p@) =~= split_on(s@, ','));
    parts
}

/// One component `id:power`.
fn parse_part(part: &Vec<char>) -> (r: Result<(String, Rational), DimensionError>)
    ensures
        part_power(part@) is Some <==> r is Ok,
        r matches Ok(x) ==> (x.0@, x.1@) == part_power(part@)->0,
        r matches Err(e) ==> part_error(part@, e),
{
    let mut i = part.len();
    assert(part@.take(i as int) =~= part@);
    while i > 0 && part[i - 1] != ':'
        invariant
            i <= part.len(),
            rfind_char(part@, ':') == rfind_char(part@.take(i as int), ':'),
        decreases i,
    {
        assert(part@.take(i as int).drop_last() =~= part@.take(i - 1));
        i = i - 1;
    }
    if i == 0 {
        assert(part@.take(0) =~= Seq::<char>::empty());
        return Err(DimensionError::InvalidSignature(string_from_chars(part.as_slice())));
    }
    assert(part@.take(i as int).last() == ':');
    let colon = i - 1;
    let id = string_from_chars(chars_between(part, 0, colon).as_slice());
    let text = string_from_chars(chars_between(part, i, part.len()).as_slice());
    assert(part@.subrange(0, colon as int) =~= part@.take(colon as int));
    assert(part@.subrange(i as int, part@.len() as int) =~= part@.skip(i as int));
    match rational_parse(text.as_str()) {
        Ok(power) => Ok((id, power)),
        Err(source) => Err(DimensionError::InvalidPower { text, source }),
    }
}

impl Dimensions {
    /// The dimensions a signature names: `1`, or comma-separated `id:power`
    /// components, each split at its last `:`, whose powers add.
    pub fn parse_signature(value: &str) -> (r: Result<Dimensions, DimensionError>)
        ensures
            r is Ok <==> signature_parses(value@),
            r matches Ok(d) ==> d@ == signature_map(value@),
            r matches Err(e) ==> signature_error(value@, e),
    {
        proof {
            reveal_strlit("1");
        }
        if str_eq(value, "1") {
            let one = Dimensions::one();
            return Ok(one);
        }
        let chars = chars_of(value);
        let parts = split_commas(&chars);
        let ghost ps = split_on(value@, ',');
        let mut entries: Vec<(String, Rational)> = Vec::new();
        let n = parts.len();
        assert(ps.take(0) =~= Seq::<Seq<char>>::empty());
        assert(pairs(entries@) =~= Seq::empty());
        assert(entries_map(pairs(entries@)) =~= DimMap::empty());
        for i in 0..n
            invariant
                n == parts.len(),
                ps == parts@.map_values(|p: Vec<char>| p@),
                ps == split_on(value@, ','),
                value@ != "1"@,
                entries_ok(pairs(entries@)),
                entries_map(pairs(entries@)) == parts_map(ps.take(i as int)),
                forall|j: int| 0 <= j < i ==> (#[trigger] part_power(ps[j])) is Some,
        {
            assert(ps[i as int] == parts@[i as int]@);
            match parse_part(&parts[i]) {
                Ok(entry) => {
                    let (id, power) = entry;
                    insert_power(&mut entries, id.as_str(), power);
                    assert(ps.take(i + 1).drop_last() =~= ps.take(i as int));
                    assert(ps.take(i + 1).last() == ps[i as int]);
                },
                Err(e) => {
                    assert(signature_error(value@, e));
                    return Err(e);
                },
            }
        }
        assert(ps.take(n as int) =~= ps);
        Ok(Dimensions { entries })
    }
}

impl Clone for Dimensions {
    fn clone(&self) -> (r: Self)
        ensures
            r@ == self@,
    {
        proof {
            use_type_invariant(self);
        }
        Dimensions { entries: copy_entries(&self.entries) }
    }
}

impl PartialEq for Dimensions {
    fn eq(&self, other: &Self) -> (r: bool) {
        proof {
            use_type_invariant(self);
            use_type_invariant(other);
        }
        let ghost s = pairs(self.entries@);
        let ghost t = pairs(other.entries@);
        if self.entries.len() != other.entries.len() {
            proof {
                assert(s.len() != t.len());
                if entries_map(s) == entries_map(t) {
                    lemma_sorted_unique(s, t);
                }
            }
            return false;
        }
        let n = self.entries.len();
        for i in 0..n
            invariant
                n == self.entries.len(),
                n == other.entries.len(),
                s == pairs(self.entries@),
                t == pairs(other.entries@),
                entries_ok(s),
                entries_ok(t),
                forall|j: int| 0 <= j < i ==> s[j] == t[j],
        {
            assert(s[i as int] == (self.entries@[i as int].0@, self.entries@[i as int].1@));
            assert(t[i as int] == (other.entries@[i as int].0@, other.entries@[i as int].1@));
            if !str_eq(self.entries[i].0.as_str(), other.entries[i].0.as_str())
                || !rational_eq(&self.entries[i].1, &other.entries[i].1) {
                proof {
                    if entries_map(s) == entries_map(t) {
                        lemma_sorted_unique(s, t);
                    }
                }
                return false;
            }
        }
        assert(s =~= t);
        assert(self@ == other@);
        true
    }
}

impl Eq for Dimensions {
}

impl vstd::std_specs::cmp::PartialEqSpecImpl for Dimensions {
    open spec fn obeys_eq_spec() -> bool {
        true
    }

    open spec fn eq_spec(&self, other: &Self) -> bool {
        self@ == other@
    }
}

} // verus!

verus! {

impl core::fmt::Debug for Dimensions {
    /// Writes the dimensions as a tuple struct around the map from
    /// identifiers to exponents, in identifier order.
    #[verifier::external_body]
    fn fmt(&self, f: &mut core::fmt::Formatter<'_>) -> core::fmt::Result {
        let map: std::collections::BTreeMap<&String, &Rational> = self.entries.iter().map(|(k, v)| (k, v)).collect();
        f.debug_tuple("Dimensions").field(&map).finish()
    }
}

} // verus!
