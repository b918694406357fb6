//! Exact scalars `rational * pi^exponent`, and exact values: finite sums of
//! them, one term per power of pi.
use crate::bignum::{
    integer_add, integer_clone, integer_eq, integer_from_i64, integer_is_zero, integer_lt,
    integer_neg, integer_parse, integer_sub, integer_text, lemma_rational_canonical, parse_ratio,
    rational_add, rational_clone, rational_div, rational_eq, rational_is_zero, rational_mul,
    rational_neg, rational_one, rational_parse, rational_zero, Integer, Rational,
};
use crate::dimension::rational_string;
use crate::error::{QuantityError, QuantityErrorView};
use crate::numtheory::{
    canonical, lemma_add_commutes, lemma_add_zero, lemma_rat_ops, lemma_zero_canonical, rat_add,
    rat_div, rat_int, rat_mul, rat_neg, rat_sub, rat_zero,
};
use crate::ordered_int::{
    entries_map_int, keys_sorted_int, lemma_entry_in_map_int, lemma_insert_entry_int,
    lemma_map_key_index_int, lemma_remove_entry_int, lemma_sorted_unique_int, lemma_take_all_int,
    lemma_take_entry_int, lemma_update_entry_int,
};
use crate::strings::{chars_of, string_from_chars, string_push_str};
use crate::text::{find_seq, int_text, lemma_find_seq_from, lemma_find_seq_here, occurs_at, parse_int, rat_text};
use num_bigint::{BigInt, ParseBigIntError};
use num_rational::ParseRatioError;
use vstd::prelude::*;

verus! {

/// `rational * pi^pi_exponent`, exactly.
pub struct ExactScalar {
    pub rational: Rational,
    pub pi_exponent: Integer,
}

/// An exact scalar as its coefficient and power of pi.
pub type ScalarModel = ((int, int), int);

impl View for ExactScalar {
    type V = ScalarModel;

    open spec fn view(&self) -> ScalarModel {
        (self.rational@, self.pi_exponent@)
    }
}

/// Which part of a scalar's text is not a number.
#[derive(Clone, Debug, PartialEq)]
pub enum ScalarError {
    Coefficient { text: String, source: ParseRatioError },
    PiExponent { text: String, source: ParseBigIntError },
}

pub open spec fn scalar_one() -> ScalarModel {
    (rat_int(1), 0)
}

pub open spec fn scalar_zero() -> ScalarModel {
    (rat_zero(), 0)
}

pub open spec fn scalar_mul(a: ScalarModel, b: ScalarModel) -> ScalarModel {
    (rat_mul(a.0, b.0), a.1 + b.1)
}

pub open spec fn scalar_div(a: ScalarModel, b: ScalarModel) -> ScalarModel {
    (rat_div(a.0, b.0), a.1 - b.1)
}

/// The text of a scalar: its coefficient, then `*pi^e` unless `e` is zero.
pub open spec fn scalar_text(a: ScalarModel) -> Seq<char> {
    if a.1 == 0 {
        rat_text(a.0)
    } else {
        rat_text(a.0) + "*pi^"@ + int_text(a.1)
    }
}

/// How a scalar's text reads: a coefficient, optionally followed by `*pi^`
/// and an integer exponent; `Err(true)` when the exponent is not an integer,
/// `Err(false)` when the coefficient is not a rational.
pub open spec fn scalar_parse(s: Seq<char>) -> Result<ScalarModel, bool> {
    match find_seq(s, "*pi^"@) {
        Some(i) => match parse_int(s.skip(i + 4)) {
            None => Err(true),
            Some(e) => match parse_ratio(s.take(i)) {
                None => Err(false),
                Some(r) => Ok((r, e)),
            },
        },
        None => match parse_ratio(s) {
            None => Err(false),
            Some(r) => Ok((r, 0)),
        },
    }
}

/// The `*pi^` marker's first position in `s`.
fn find_pi_marker(s: &Vec<char>) -> (r: Option<usize>)
    ensures
        r matches Some(i) ==> find_seq(s@, "*pi^"@) == Some(i as int) && i + 4 <= s@.len(),
        r is None ==> find_seq(s@, "*pi^"@) is None,
{
    proof {
        reveal_strlit("*pi^");
    }
    let ghost p = "*pi^"@;
    assert(p =~= seq!['*', 'p', 'i', '^']);
    let n = s.len();
    if n < 4 {
        proof {
            lemma_find_seq_from(s@, p, 0);
            assert(s@.skip(0) =~= s@);
        }
        return None;
    }
    let mut i: usize = 0;
    while i <= n - 4
        invariant
            n == s.len(),
            n >= 4,
            p == "*pi^"@,
            p =~= seq!['*', 'p', 'i', '^'],
            i <= n - 3,
            forall|j: int| 0 <= j < i ==> !occurs_at(s@, p, j),
        decreases n - i,
    {
        if s[i] == '*' && s[i + 1] == 'p' && s[i + 2] == 'i' && s[i + 3] == '^' {
            proof {
                assert(s@.subrange(i as int, i + 4) =~= p);
                lemma_find_seq_from(s@, p, i as int);
                assert(s@.skip(i as int).subrange(0, 4) =~= p);
                lemma_find_seq_here(s@.skip(i as int), p);
            }
            return Some(i);
        }
        proof {
            assert(!occurs_at(s@, p, i as int)) by {
                if occurs_at(s@, p, i as int) {
                    assert(s@.subrange(i as int, i + 4)[0] == s@[i as int]);
                    assert(s@.subrange(i as int, i + 4)[1] == s@[i + 1]);
                    assert(s@.subrange(i as int, i + 4)[2] == s@[i + 2]);
                    assert(s@.subrange(i as int, i + 4)[3] == s@[i + 3]);
                }
            }
        }
        i = i + 1;
    }
    proof {
        assert forall|j: int| 0 <= j <= s@.len() implies !occurs_at(s@, p, j) by {
            if j >= i {
                assert(j + p.len() > s@.len());
            }
        }
        lemma_find_seq_from(s@, p, s@.len() as int);
        assert(s@.skip(s@.len() as int).len() == 0);
    }
    None
}

/// The characters of `v` from `from` up to `to`.
fn chars_range(v: &Vec<char>, from: usize, to: usize) -> (r: Vec<char>)
    requires
        from <= to <= v.len(),
    ensures
        r@ == v@.subrange(from as int, to as int),
{
    let mut r: Vec<char> = Vec::new();
    let mut i = from;
    while i < to
        invariant
            from <= i <= to <= v.len(),
            r@ == v@.subrange(from as int, i as int),
        decreases to - i,
    {
        r.push(v[i]);
        i = i + 1;
        assert(r@ =~= v@.subrange(from as int, i as int));
    }
    r
}

impl ExactScalar {
    pub fn one() -> (r: ExactScalar)
        ensures
            r@ == scalar_one(),
    {
        ExactScalar { rational: rational_one(), pi_exponent: integer_from_i64(0) }
    }

    pub fn zero() -> (r: ExactScalar)
        ensures
            r@ == scalar_zero(),
    {
        ExactScalar { rational: rational_zero(), pi_exponent: integer_from_i64(0) }
    }

    /// A scalar written as `coefficient` or `coefficient*pi^exponent`. The
    /// exponent is read first, so a text with both parts invalid names it.
    pub fn parse(value: &str) -> (r: Result<ExactScalar, ScalarError>)
        ensures
            scalar_parse(value@) is Ok ==> (r matches Ok(v) && v@ == scalar_parse(value@)->Ok_0),
            scalar_parse(value@) == Err::<ScalarModel, bool>(true) ==> (r matches Err(
                ScalarError::PiExponent { text, .. },
            ) && text@ == value@),
            scalar_parse(value@) == Err::<ScalarModel, bool>(false) ==> (r matches Err(
                ScalarError::Coefficient { text, .. },
            ) && text@ == value@),
    {
        let chars = chars_of(value);
        match find_pi_marker(&chars) {
            Some(i) => {
                let exponent_text = string_from_chars(chars_range(&chars, i + 4, chars.len()).as_slice());
                let coefficient_text = string_from_chars(chars_range(&chars, 0, i).as_slice());
                assert(chars@.subrange(i + 4, chars@.len() as int) =~= value@.skip(i + 4));
                assert(chars@.subrange(0, i as int) =~= value@.take(i as int));
                let pi_exponent = match integer_parse(exponent_text.as_str()) {
                    Ok(e) => e,
                    Err(source) => {
                        return Err(ScalarError::PiExponent { text: value.to_owned(), source });
                    },
                };
                match rational_parse(coefficient_text.as_str()) {
                    Ok(rational) => Ok(ExactScalar { rational, pi_exponent }),
                    Err(source) => Err(ScalarError::Coefficient { text: value.to_owned(), source }),
                }
            },
            None => match rational_parse(value) {
                Ok(rational) => Ok(ExactScalar { rational, pi_exponent: integer_from_i64(0) }),
                Err(source) => Err(ScalarError::Coefficient { text: value.to_owned(), source }),
            },
        }
    }

    /// The product: coefficients multiply, powers of pi add.
    pub fn multiply(&self, rhs: &ExactScalar) -> (r: ExactScalar)
        ensures
            r@ == scalar_mul(self@, rhs@),
    {
        ExactScalar {
            rational: rational_mul(&self.rational, &rhs.rational),
            pi_exponent: integer_add(&self.pi_exponent, &rhs.pi_exponent),
        }
    }

    /// The quotient, none for a zero divisor.
    pub fn divide(&self, rhs: &ExactScalar) -> (r: Option<ExactScalar>)
        ensures
            rhs.rational@.0 == 0 ==> r is None,
            rhs.rational@.0 != 0 ==> (r matches Some(q) && q@ == scalar_div(self@, rhs@)),
    {
        if rational_is_zero(&rhs.rational) {
            None
        } else {
            Some(
                ExactScalar {
                    rational: rational_div(&self.rational, &rhs.rational),
                    pi_exponent: integer_sub(&self.pi_exponent, &rhs.pi_exponent),
                },
            )
        }
    }

    /// The scalar's text, as `parse` reads it.
    pub fn encoded(&self) -> (r: String)
        ensures
            r@ == scalar_text(self@),
    {
        let mut text = rational_string(&self.rational);
        if !integer_is_zero(&self.pi_exponent) {
            proof {
                reveal_strlit("*pi^");
            }
            string_push_str(&mut text, "*pi^");
            let exponent = integer_text(&self.pi_exponent);
            string_push_str(&mut text, exponent.as_str());
        }
        text
    }
}

impl Clone for ExactScalar {
    fn clone(&self) -> (r: Self)
        ensures
            r@ == self@,
    {
        ExactScalar {
            rational: rational_clone(&self.rational),
            pi_exponent: integer_clone(&self.pi_exponent),
        }
    }
}

impl PartialEq for ExactScalar {
    fn eq(&self, other: &Self) -> (r: bool) {
        rational_eq(&self.rational, &other.rational) && integer_eq(
            &self.pi_exponent,
            &other.pi_exponent,
        )
    }
}

impl Eq for ExactScalar {
}

impl vstd::std_specs::cmp::PartialEqSpecImpl for ExactScalar {
    open spec fn obeys_eq_spec() -> bool {
        true
    }

    open spec fn eq_spec(&self, other: &Self) -> bool {
        self@ == other@
    }
}


/// The models of a sequence of scalars.
pub open spec fn scalar_views(s: Seq<ExactScalar>) -> Seq<ScalarModel> {
    s.map_values(|x: ExactScalar| x@)
}

/// A finite sum of rational multiples of powers of pi, as a map from the
/// power of pi to its nonzero coefficient.
pub type ValueMap = Map<int, (int, int)>;

/// Terms as powers of pi and coefficients.
pub open spec fn tpairs(s: Seq<(Integer, Rational)>) -> Seq<(int, (int, int))> {
    s.map_values(|e: (Integer, Rational)| (e.0@, e.1@))
}

/// Sorted terms with nonzero coefficients in lowest terms.
pub open spec fn terms_ok(s: Seq<(int, (int, int))>) -> bool {
    &&& keys_sorted_int(s)
    &&& forall|i: int| 0 <= i < s.len() ==> (#[trigger] s[i]).1.0 != 0 && canonical(s[i].1)
}

/// A well-formed value map.
pub open spec fn value_ok(m: ValueMap) -> bool {
    forall|k: int| #[trigger] m.contains_key(k) ==> m[k].0 != 0 && canonical(m[k])
}

/// The coefficient of `pi^k`, zero where it is absent.
pub open spec fn coeff_in(m: ValueMap, k: int) -> (int, int) {
    if m.contains_key(k) {
        m[k]
    } else {
        rat_zero()
    }
}

/// Adding one term; a coefficient that becomes zero leaves.
pub open spec fn value_add_term(m: ValueMap, x: ScalarModel) -> ValueMap {
    let v = rat_add(coeff_in(m, x.1), x.0);
    if v.0 == 0 {
        m.remove(x.1)
    } else {
        m.insert(x.1, v)
    }
}

pub open spec fn value_add(a: ValueMap, b: ValueMap) -> ValueMap {
    Map::new(
        |k: int| (a.contains_key(k) || b.contains_key(k)) && rat_add(coeff_in(a, k), coeff_in(b, k)).0 != 0,
        |k: int| rat_add(coeff_in(a, k), coeff_in(b, k)),
    )
}

pub open spec fn value_sub(a: ValueMap, b: ValueMap) -> ValueMap {
    Map::new(
        |k: int| (a.contains_key(k) || b.contains_key(k)) && rat_sub(coeff_in(a, k), coeff_in(b, k)).0 != 0,
        |k: int| rat_sub(coeff_in(a, k), coeff_in(b, k)),
    )
}

/// Every term times `x`: coefficients multiply, powers of pi shift.
pub open spec fn value_mul_scalar(a: ValueMap, x: ScalarModel) -> ValueMap {
    Map::new(
        |k: int| a.contains_key(k - x.1) && rat_mul(a[k - x.1], x.0).0 != 0,
        |k: int| rat_mul(a[k - x.1], x.0),
    )
}

/// Every term divided by `x` (with a nonzero coefficient).
pub open spec fn value_div_scalar(a: ValueMap, x: ScalarModel) -> ValueMap {
    Map::new(
        |k: int| a.contains_key(k + x.1) && rat_div(a[k + x.1], x.0).0 != 0,
        |k: int| rat_div(a[k + x.1], x.0),
    )
}

/// The value that adding terms in turn gives, from zero.
pub open spec fn terms_value(s: Seq<ScalarModel>) -> ValueMap
    decreases s.len(),
{
    if s.len() == 0 {
        ValueMap::empty()
    } else {
        value_add_term(terms_value(s.drop_last()), s.last())
    }
}

/// The terms of a value in increasing power of pi.
pub open spec fn sorted_terms(m: ValueMap) -> Seq<(int, (int, int))> {
    choose|s: Seq<(int, (int, int))>| keys_sorted_int(s) && entries_map_int(s) == m
}

/// A value's terms as scalars, in increasing power of pi.
pub open spec fn value_terms(m: ValueMap) -> Seq<ScalarModel> {
    sorted_terms(m).map_values(|e: (int, (int, int))| (e.1, e.0))
}

/// A finite sum of rational multiples of powers of pi.
pub struct ExactValue {
    terms: Vec<(Integer, Rational)>,
}

impl View for ExactValue {
    type V = ValueMap;

    closed spec fn view(&self) -> ValueMap {
        entries_map_int(tpairs(self.terms@))
    }
}

proof fn lemma_terms_ok_map(s: Seq<(int, (int, int))>)
    requires
        terms_ok(s),
    ensures
        value_ok(entries_map_int(s)),
{
    assert forall|k: int| #[trigger] entries_map_int(s).contains_key(k) implies entries_map_int(s)[k].0
        != 0 && canonical(entries_map_int(s)[k]) by {
        let i = lemma_map_key_index_int(s, k);
        lemma_entry_in_map_int(s, i);
    }
}

proof fn lemma_coeff_canonical(m: ValueMap, k: int)
    requires
        value_ok(m),
    ensures
        canonical(coeff_in(m, k)),
        coeff_in(m, k).0 == 0 <==> !m.contains_key(k),
{
    lemma_zero_canonical();
}

/// Add the term `coefficient * pi^exponent` to sorted terms.
fn add_term(terms: &mut Vec<(Integer, Rational)>, exponent: Integer, coefficient: Rational)
    requires
        terms_ok(tpairs(old(terms)@)),
    ensures
        terms_ok(tpairs(final(terms)@)),
        entries_map_int(tpairs(final(terms)@)) == value_add_term(
            entries_map_int(tpairs(old(terms)@)),
            (coefficient@, exponent@),
        ),
{
    proof {
        lemma_rational_canonical(coefficient);
    }
    let ghost s = tpairs(terms@);
    let ghost m = entries_map_int(s);
    let ghost k = exponent@;
    let mut i: usize = 0;
    while i < terms.len() && integer_lt(&terms[i].0, &exponent)
        invariant
            0 <= i <= terms.len(),
            tpairs(terms@) == s,
            k == exponent@,
            forall|j: int| 0 <= j < i ==> #[trigger] s[j].0 < k,
        decreases terms.len() - i,
    {
        assert(s[i as int].0 == terms@[i as int].0@);
        i = i + 1;
    }
    proof {
        lemma_terms_ok_map(s);
        lemma_coeff_canonical(m, k);
        lemma_rat_ops(coeff_in(m, k), coefficient@);
    }
    if i < terms.len() && integer_eq(&terms[i].0, &exponent) {
        proof {
            assert(s[i as int].0 == k);
            lemma_entry_in_map_int(s, i as int);
        }
        let total = rational_add(&terms[i].1, &coefficient);
        if rational_is_zero(&total) {
            terms.remove(i);
            proof {
                lemma_remove_entry_int(s, i as int);
                assert(tpairs(terms@) =~= s.remove(i as int));
            }
        } else {
            let ghost tv = total@;
            terms.set(i, (exponent, total));
            proof {
                lemma_update_entry_int(s, i as int, tv);
                assert(tpairs(terms@) =~= s.update(i as int, (k, tv)));
                lemma_rational_canonical(total);
            }
        }
    } else {
        proof {
            if i < s.len() {
                assert(s[i as int].0 == terms@[i as int].0@);
            }
            lemma_insert_entry_int(s, i as int, k, coefficient@);
            lemma_zero_canonical();
            lemma_add_zero(coefficient@);
            lemma_add_commutes(rat_zero(), coefficient@);
        }
        if !rational_is_zero(&coefficient) {
            let ghost cv = coefficient@;
            terms.insert(i, (exponent, coefficient));
            proof {
                assert(tpairs(terms@) =~= s.insert(i as int, (k, cv)));
            }
        } else {
            assert(entries_map_int(tpairs(terms@)) =~= m.remove(k));
        }
    }
}

/// A copy of sorted terms.
fn copy_terms(v: &Vec<(Integer, Rational)>) -> (r: Vec<(Integer, Rational)>)
    ensures
        tpairs(r@) == tpairs(v@),
{
    let mut r: Vec<(Integer, Rational)> = Vec::new();
    let n = v.len();
    for i in 0..n
        invariant
            n == v.len(),
            r@.len() == i,
            tpairs(r@) == tpairs(v@).take(i as int),
    {
        let key = integer_clone(&v[i].0);
        let value = rational_clone(&v[i].1);
        let ghost before = r@;
        r.push((key, value));
        assert forall|j: int| 0 <= j < i + 1 implies tpairs(r@)[j] == tpairs(v@).take(i + 1)[j] by {
            if j < i {
                assert(tpairs(before)[j] == tpairs(v@).take(i as int)[j]);
            }
        }
        assert(tpairs(r@) =~= tpairs(v@).take(i + 1));
    }
    assert(tpairs(v@).take(n as int) =~= tpairs(v@));
    r
}

proof fn lemma_add_empty(a: ValueMap)
    requires
        value_ok(a),
    ensures
        value_add(a, ValueMap::empty()) == a,
        value_sub(a, ValueMap::empty()) == a,
{
    assert forall|k: int| a.contains_key(k) implies rat_add(a[k], rat_zero()) == a[k] && rat_add(
        a[k],
        rat_neg(rat_zero()),
    ) == a[k] by {
        lemma_add_zero(a[k]);
        assert(rat_neg(rat_zero()) == rat_zero());
    }
    assert(value_add(a, ValueMap::empty()) =~= a);
    assert(value_sub(a, ValueMap::empty()) =~= a);
}

proof fn lemma_add_step(a: ValueMap, b: ValueMap, k: int, v: (int, int))
    requires
        value_ok(a),
        !b.contains_key(k),
        canonical(v),
        v.0 != 0,
    ensures
        value_add_term(value_add(a, b), (v, k)) == value_add(a, b.insert(k, v)),
        value_add_term(value_sub(a, b), (rat_neg(v), k)) == value_sub(a, b.insert(k, v)),
{
    lemma_coeff_canonical(a, k);
    let pa = coeff_in(a, k);
    lemma_add_zero(pa);
    assert(rat_neg(rat_zero()) == rat_zero());
    assert(coeff_in(value_add(a, b), k) == pa);
    assert(coeff_in(value_sub(a, b), k) == pa);
    assert(value_add_term(value_add(a, b), (v, k)) =~= value_add(a, b.insert(k, v)));
    assert(value_add_term(value_sub(a, b), (rat_neg(v), k)) =~= value_sub(a, b.insert(k, v)));
}

proof fn lemma_scale_step(a: ValueMap, k: int, v: (int, int), x: ScalarModel)
    requires
        !a.contains_key(k),
        canonical(v),
        canonical(x.0),
    ensures
        value_add_term(value_mul_scalar(a, x), (rat_mul(v, x.0), k + x.1)) == value_mul_scalar(
            a.insert(k, v),
            x,
        ),
        x.0.0 != 0 ==> value_add_term(value_div_scalar(a, x), (rat_div(v, x.0), k - x.1))
            == value_div_scalar(a.insert(k, v), x),
{
    lemma_rat_ops(v, x.0);
    lemma_zero_canonical();
    lemma_add_zero(rat_mul(v, x.0));
    lemma_add_commutes(rat_zero(), rat_mul(v, x.0));
    assert(coeff_in(value_mul_scalar(a, x), k + x.1) == rat_zero());
    assert(value_add_term(value_mul_scalar(a, x), (rat_mul(v, x.0), k + x.1)) =~= value_mul_scalar(
        a.insert(k, v),
        x,
    ));
    if x.0.0 != 0 {
        lemma_add_zero(rat_div(v, x.0));
        lemma_add_commutes(rat_zero(), rat_div(v, x.0));
        assert(coeff_in(value_div_scalar(a, x), k - x.1) == rat_zero());
        assert(value_add_term(value_div_scalar(a, x), (rat_div(v, x.0), k - x.1)) =~= value_div_scalar(
            a.insert(k, v),
            x,
        ));
    }
}

impl ExactValue {
    #[verifier::type_invariant]
    closed spec fn inv(self) -> bool {
        terms_ok(tpairs(self.terms@))
    }

    /// Zero: no terms.
    pub fn zero() -> (r: ExactValue)
        ensures
            r@ == ValueMap::empty(),
    {
        let r = ExactValue { terms: Vec::new() };
        assert(tpairs(r.terms@) =~= Seq::empty());
        assert(r@ =~= ValueMap::empty());
        r
    }

    /// The value is well formed.
    pub fn well_formed(&self)
        ensures
            value_ok(self@),
    {
        proof {
            use_type_invariant(self);
            lemma_terms_ok_map(tpairs(self.terms@));
        }
    }

    /// Whether the value is zero.
    pub fn is_zero(&self) -> (r: bool)
        ensures
            r == (self@ == ValueMap::empty()),
    {
        proof {
            use_type_invariant(self);
        }
        if self.terms.len() == 0 {
            assert(tpairs(self.terms@) =~= Seq::empty());
            assert(self@ =~= ValueMap::empty());
            true
        } else {
            proof {
                lemma_entry_in_map_int(tpairs(self.terms@), 0);
            }
            false
        }
    }

    /// The value of one scalar.
    pub fn from_scalar(value: ExactScalar) -> (r: ExactValue)
        ensures
            r@ == terms_value(seq![value@]),
    {
        let mut terms: Vec<(Integer, Rational)> = Vec::new();
        assert(tpairs(terms@) =~= Seq::empty());
        assert(entries_map_int(tpairs(terms@)) =~= ValueMap::empty());
        let ghost x = value@;
        add_term(&mut terms, value.pi_exponent, value.rational);
        assert(seq![x].drop_last() =~= Seq::<ScalarModel>::empty());
        assert(seq![x].last() == x);
        assert(terms_value(seq![x].drop_last()) == ValueMap::empty());
        ExactValue { terms }
    }

    /// The sum of the terms, each added in turn.
    pub fn from_terms(values: Vec<ExactScalar>) -> (r: ExactValue)
        ensures
            r@ == terms_value(scalar_views(values@)),
    {
        let ghost xs = scalar_views(values@);
        let mut terms: Vec<(Integer, Rational)> = Vec::new();
        assert(tpairs(terms@) =~= Seq::empty());
        assert(entries_map_int(tpairs(terms@)) =~= ValueMap::empty());
        assert(xs.take(0) =~= Seq::<ScalarModel>::empty());
        let n = values.len();
        for i in 0..n
            invariant
                n == values.len(),
                xs == scalar_views(values@),
                terms_ok(tpairs(terms@)),
                entries_map_int(tpairs(terms@)) == terms_value(xs.take(i as int)),
        {
            let x = values[i].clone();
            add_term(&mut terms, x.pi_exponent, x.rational);
            assert(xs.take(i + 1).drop_last() =~= xs.take(i as int));
        }
        assert(xs.take(n as int) =~= xs);
        ExactValue { terms }
    }

    proof fn lemma_sorted_terms(&self)
        requires
            terms_ok(tpairs(self.terms@)),
        ensures
            sorted_terms(self@) == tpairs(self.terms@),
    {
        let s = tpairs(self.terms@);
        assert(keys_sorted_int(s) && entries_map_int(s) == self@);
        lemma_sorted_unique_int(sorted_terms(self@), s);
    }

    /// The terms, in increasing power of pi.
    pub fn terms(&self) -> (r: Vec<ExactScalar>)
        ensures
            scalar_views(r@) == value_terms(self@),
    {
        proof {
            use_type_invariant(self);
            self.lemma_sorted_terms();
        }
        let ghost want = value_terms(self@);
        let mut r: Vec<ExactScalar> = Vec::new();
        let n = self.terms.len();
        for i in 0..n
            invariant
                n == self.terms.len(),
                want == tpairs(self.terms@).map_values(|e: (int, (int, int))| (e.1, e.0)),
                r@.len() == i,
                scalar_views(r@) == want.take(i as int),
        {
            let x = ExactScalar {
                rational: rational_clone(&self.terms[i].1),
                pi_exponent: integer_clone(&self.terms[i].0),
            };
            let ghost before = r@;
            r.push(x);
            assert forall|j: int| 0 <= j < i + 1 implies #[trigger] scalar_views(r@)[j]
                == want.take(i + 1)[j] by {
                if j < i {
                    assert(scalar_views(before)[j] == want.take(i as int)[j]);
                }
            }
            assert(scalar_views(r@) =~= want.take(i + 1));
        }
        assert(want.take(n as int) =~= want);
        r
    }

    /// The value as one term, when it is exactly one nonzero term.
    pub fn monomial(&self) -> (r: Option<ExactScalar>)
        ensures
            value_terms(self@).len() == 1 ==> (r matches Some(x) && x@ == value_terms(self@)[0]),
            value_terms(self@).len() != 1 ==> r is None,
    {
        proof {
            use_type_invariant(self);
            self.lemma_sorted_terms();
        }
        if self.terms.len() == 1 {
            Some(
                ExactScalar {
                    rational: rational_clone(&self.terms[0].1),
                    pi_exponent: integer_clone(&self.terms[0].0),
                },
            )
        } else {
            None
        }
    }

    /// The sum of two values.
    pub fn add(&self, rhs: &ExactValue) -> (r: ExactValue)
        ensures
            r@ == value_add(self@, rhs@),
    {
        self.combine(rhs, false)
    }

    /// The difference of two values.
    pub fn sub(&self, rhs: &ExactValue) -> (r: ExactValue)
        ensures
            r@ == value_sub(self@, rhs@),
    {
        self.combine(rhs, true)
    }

    fn combine(&self, rhs: &ExactValue, subtract: bool) -> (r: ExactValue)
        ensures
            !subtract ==> r@ == value_add(self@, rhs@),
            subtract ==> r@ == value_sub(self@, rhs@),
    {
        proof {
            use_type_invariant(self);
            use_type_invariant(rhs);
            lemma_terms_ok_map(tpairs(self.terms@));
            lemma_add_empty(self@);
        }
        let mut terms = copy_terms(&self.terms);
        let ghost a = self@;
        let ghost b = tpairs(rhs.terms@);
        let n = rhs.terms.len();
        proof {
            lemma_take_all_int(b);
        }
        for i in 0..n
            invariant
                n == rhs.terms.len(),
                b == tpairs(rhs.terms@),
                terms_ok(b),
                value_ok(a),
                terms_ok(tpairs(terms@)),
                !subtract ==> entries_map_int(tpairs(terms@)) == value_add(a, entries_map_int(b.take(i as int))),
                subtract ==> entries_map_int(tpairs(terms@)) == value_sub(a, entries_map_int(b.take(i as int))),
        {
            let ghost k = b[i as int].0;
            let ghost v = b[i as int].1;
            let coefficient = if subtract {
                rational_neg(&rhs.terms[i].1)
            } else {
                rational_clone(&rhs.terms[i].1)
            };
            add_term(&mut terms, integer_clone(&rhs.terms[i].0), coefficient);
            proof {
                lemma_take_entry_int(b, i as int);
                lemma_add_step(a, entries_map_int(b.take(i as int)), k, v);
            }
        }
        proof {
            lemma_take_all_int(b);
        }
        ExactValue { terms }
    }

    /// Every term times a scalar.
    pub fn multiply_scalar(&self, rhs: &ExactScalar) -> (r: ExactValue)
        ensures
            r@ == value_mul_scalar(self@, rhs@),
    {
        proof {
            use_type_invariant(self);
            lemma_rational_canonical(rhs.rational);
        }
        let mut terms: Vec<(Integer, Rational)> = Vec::new();
        let ghost a = tpairs(self.terms@);
        let ghost x = rhs@;
        let n = self.terms.len();
        proof {
            lemma_take_all_int(a);
            assert(value_mul_scalar(ValueMap::empty(), x) =~= ValueMap::empty());
            assert(tpairs(terms@) =~= Seq::empty());
            assert(entries_map_int(tpairs(terms@)) =~= ValueMap::empty());
        }
        for i in 0..n
            invariant
                n == self.terms.len(),
                a == tpairs(self.terms@),
                x == rhs@,
                terms_ok(a),
                canonical(x.0),
                terms_ok(tpairs(terms@)),
                entries_map_int(tpairs(terms@)) == value_mul_scalar(entries_map_int(a.take(i as int)), x),
        {
            let coefficient = rational_mul(&self.terms[i].1, &rhs.rational);
            let exponent = integer_add(&self.terms[i].0, &rhs.pi_exponent);
            add_term(&mut terms, exponent, coefficient);
            proof {
                lemma_take_entry_int(a, i as int);
                lemma_scale_step(entries_map_int(a.take(i as int)), a[i as int].0, a[i as int].1, x);
            }
        }
        proof {
            lemma_take_all_int(a);
        }
        ExactValue { terms }
    }

    /// Every term divided by a scalar; a zero scalar is refused.
    pub fn divide_scalar(&self, rhs: &ExactScalar) -> (r: Result<ExactValue, QuantityError>)
        ensures
            rhs.rational@.0 == 0 ==> (r matches Err(e) && e@ == QuantityErrorView::DivisionByZero),
            rhs.rational@.0 != 0 ==> (r matches Ok(v) && v@ == value_div_scalar(self@, rhs@)),
    {
        match self.divide_scalar_checked(rhs) {
            Some(v) => Ok(v),
            None => Err(QuantityError::DivisionByZero),
        }
    }

    /// Every term divided by a nonzero scalar; none for a zero one.
    pub fn divide_scalar_checked(&self, rhs: &ExactScalar) -> (r: Option<ExactValue>)
        ensures
            rhs.rational@.0 == 0 ==> r is None,
            rhs.rational@.0 != 0 ==> (r matches Some(v) && v@ == value_div_scalar(self@, rhs@)),
    {
        if rational_is_zero(&rhs.rational) {
            return None;
        }
        proof {
            use_type_invariant(self);
            lemma_rational_canonical(rhs.rational);
        }
        let mut terms: Vec<(Integer, Rational)> = Vec::new();
        let ghost a = tpairs(self.terms@);
        let ghost x = rhs@;
        let n = self.terms.len();
        proof {
            lemma_take_all_int(a);
            assert(value_div_scalar(ValueMap::empty(), x) =~= ValueMap::empty());
            assert(tpairs(terms@) =~= Seq::empty());
            assert(entries_map_int(tpairs(terms@)) =~= ValueMap::empty());
        }
        for i in 0..n
            invariant
                n == self.terms.len(),
                a == tpairs(self.terms@),
                x == rhs@,
                x.0.0 != 0,
                terms_ok(a),
                canonical(x.0),
                terms_ok(tpairs(terms@)),
                entries_map_int(tpairs(terms@)) == value_div_scalar(entries_map_int(a.take(i as int)), x),
        {
            let coefficient = rational_div(&self.terms[i].1, &rhs.rational);
            let exponent = integer_sub(&self.terms[i].0, &rhs.pi_exponent);
            add_term(&mut terms, exponent, coefficient);
            proof {
                lemma_take_entry_int(a, i as int);
                lemma_scale_step(entries_map_int(a.take(i as int)), a[i as int].0, a[i as int].1, x);
            }
        }
        proof {
            lemma_take_all_int(a);
        }
        Some(ExactValue { terms })
    }
}

impl Clone for ExactValue {
    fn clone(&self) -> (r: Self)
        ensures
            r@ == self@,
    {
        proof {
            use_type_invariant(self);
        }
        ExactValue { terms: copy_terms(&self.terms) }
    }
}

impl PartialEq for ExactValue {
    fn eq(&self, other: &Self) -> (r: bool) {
        proof {
            use_type_invariant(self);
            use_type_invariant(other);
        }
        let ghost s = tpairs(self.terms@);
        let ghost t = tpairs(other.terms@);
        if self.terms.len() != other.terms.len() {
            proof {
                assert(s.len() != t.len());
                if entries_map_int(s) == entries_map_int(t) {
                    lemma_sorted_unique_int(s, t);
                }
            }
            return false;
        }
        let n = self.terms.len();
        for i in 0..n
            invariant
                n == self.terms.len(),
                n == other.terms.len(),
                s == tpairs(self.terms@),
                t == tpairs(other.terms@),
                terms_ok(s),
                terms_ok(t),
                forall|j: int| 0 <= j < i ==> s[j] == t[j],
        {
            assert(s[i as int] == (self.terms@[i as int].0@, self.terms@[i as int].1@));
            assert(t[i as int] == (other.terms@[i as int].0@, other.terms@[i as int].1@));
            if !integer_eq(&self.terms[i].0, &other.terms[i].0) || !rational_eq(
                &self.terms[i].1,
                &other.terms[i].1,
            ) {
                proof {
                    if entries_map_int(s) == entries_map_int(t) {
                        lemma_sorted_unique_int(s, t);
                    }
                }
                return false;
            }
        }
        assert(s =~= t);
        assert(self@ == other@);
        true
    }
}

impl Eq for ExactValue {
}

impl vstd::std_specs::cmp::PartialEqSpecImpl for ExactValue {
    open spec fn obeys_eq_spec() -> bool {
        true
    }

    open spec fn eq_spec(&self, other: &Self) -> bool {
        self@ == other@
    }
}

impl Default for ExactValue {
    fn default() -> (r: ExactValue)
        ensures
            r@ == ValueMap::empty(),
    {
        ExactValue::zero()
    }
}

} // verus!

verus! {

impl core::fmt::Debug for ExactScalar {
    /// Writes the scalar as a struct with its two fields.
    #[verifier::external_body]
    fn fmt(&self, f: &mut core::fmt::Formatter<'_>) -> core::fmt::Result {
        f.debug_struct("ExactScalar").field("rational", &self.rational).field("pi_exponent", &self.pi_exponent).finish()
    }
}

impl core::fmt::Debug for ExactValue {
    /// Writes the value as a struct whose `terms` map each power of pi to
    /// its coefficient, in increasing order of the power.
    #[verifier::external_body]
    fn fmt(&self, f: &mut core::fmt::Formatter<'_>) -> core::fmt::Result {
        let terms: std::collections::BTreeMap<&BigInt, &Rational> = self.terms.iter().map(|(k, v)| (&k.value, v)).collect();
        f.debug_struct("ExactValue").field("terms", &terms).finish()
    }
}

} // verus!
