//! What powers of dimensions, document magnitudes, product factors and
//! symbol lookups compute, stated over their inputs and results.
use crate::bignum::lemma_rational_canonical;
use crate::catalog::ProductOp;
use crate::error::QuantityErrorView;
use crate::integer_dims::{has_key, keys_distinct, lemma_nonzero_keys, nonzero, scaled};
use crate::numtheory::{lemma_add_zero, lemma_mul_div_cancel, lemma_rat_ops};
use crate::qudv::{record_value, ExactRecord, RecordValue};
use crate::registry::{
    kinds_of_units, product_factor_spec, push_all_new, push_new, resolve_symbol_spec, symbol_units, unit_kinds,
    units_of_kind, RegistryView,
};
use crate::scalar::{scalar_div, scalar_mul, terms_value, ExactScalar, ValueMap};
use vstd::prelude::*;

verus! {

// ---------------------------------------------------------------------------
// Powers of integer dimensions.
/// The exponent of identifier `k` among the entries, zero where it is absent.
pub open spec fn exponent_of(s: Seq<(Seq<char>, int)>, k: Seq<char>) -> int {
    if has_key(s, k) {
        s[choose|i: int| 0 <= i < s.len() && (#[trigger] s[i]).0 == k].1
    } else {
        0
    }
}

/// With distinct identifiers, an entry's exponent is the exponent of its
/// identifier.
proof fn lemma_exponent_at(s: Seq<(Seq<char>, int)>, i: int)
    requires
        keys_distinct(s),
        0 <= i < s.len(),
    ensures
        exponent_of(s, s[i].0) == s[i].1,
{
    assert(has_key(s, s[i].0));
    let j = choose|j: int| 0 <= j < s.len() && (#[trigger] s[j]).0 == s[i].0;
    if j < i {
        assert(s[j].0 != s[i].0);
    } else if i < j {
        assert(s[i].0 != s[j].0);
    }
}

/// An entry with a nonzero exponent keeps its identifier among the nonzero
/// entries.
proof fn lemma_nonzero_keeps(t: Seq<(Seq<char>, int)>, j: int)
    requires
        0 <= j < t.len(),
        t[j].1 != 0,
    ensures
        has_key(nonzero(t), t[j].0),
    decreases t.len(),
{
    let d = t.drop_last();
    if j == t.len() - 1 {
        let n = nonzero(t);
        assert(n == nonzero(d).push(t.last()));
        assert(n[n.len() - 1].0 == t[j].0);
    } else {
        assert(d[j] == t[j]);
        lemma_nonzero_keeps(d, j);
        let i = choose|i: int| 0 <= i < nonzero(d).len() && (#[trigger] nonzero(d)[i]).0 == t[j].0;
        if t.last().1 != 0 {
            assert(nonzero(t) == nonzero(d).push(t.last()));
        } else {
            assert(nonzero(t) == nonzero(d));
        }
        assert(nonzero(t)[i].0 == t[j].0);
    }
}

/// Dropping the zero exponents changes no identifier's exponent.
proof fn lemma_nonzero_exponent(t: Seq<(Seq<char>, int)>, k: Seq<char>)
    requires
        keys_distinct(t),
    ensures
        exponent_of(nonzero(t), k) == exponent_of(t, k),
{
    lemma_nonzero_keys(t);
    let n = nonzero(t);
    if has_key(n, k) {
        let i = choose|i: int| 0 <= i < n.len() && (#[trigger] n[i]).0 == k;
        lemma_exponent_at(n, i);
        assert(t.contains(n[i]));
        let j = choose|j: int| 0 <= j < t.len() && t[j] == n[i];
        lemma_exponent_at(t, j);
    } else if has_key(t, k) {
        let j = choose|j: int| 0 <= j < t.len() && (#[trigger] t[j]).0 == k;
        lemma_exponent_at(t, j);
        if t[j].1 != 0 {
            lemma_nonzero_keeps(t, j);
        }
    }
}

/// Scaling multiplies each identifier's exponent.
proof fn lemma_scaled_exponent(s: Seq<(Seq<char>, int)>, e: int, k: Seq<char>)
    requires
        keys_distinct(s),
    ensures
        keys_distinct(scaled(s, e)),
        exponent_of(scaled(s, e), k) == exponent_of(s, k) * e,
{
    let c = scaled(s, e);
    assert forall|i: int, j: int| 0 <= i < j < c.len() implies #[trigger] c[i].0 != #[trigger] c[j].0 by {
        assert(c[i].0 == s[i].0 && c[j].0 == s[j].0);
    }
    if has_key(s, k) {
        let i = choose|i: int| 0 <= i < s.len() && (#[trigger] s[i]).0 == k;
        lemma_exponent_at(s, i);
        assert(c[i] == (s[i].0, s[i].1 * e));
        lemma_exponent_at(c, i);
    } else if has_key(c, k) {
        let i = choose|i: int| 0 <= i < c.len() && (#[trigger] c[i]).0 == k;
        assert(s[i].0 == k);
    }
}

/// Raising dimensions to a nonzero integer power `e` multiplies the exponent
/// of every identifier by `e`, for negative `e` too: the entries that
/// `integer_dims::power` gives for `e` have, at each identifier, the
/// exponent of the input times `e` (and the power zero gives no entries).
pub proof fn law_power_exponents(s: Seq<(Seq<char>, int)>, e: int, k: Seq<char>)
    requires
        keys_distinct(s),
    ensures
        e != 0 ==> exponent_of(nonzero(scaled(s, e)), k) == exponent_of(s, k) * e,
{
    lemma_scaled_exponent(s, e, k);
    lemma_nonzero_exponent(scaled(s, e), k);
}

// ---------------------------------------------------------------------------
// Magnitudes of a document.
/// A term record `{rational: c·pi^a, pi_exponent: b}` is worth `c·pi^(a+b)`:
/// the one coefficient `c` at the power `a + b` of pi, nothing where `c` is
/// zero.
pub proof fn law_term_record_value(rational: ExactScalar, b: i32)
    ensures
        record_value(ExactRecord::Term { rational, pi_exponent: b }) == RecordValue::Exact(
            if rational@.0.0 == 0 {
                ValueMap::empty()
            } else {
                map![rational@.1 + b => rational@.0]
            },
        ),
{
    lemma_rational_canonical(rational.rational);
    let c = rational@.0;
    lemma_add_zero(c);
    let t = (c, rational@.1 + b);
    let m = terms_value(seq![t]);
    assert(seq![t].drop_last() =~= Seq::<((int, int), int)>::empty());
    assert(terms_value(Seq::<((int, int), int)>::empty()) == ValueMap::empty());
    assert(seq![t].last() == t);
    assert(m == crate::scalar::value_add_term(ValueMap::empty(), t));
    if c.0 == 0 {
        assert(m =~= ValueMap::empty());
    } else {
        assert(m =~= map![rational@.1 + b => c]);
    }
}

// ---------------------------------------------------------------------------
// Factors of products.
/// The factor that carries a product into the result unit follows the
/// coherent scales: with `a`, `b` and `s` the coherent scales of the left,
/// right and result units, the factor times `s` is `a·b` for `Mul`, `Dot`
/// and `Wedge`, and the factor times `s` times `b` is `a` for `Div`. It
/// exists whenever the three scales are declared and no divisor is zero.
pub proof fn law_product_factor(v: RegistryView, l: int, op: ProductOp, r: int, t: int)
    requires
        0 <= l < v.units.len(),
        0 <= r < v.units.len(),
        0 <= t < v.units.len(),
        v.units[l].coherent_scale is Some,
        v.units[r].coherent_scale is Some,
        v.units[t].coherent_scale is Some,
        v.units[t].coherent_scale->0@.0.0 != 0,
        op == ProductOp::Div ==> v.units[r].coherent_scale->0@.0.0 != 0,
    ensures
        product_factor_spec(v, l, op, r, t) matches Ok(f) && ({
            let a = v.units[l].coherent_scale->0@;
            let b = v.units[r].coherent_scale->0@;
            let s = v.units[t].coherent_scale->0@;
            if op == ProductOp::Div {
                scalar_mul(scalar_mul(f, s), b) == a
            } else {
                scalar_mul(f, s) == scalar_mul(a, b)
            }
        }),
{
    let (xa, xb, xs) = (
        v.units[l].coherent_scale->0,
        v.units[r].coherent_scale->0,
        v.units[t].coherent_scale->0,
    );
    lemma_rational_canonical(xa.rational);
    lemma_rational_canonical(xb.rational);
    lemma_rational_canonical(xs.rational);
    let (a, b, s) = (xa@, xb@, xs@);
    lemma_rat_ops(a.0, b.0);
    if op == ProductOp::Div {
        let c = scalar_div(a, b);
        lemma_mul_div_cancel(c.0, s.0);
        lemma_mul_div_cancel(a.0, b.0);
        let f = scalar_div(c, s);
        assert(scalar_mul(f, s) == c);
        assert(scalar_mul(c, b) == a);
    } else {
        let c = scalar_mul(a, b);
        lemma_mul_div_cancel(c.0, s.0);
        let f = scalar_div(c, s);
        assert(scalar_mul(f, s) == c);
    }
}

// ---------------------------------------------------------------------------
// Units written with a symbol.
/// The units before `n` written with a symbol are those positions, in order.
proof fn lemma_symbol_units(v: RegistryView, symbol: Seq<char>, n: int)
    requires
        0 <= n <= v.units.len(),
    ensures
        forall|i: int|
            0 <= i < symbol_units(v, symbol, n).len() ==> 0 <= #[trigger] symbol_units(v, symbol, n)[i] < n
                && v.units[symbol_units(v, symbol, n)[i]].symbol@ == symbol,
        forall|x: int| 0 <= x < n && v.units[x].symbol@ == symbol ==> #[trigger] symbol_units(v, symbol, n).contains(x),
    decreases n,
{
    if n > 0 {
        lemma_symbol_units(v, symbol, n - 1);
        let before = symbol_units(v, symbol, n - 1);
        if v.units[n - 1].symbol@ == symbol {
            assert(symbol_units(v, symbol, n) == before.push(n - 1));
            assert forall|x: int| 0 <= x < n && v.units[x].symbol@ == symbol implies #[trigger] symbol_units(
                v,
                symbol,
                n,
            ).contains(x) by {
                if x == n - 1 {
                    assert(symbol_units(v, symbol, n)[before.len() as int] == x);
                } else {
                    assert(before.contains(x));
                    let i = choose|i: int| 0 <= i < before.len() && before[i] == x;
                    assert(symbol_units(v, symbol, n)[i] == x);
                }
            }
        } else {
            assert(symbol_units(v, symbol, n) == before);
        }
    }
}

/// The units among `us` declared for kind `k` are among `us` and of kind `k`.
proof fn lemma_units_of_kind(v: RegistryView, us: Seq<int>, k: int)
    ensures
        forall|i: int|
            0 <= i < units_of_kind(v, us, k).len() ==> us.contains(#[trigger] units_of_kind(v, us, k)[i])
                && unit_kinds(v, units_of_kind(v, us, k)[i]).contains(k),
    decreases us.len(),
{
    if us.len() > 0 {
        let d = us.drop_last();
        lemma_units_of_kind(v, d, k);
        let c = units_of_kind(v, us, k);
        assert forall|i: int| 0 <= i < c.len() implies us.contains(#[trigger] c[i]) && unit_kinds(v, c[i]).contains(k) by {
            if unit_kinds(v, us.last()).contains(k) && i == c.len() - 1 {
                assert(c[i] == us.last());
                assert(us[us.len() - 1] == c[i]);
            } else {
                assert(c[i] == units_of_kind(v, d, k)[i]);
                assert(d.contains(c[i]));
                let j = choose|j: int| 0 <= j < d.len() && d[j] == c[i];
                assert(us[j] == c[i]);
            }
        }
    }
}

/// Adding new items keeps what was there and holds each item added.
proof fn lemma_push_all_new(acc: Seq<int>, xs: Seq<int>)
    ensures
        forall|y: int| acc.contains(y) ==> #[trigger] push_all_new(acc, xs).contains(y),
        forall|j: int| 0 <= j < xs.len() ==> push_all_new(acc, xs).contains(#[trigger] xs[j]),
    decreases xs.len(),
{
    if xs.len() > 0 {
        let d = xs.drop_last();
        lemma_push_all_new(acc, d);
        let p = push_all_new(acc, d);
        let q = push_new(p, xs.last());
        assert(push_all_new(acc, xs) == q);
        assert forall|y: int| p.contains(y) implies q.contains(y) by {
            if !p.contains(xs.last()) {
                let i = choose|i: int| 0 <= i < p.len() && p[i] == y;
                assert(q[i] == y);
            }
        }
        if !p.contains(xs.last()) {
            assert(q[p.len() as int] == xs.last());
        }
        assert forall|j: int| 0 <= j < xs.len() implies q.contains(#[trigger] xs[j]) by {
            if j < xs.len() - 1 {
                assert(d[j] == xs[j]);
                assert(p.contains(d[j]));
            }
        }
    }
}

/// Every kind of every unit among `us` is among their kinds.
proof fn lemma_kinds_of_units(v: RegistryView, us: Seq<int>)
    ensures
        forall|i: int, j: int|
            0 <= i < us.len() && 0 <= j < unit_kinds(v, us[i]).len() ==> kinds_of_units(v, us).contains(
                #[trigger] unit_kinds(v, us[i])[j],
            ),
    decreases us.len(),
{
    if us.len() > 0 {
        let d = us.drop_last();
        lemma_kinds_of_units(v, d);
        let before = kinds_of_units(v, d);
        lemma_push_all_new(before, unit_kinds(v, us.last()));
        assert(kinds_of_units(v, us) == push_all_new(before, unit_kinds(v, us.last())));
        assert forall|i: int, j: int|
            0 <= i < us.len() && 0 <= j < unit_kinds(v, us[i]).len() implies kinds_of_units(v, us).contains(
            #[trigger] unit_kinds(v, us[i])[j],
        ) by {
            if i < us.len() - 1 {
                assert(d[i] == us[i]);
                assert(before.contains(unit_kinds(v, d[i])[j]));
            }
        }
    }
}

/// With no kind given, a symbol resolves only where its units have one kind
/// between them: the result is a unit written with the symbol and declared
/// for that kind, and no unit written with the symbol has another kind.
/// Where two units written with the symbol (or one unit) have two different
/// kinds, the kind is refused as ambiguous.
pub proof fn law_symbol_names_one_kind(v: RegistryView, symbol: Seq<char>)
    ensures
        resolve_symbol_spec(v, symbol, None) matches Ok((u, k)) ==> {
            &&& 0 <= u < v.units.len()
            &&& v.units[u].symbol@ == symbol
            &&& unit_kinds(v, u).contains(k)
            &&& forall|x: int, j: int|
                0 <= x < v.units.len() && v.units[x].symbol@ == symbol && 0 <= j < unit_kinds(v, x).len()
                    ==> #[trigger] unit_kinds(v, x)[j] == k
        },
        (exists|x1: int, j1: int, x2: int, j2: int|
            0 <= x1 < v.units.len() && 0 <= x2 < v.units.len() && v.units[x1].symbol@ == symbol
                && v.units[x2].symbol@ == symbol && 0 <= j1 < unit_kinds(v, x1).len() && 0 <= j2 < unit_kinds(
                v,
                x2,
            ).len() && #[trigger] unit_kinds(v, x1)[j1] != #[trigger] unit_kinds(v, x2)[j2]) ==> resolve_symbol_spec(
            v,
            symbol,
            None,
        ) == Err::<(int, int), QuantityErrorView>(QuantityErrorView::AmbiguousKind(symbol)),
{
    let n = v.units.len() as int;
    let us = symbol_units(v, symbol, n);
    lemma_symbol_units(v, symbol, n);
    lemma_kinds_of_units(v, us);
    let ks = kinds_of_units(v, us);
    // Every kind of a unit written with the symbol is among `ks`.
    assert forall|x: int, j: int|
        0 <= x < n && v.units[x].symbol@ == symbol && 0 <= j < unit_kinds(v, x).len() implies ks.contains(
        #[trigger] unit_kinds(v, x)[j],
    ) by {
        assert(us.contains(x));
        let i = choose|i: int| 0 <= i < us.len() && us[i] == x;
        assert(unit_kinds(v, us[i])[j] == unit_kinds(v, x)[j]);
    }
    if resolve_symbol_spec(v, symbol, None) is Ok {
        let (u, k) = resolve_symbol_spec(v, symbol, None)->Ok_0;
        assert(ks.len() == 1 && k == ks[0]);
        lemma_units_of_kind(v, us, k);
        let cands = units_of_kind(v, us, k);
        assert(u == cands[0]);
        assert(us.contains(cands[0]));
        assert forall|x: int, j: int|
            0 <= x < n && v.units[x].symbol@ == symbol && 0 <= j < unit_kinds(v, x).len() implies #[trigger] unit_kinds(
            v,
            x,
        )[j] == k by {
            assert(ks.contains(unit_kinds(v, x)[j]));
        }
    }
    if exists|x1: int, j1: int, x2: int, j2: int|
        0 <= x1 < n && 0 <= x2 < n && v.units[x1].symbol@ == symbol && v.units[x2].symbol@ == symbol && 0 <= j1
            < unit_kinds(v, x1).len() && 0 <= j2 < unit_kinds(v, x2).len() && #[trigger] unit_kinds(v, x1)[j1]
            != #[trigger] unit_kinds(v, x2)[j2] {
        let (x1, j1, x2, j2) = choose|x1: int, j1: int, x2: int, j2: int|
            0 <= x1 < n && 0 <= x2 < n && v.units[x1].symbol@ == symbol && v.units[x2].symbol@ == symbol && 0 <= j1
                < unit_kinds(v, x1).len() && 0 <= j2 < unit_kinds(v, x2).len() && #[trigger] unit_kinds(v, x1)[j1]
                != #[trigger] unit_kinds(v, x2)[j2];
        assert(ks.contains(unit_kinds(v, x1)[j1]));
        assert(ks.contains(unit_kinds(v, x2)[j2]));
        assert(us.contains(x1));
        assert(us.len() > 0);
        if ks.len() == 1 {
            assert(false);
        }
    }
}

} // verus!
