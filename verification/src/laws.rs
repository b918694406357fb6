//! What holds of the library as a whole: the algebra of dimensions and exact
//! values, and the spelling of operations and grades.
use crate::catalog::{op_name, op_named, op_product, product_op, unit_terminal, Catalog, Op, ProductOp};
use crate::dimension::{canonical_id, dims_div, dims_mul, dims_ok, power_in, DimMap};
use crate::grade::{grade_index, grade_of_index, Grade};
use crate::numtheory::{
    canonical, gcd, lemma_add_associates, lemma_add_commutes, lemma_add_sub_cancel,
    lemma_add_zero, lemma_add_zero_iff, lemma_div_zero, lemma_mul_div_cancel, lemma_mul_zero,
    lemma_neg_canonical, lemma_rat_ops, lemma_zero_canonical, rat_add, rat_div, rat_mul, rat_neg,
    rat_sub, rat_zero,
};
use crate::scalar::{
    coeff_in, value_add, value_div_scalar, value_mul_scalar, value_ok, value_sub, ScalarModel,
    ValueMap,
};
use crate::error::{Operation, QuantityErrorView};
use crate::registry::{
    candidate, candidates, convert_spec, derive_spec, duration_of, exact_conversion_spec,
    mismatched, neutral, product_spec, rate_ok, refused, registry_dims_ok, registry_kinds_ok,
    registry_ok, registry_units_ok, row_for, sum_spec, twin_result, unit_magnitudes_ok,
    AffineRole, RegistryView, ResolvedView, UnderivedView, compile_fault, incompatible_fault, incompatible_faults,
    named_dimensions, reference_fault, reference_faults, unit_ids, unit_index,
};
use crate::search::{first_some, lemma_first_index, lemma_first_some_none_all, lemma_first_where};
use vstd::prelude::*;

verus! {

/// A canonical fraction with numerator zero is zero.
proof fn lemma_canonical_zero(x: (int, int))
    requires
        canonical(x),
        x.0 == 0,
    ensures
        x == rat_zero(),
{
    assert(gcd(0, x.1 as nat) == gcd(x.1 as nat, 0));
}

// ---------------------------------------------------------------------------
// Dimensions.
/// The exponent at `k` is canonical, and nonzero exactly where `k` is a key.
proof fn lemma_power(a: DimMap, k: Seq<char>)
    requires
        dims_ok(a),
    ensures
        canonical(power_in(a, k)),
        (power_in(a, k).0 != 0) == a.contains_key(k),
{
    lemma_zero_canonical();
}

/// Exponents of a product add, exponents of a quotient subtract.
proof fn lemma_power_mul_div(a: DimMap, b: DimMap, k: Seq<char>)
    requires
        dims_ok(a),
        dims_ok(b),
    ensures
        power_in(dims_mul(a, b), k) == rat_add(power_in(a, k), power_in(b, k)),
        power_in(dims_div(a, b), k) == rat_sub(power_in(a, k), power_in(b, k)),
{
    lemma_power(a, k);
    lemma_power(b, k);
    lemma_neg_canonical(power_in(b, k));
    lemma_rat_ops(power_in(a, k), power_in(b, k));
    lemma_rat_ops(power_in(a, k), rat_neg(power_in(b, k)));
    let s = rat_add(power_in(a, k), power_in(b, k));
    let d = rat_sub(power_in(a, k), power_in(b, k));
    if s.0 == 0 {
        lemma_canonical_zero(s);
    }
    if d.0 == 0 {
        lemma_canonical_zero(d);
    }
    if !a.contains_key(k) && !b.contains_key(k) {
        lemma_add_zero(rat_zero());
        lemma_add_zero_iff(rat_zero(), rat_zero());
    }
}

/// Products and quotients of well-formed dimensions are well formed.
proof fn lemma_mul_div_ok(a: DimMap, b: DimMap)
    requires
        dims_ok(a),
        dims_ok(b),
    ensures
        dims_ok(dims_mul(a, b)),
        dims_ok(dims_div(a, b)),
{
    assert forall|k: Seq<char>| #[trigger] dims_mul(a, b).contains_key(k) implies dims_mul(a, b)[k].0
        != 0 && canonical(dims_mul(a, b)[k]) && canonical_id(k) == k by {
        lemma_power_mul_div(a, b, k);
        lemma_power(a, k);
        lemma_power(b, k);
        lemma_rat_ops(power_in(a, k), power_in(b, k));
    }
    assert forall|k: Seq<char>| #[trigger] dims_div(a, b).contains_key(k) implies dims_div(a, b)[k].0
        != 0 && canonical(dims_div(a, b)[k]) && canonical_id(k) == k by {
        lemma_power_mul_div(a, b, k);
        lemma_power(a, k);
        lemma_power(b, k);
        lemma_neg_canonical(power_in(b, k));
        lemma_rat_ops(power_in(a, k), rat_neg(power_in(b, k)));
    }
}

/// Well-formed dimensions with the same exponents are equal.
proof fn lemma_dims_ext(x: DimMap, y: DimMap)
    requires
        dims_ok(x),
        dims_ok(y),
        forall|k: Seq<char>| #[trigger] power_in(x, k) == power_in(y, k),
    ensures
        x == y,
{
    assert forall|k: Seq<char>| #[trigger] x.contains_key(k) == y.contains_key(k) by {
        lemma_power(x, k);
        lemma_power(y, k);
        assert(power_in(x, k) == power_in(y, k));
    }
    assert forall|k: Seq<char>| #[trigger] x.contains_key(k) implies x[k] == y[k] by {
        assert(power_in(x, k) == power_in(y, k));
    }
    assert(x =~= y);
}

/// Multiplying dimensions commutes.
pub proof fn law_dims_mul_commutes(a: DimMap, b: DimMap)
    requires
        dims_ok(a),
        dims_ok(b),
    ensures
        dims_mul(a, b) == dims_mul(b, a),
{
    lemma_mul_div_ok(a, b);
    lemma_mul_div_ok(b, a);
    assert forall|k: Seq<char>| #[trigger] power_in(dims_mul(a, b), k) == power_in(dims_mul(b, a), k) by {
        lemma_power_mul_div(a, b, k);
        lemma_power_mul_div(b, a, k);
        lemma_power(a, k);
        lemma_power(b, k);
        lemma_add_commutes(power_in(a, k), power_in(b, k));
    }
    lemma_dims_ext(dims_mul(a, b), dims_mul(b, a));
}

/// Multiplying dimensions associates.
pub proof fn law_dims_mul_associates(a: DimMap, b: DimMap, c: DimMap)
    requires
        dims_ok(a),
        dims_ok(b),
        dims_ok(c),
    ensures
        dims_mul(dims_mul(a, b), c) == dims_mul(a, dims_mul(b, c)),
{
    lemma_mul_div_ok(a, b);
    lemma_mul_div_ok(b, c);
    lemma_mul_div_ok(dims_mul(a, b), c);
    lemma_mul_div_ok(a, dims_mul(b, c));
    assert forall|k: Seq<char>| #[trigger] power_in(dims_mul(dims_mul(a, b), c), k) == power_in(
        dims_mul(a, dims_mul(b, c)),
        k,
    ) by {
        lemma_power_mul_div(a, b, k);
        lemma_power_mul_div(b, c, k);
        lemma_power_mul_div(dims_mul(a, b), c, k);
        lemma_power_mul_div(a, dims_mul(b, c), k);
        lemma_power(a, k);
        lemma_power(b, k);
        lemma_power(c, k);
        lemma_add_associates(power_in(a, k), power_in(b, k), power_in(c, k));
    }
    lemma_dims_ext(dims_mul(dims_mul(a, b), c), dims_mul(a, dims_mul(b, c)));
}

/// Dimension one is neutral.
pub proof fn law_dims_one(a: DimMap)
    requires
        dims_ok(a),
    ensures
        dims_mul(a, DimMap::empty()) == a,
        dims_mul(DimMap::empty(), a) == a,
        dims_div(a, DimMap::empty()) == a,
{
    let e = DimMap::empty();
    assert(dims_ok(e));
    lemma_mul_div_ok(a, e);
    lemma_mul_div_ok(e, a);
    assert forall|k: Seq<char>| #[trigger] power_in(dims_mul(a, e), k) == power_in(a, k) && power_in(
        dims_mul(e, a),
        k,
    ) == power_in(a, k) && power_in(dims_div(a, e), k) == power_in(a, k) by {
        lemma_power_mul_div(a, e, k);
        lemma_power_mul_div(e, a, k);
        lemma_power(a, k);
        lemma_add_zero(power_in(a, k));
        assert(rat_neg(rat_zero()) == rat_zero());
    }
    lemma_dims_ext(dims_mul(a, e), a);
    lemma_dims_ext(dims_mul(e, a), a);
    lemma_dims_ext(dims_div(a, e), a);
}

/// Dividing by what was multiplied in, or multiplying back what was divided
/// out, restores the dimensions; a quotient by itself is dimension one.
pub proof fn law_dims_div_cancels(a: DimMap, b: DimMap)
    requires
        dims_ok(a),
        dims_ok(b),
    ensures
        dims_div(dims_mul(a, b), b) == a,
        dims_mul(dims_div(a, b), b) == a,
        dims_div(a, a) == DimMap::empty(),
{
    lemma_mul_div_ok(a, b);
    lemma_mul_div_ok(dims_mul(a, b), b);
    lemma_mul_div_ok(dims_div(a, b), b);
    lemma_mul_div_ok(a, a);
    assert(dims_ok(DimMap::empty()));
    assert forall|k: Seq<char>| #[trigger] power_in(dims_div(dims_mul(a, b), b), k) == power_in(a, k)
        && power_in(dims_mul(dims_div(a, b), b), k) == power_in(a, k) && power_in(dims_div(a, a), k)
        == power_in(DimMap::empty(), k) by {
        lemma_power_mul_div(a, b, k);
        lemma_power_mul_div(dims_mul(a, b), b, k);
        lemma_power_mul_div(dims_div(a, b), b, k);
        lemma_power_mul_div(a, a, k);
        lemma_power(a, k);
        lemma_power(b, k);
        lemma_add_sub_cancel(power_in(a, k), power_in(b, k));
        lemma_add_zero_iff(power_in(a, k), rat_neg(power_in(a, k)));
    }
    lemma_dims_ext(dims_div(dims_mul(a, b), b), a);
    lemma_dims_ext(dims_mul(dims_div(a, b), b), a);
    lemma_dims_ext(dims_div(a, a), DimMap::empty());
}

// ---------------------------------------------------------------------------
// Exact values.
/// The coefficient at `k` is canonical, and nonzero exactly where `k` is a
/// key.
proof fn lemma_coeff(a: ValueMap, k: int)
    requires
        value_ok(a),
    ensures
        canonical(coeff_in(a, k)),
        (coeff_in(a, k).0 != 0) == a.contains_key(k),
{
    lemma_zero_canonical();
}

/// Coefficients of a sum add and of a difference subtract.
proof fn lemma_coeff_add_sub(a: ValueMap, b: ValueMap, k: int)
    requires
        value_ok(a),
        value_ok(b),
    ensures
        coeff_in(value_add(a, b), k) == rat_add(coeff_in(a, k), coeff_in(b, k)),
        coeff_in(value_sub(a, b), k) == rat_sub(coeff_in(a, k), coeff_in(b, k)),
        value_ok(value_add(a, b)),
        value_ok(value_sub(a, b)),
{
    lemma_coeff(a, k);
    lemma_coeff(b, k);
    lemma_neg_canonical(coeff_in(b, k));
    lemma_rat_ops(coeff_in(a, k), coeff_in(b, k));
    lemma_rat_ops(coeff_in(a, k), rat_neg(coeff_in(b, k)));
    let s = rat_add(coeff_in(a, k), coeff_in(b, k));
    let d = rat_sub(coeff_in(a, k), coeff_in(b, k));
    if s.0 == 0 {
        lemma_canonical_zero(s);
    }
    if d.0 == 0 {
        lemma_canonical_zero(d);
    }
    if !a.contains_key(k) && !b.contains_key(k) {
        lemma_add_zero(rat_zero());
        lemma_add_zero_iff(rat_zero(), rat_zero());
    }
    assert forall|j: int| #[trigger] value_add(a, b).contains_key(j) implies value_add(a, b)[j].0
        != 0 && canonical(value_add(a, b)[j]) by {
        lemma_coeff(a, j);
        lemma_coeff(b, j);
        lemma_rat_ops(coeff_in(a, j), coeff_in(b, j));
    }
    assert forall|j: int| #[trigger] value_sub(a, b).contains_key(j) implies value_sub(a, b)[j].0
        != 0 && canonical(value_sub(a, b)[j]) by {
        lemma_coeff(a, j);
        lemma_coeff(b, j);
        lemma_neg_canonical(coeff_in(b, j));
        lemma_rat_ops(coeff_in(a, j), rat_neg(coeff_in(b, j)));
    }
}

/// Well-formed values with the same coefficients are equal.
proof fn lemma_value_ext(x: ValueMap, y: ValueMap)
    requires
        value_ok(x),
        value_ok(y),
        forall|k: int| #[trigger] coeff_in(x, k) == coeff_in(y, k),
    ensures
        x == y,
{
    assert forall|k: int| #[trigger] x.contains_key(k) == y.contains_key(k) by {
        lemma_coeff(x, k);
        lemma_coeff(y, k);
        assert(coeff_in(x, k) == coeff_in(y, k));
    }
    assert forall|k: int| #[trigger] x.contains_key(k) implies x[k] == y[k] by {
        assert(coeff_in(x, k) == coeff_in(y, k));
    }
    assert(x =~= y);
}

/// Adding and then subtracting a value, or the other way round, restores the
/// value.
pub proof fn law_value_add_sub(a: ValueMap, b: ValueMap)
    requires
        value_ok(a),
        value_ok(b),
    ensures
        value_sub(value_add(a, b), b) == a,
        value_add(value_sub(a, b), b) == a,
{
    lemma_coeff_add_sub(a, b, 0);
    lemma_coeff_add_sub(value_add(a, b), b, 0);
    lemma_coeff_add_sub(value_sub(a, b), b, 0);
    assert forall|k: int| #[trigger] coeff_in(value_sub(value_add(a, b), b), k) == coeff_in(a, k)
        && coeff_in(value_add(value_sub(a, b), b), k) == coeff_in(a, k) by {
        lemma_coeff_add_sub(a, b, k);
        lemma_coeff_add_sub(value_add(a, b), b, k);
        lemma_coeff_add_sub(value_sub(a, b), b, k);
        lemma_coeff(a, k);
        lemma_coeff(b, k);
        lemma_add_sub_cancel(coeff_in(a, k), coeff_in(b, k));
    }
    lemma_value_ext(value_sub(value_add(a, b), b), a);
    lemma_value_ext(value_add(value_sub(a, b), b), a);
}

/// Multiplying by a scalar and dividing by it again, or the other way
/// round, restores the value, for a nonzero scalar.
pub proof fn law_value_scale(a: ValueMap, s: ScalarModel)
    requires
        value_ok(a),
        canonical(s.0),
        s.0.0 != 0,
    ensures
        value_div_scalar(value_mul_scalar(a, s), s) == a,
        value_mul_scalar(value_div_scalar(a, s), s) == a,
{
    let m = value_mul_scalar(a, s);
    let d = value_div_scalar(a, s);
    assert forall|k: int| #[trigger] m.contains_key(k) implies m[k].0 != 0 && canonical(m[k]) by {
        lemma_rat_ops(a[k - s.1], s.0);
    }
    assert forall|k: int| #[trigger] d.contains_key(k) implies d[k].0 != 0 && canonical(d[k]) by {
        lemma_rat_ops(a[k + s.1], s.0);
    }
    let md = value_div_scalar(m, s);
    let dm = value_mul_scalar(d, s);
    assert forall|k: int| #[trigger] md.contains_key(k) implies md[k].0 != 0 && canonical(md[k]) by {
        lemma_rat_ops(m[k + s.1], s.0);
    }
    assert forall|k: int| #[trigger] dm.contains_key(k) implies dm[k].0 != 0 && canonical(dm[k]) by {
        lemma_rat_ops(d[k - s.1], s.0);
    }
    assert forall|k: int| #[trigger] coeff_in(md, k) == coeff_in(a, k) && coeff_in(dm, k) == coeff_in(
        a,
        k,
    ) by {
        if a.contains_key(k) {
            lemma_rat_ops(a[k], s.0);
            lemma_mul_zero(a[k], s.0);
            lemma_div_zero(a[k], s.0);
            lemma_mul_div_cancel(a[k], s.0);
            assert(k + s.1 - s.1 == k);
            assert(k - s.1 + s.1 == k);
            assert(m.contains_key(k + s.1));
            assert(d.contains_key(k - s.1));
            lemma_rat_ops(rat_mul(a[k], s.0), s.0);
            lemma_rat_ops(rat_div(a[k], s.0), s.0);
        } else {
            assert(k + s.1 - s.1 == k);
            assert(k - s.1 + s.1 == k);
            assert(!m.contains_key(k + s.1));
            assert(!d.contains_key(k - s.1));
        }
    }
    lemma_value_ext(md, a);
    lemma_value_ext(dm, a);
}

// ---------------------------------------------------------------------------
// Names.
/// Each operation's name is parsed back to it, and the products are exactly
/// the operations other than `add` and `sub`.
pub proof fn law_operation_names(op: Op)
    ensures
        op_named(op_name(op)) == Some(op),
        op_product(op) is Some <==> (op != Op::Add && op != Op::Sub),
        op_product(op) matches Some(p) ==> product_op(p) == op,
{
    reveal_strlit("add");
    reveal_strlit("sub");
    reveal_strlit("mul");
    reveal_strlit("div");
    reveal_strlit("dot");
    reveal_strlit("wedge");
    assert("add"@[0] == 'a' && "sub"@[0] == 's' && "mul"@[0] == 'm' && "div"@[0] == 'd');
    assert("dot"@[0] == 'd' && "dot"@[1] == 'o' && "div"@[1] == 'i' && "wedge"@[0] == 'w');
    assert("add"@ != "sub"@ && "add"@ != "mul"@ && "add"@ != "div"@ && "add"@ != "dot"@);
    assert("sub"@ != "mul"@ && "sub"@ != "div"@ && "sub"@ != "dot"@ && "mul"@ != "div"@);
    assert("mul"@ != "dot"@ && "div"@ != "dot"@);
    assert("wedge"@.len() == 5);
}

/// Each product's name is parsed back to it.
pub proof fn law_product_names(p: ProductOp)
    ensures
        op_named(op_name(product_op(p))) == Some(product_op(p)),
        op_product(product_op(p)) == Some(p),
{
    law_operation_names(product_op(p));
}

/// A grade's index is in 0 to 3 and gives the grade back.
pub proof fn law_grade_index(g: Grade)
    ensures
        grade_index(g) <= 3,
        grade_of_index(grade_index(g) as int) == g,
{
    match g {
        Grade::Scalar => {},
        Grade::Vector => {},
        Grade::Bivector => {},
        Grade::Trivector => {},
    }
}

// ---------------------------------------------------------------------------
// Kinds.
/// The candidates are exactly the candidate kinds below `n`, in order.
proof fn lemma_candidates(ks: Seq<crate::registry::CompiledKindView>, d: DimMap, g: Grade, n: int)
    requires
        n >= 0,
    ensures
        forall|i: int| candidates(ks, d, g, n).contains(i) <==> 0 <= i < n && candidate(ks, d, g, i),
        forall|j: int|
            0 <= j < candidates(ks, d, g, n).len() ==> 0 <= #[trigger] candidates(ks, d, g, n)[j] < n,
    decreases n,
{
    if n > 0 {
        lemma_candidates(ks, d, g, n - 1);
        let prev = candidates(ks, d, g, n - 1);
        if candidate(ks, d, g, n - 1) {
            assert forall|i: int| candidates(ks, d, g, n).contains(i) <==> 0 <= i < n && candidate(
                ks,
                d,
                g,
                i,
            ) by {
                if i == n - 1 {
                    assert(candidates(ks, d, g, n)[prev.len() as int] == i);
                }
                if candidates(ks, d, g, n).contains(i) && i != n - 1 {
                    let j = choose|j: int| 0 <= j < candidates(ks, d, g, n).len() && candidates(ks, d, g, n)[j] == i;
                    assert(j < prev.len());
                    assert(prev[j] == i);
                }
                if 0 <= i < n - 1 && candidate(ks, d, g, i) {
                    let j = choose|j: int| 0 <= j < prev.len() && prev[j] == i;
                    assert(candidates(ks, d, g, n)[j] == i);
                }
            }
        }
    }
}

/// Point kinds take part in no product or quotient.
pub proof fn law_points_take_no_products(v: RegistryView, l: int, op: ProductOp, r: int)
    requires
        0 <= l < v.kinds.len(),
        0 <= r < v.kinds.len(),
        v.kinds[l].role == AffineRole::Point || v.kinds[r].role == AffineRole::Point,
    ensures
        product_spec(v, l, op, r) == Err::<int, QuantityErrorView>(
            refused(v, Operation::Binary(product_op(op)), l, r),
        ),
{
}

/// No product or quotient is a point kind.
pub proof fn law_products_are_not_points(v: RegistryView, l: int, op: ProductOp, r: int)
    requires
        registry_ok(v),
        registry_kinds_ok(v),
        0 <= l < v.kinds.len(),
        0 <= r < v.kinds.len(),
    ensures
        product_spec(v, l, op, r) matches Ok(k) ==> 0 <= k < v.kinds.len() && v.kinds[k].role
            != AffineRole::Point,
{
    reveal(registry_kinds_ok);
    let ks = v.kinds;
    let n = ks.len() as int;
    match derive_spec(ks, v.dimensionless, duration_of(v), l, op, r) {
        Ok(d) => {
            assert(ks[l].role != AffineRole::Point && ks[r].role != AffineRole::Point);
            let cs = candidates(ks, d.dimensions, d.grade, n);
            lemma_candidates(ks, d.dimensions, d.grade, n);
            if cs.len() > 0 {
                assert(cs.contains(cs[0]));
                assert(candidate(ks, d.dimensions, d.grade, cs[0]));
            }
            if let Some(o) = v.dimensionless {
                assert(ks[o].role == AffineRole::Linear);
            }
            match d.resolved {
                ResolvedView::Kind(k) => {
                    match neutral(v.dimensionless, l, op, r) {
                        Some(x) => {
                            assert(x == k);
                        },
                        None => {
                            if cs.len() != 1 {
                                assert(cs.contains(k));
                                assert(candidate(ks, d.dimensions, d.grade, k));
                            }
                        },
                    }
                },
                ResolvedView::Twins(_) => {
                    let p = row_for(v.twins, l, op, r);
                    lemma_first_where(v.twins.len() as int, p);
                    if let Some(q) = crate::search::first_where(v.twins.len() as int, p) {
                        assert(0 <= v.twins[q].3 < n);
                        assert(ks[v.twins[q].3].role != AffineRole::Point);
                    }
                },
                ResolvedView::NoKind => {},
            }
        },
        Err(_) => {},
    }
}

/// The dimensionless kind is neutral under multiplication and divides out,
/// and a kind divided by itself is the dimensionless kind, wherever the
/// grades have a product.
pub proof fn law_dimensionless_scales_and_cancels(v: RegistryView, k: int)
    requires
        registry_ok(v),
        registry_kinds_ok(v),
        0 <= k < v.kinds.len(),
        v.kinds[k].role != AffineRole::Point,
        v.kinds[k].dimensions is Some,
        v.dimensionless is Some,
    ensures
        ({
            let o = v.dimensionless->0;
            let gk = v.kinds[k].grade;
            let go = v.kinds[o].grade;
            &&& crate::grade::grade_product(gk, ProductOp::Mul, go) is Some ==> product_spec(
                v,
                k,
                ProductOp::Mul,
                o,
            ) == Ok::<int, QuantityErrorView>(k)
            &&& crate::grade::grade_product(go, ProductOp::Mul, gk) is Some ==> product_spec(
                v,
                o,
                ProductOp::Mul,
                k,
            ) == Ok::<int, QuantityErrorView>(k)
            &&& crate::grade::grade_product(gk, ProductOp::Div, go) is Some ==> product_spec(
                v,
                k,
                ProductOp::Div,
                o,
            ) == Ok::<int, QuantityErrorView>(k)
            &&& crate::grade::grade_product(gk, ProductOp::Div, gk) is Some ==> product_spec(
                v,
                k,
                ProductOp::Div,
                k,
            ) == Ok::<int, QuantityErrorView>(o)
        }),
{
    reveal(registry_kinds_ok);
}

/// A point kind minus itself is its difference kind; a point kind plus or
/// minus its difference kind, and a difference plus a point, is the point
/// kind; two points never add.
pub proof fn law_affine_sums(v: RegistryView, p: int)
    requires
        registry_ok(v),
        registry_kinds_ok(v),
        0 <= p < v.kinds.len(),
        v.kinds[p].role == AffineRole::Point,
    ensures
        v.kinds[p].difference is Some,
        ({
            let d = v.kinds[p].difference->0;
            &&& sum_spec(v, p, Op::Sub, p) == Ok::<int, QuantityErrorView>(d)
            &&& sum_spec(v, p, Op::Add, d) == Ok::<int, QuantityErrorView>(p)
            &&& sum_spec(v, p, Op::Sub, d) == Ok::<int, QuantityErrorView>(p)
            &&& sum_spec(v, d, Op::Add, p) == Ok::<int, QuantityErrorView>(p)
            &&& sum_spec(v, p, Op::Add, p) == Err::<int, QuantityErrorView>(
                refused(v, Operation::Binary(Op::Add), p, p),
            )
        }),
{
    reveal(registry_kinds_ok);
    assert(v.kinds[p].role == AffineRole::Point);
    let d = v.kinds[p].difference->0;
    assert(v.kinds[d].role == AffineRole::Difference);
}

/// Two different kinds that are not points never add or subtract, whatever
/// their dimensions; a kind that is not a point adds to itself.
pub proof fn law_kinds_do_not_mix(v: RegistryView, a: int, b: int, op: Op)
    requires
        0 <= a < v.kinds.len(),
        0 <= b < v.kinds.len(),
        v.kinds[a].role != AffineRole::Point,
        v.kinds[b].role != AffineRole::Point,
        op == Op::Add || op == Op::Sub,
    ensures
        a != b ==> sum_spec(v, a, op, b) == Err::<int, QuantityErrorView>(mismatched(v, a, b)),
        sum_spec(v, a, op, a) == Ok::<int, QuantityErrorView>(a),
{
}

/// A rate times a scalar duration is what it is the rate of, and that kind
/// divided by the duration is its rate (for a rate other than the
/// dimensionless kind, of a kind other than the duration).
#[verifier::rlimit(50)]
pub proof fn law_rates(v: RegistryView, i: int)
    requires
        registry_ok(v),
        registry_kinds_ok(v),
        registry_dims_ok(v),
        0 <= i < v.kinds.len(),
        v.kinds[i].rate_of is Some,
        duration_of(v) matches Some(d) && v.kinds[d].grade == Grade::Scalar,
        v.dimensionless != Some(i),
        v.kinds[i].rate_of != duration_of(v),
    ensures
        product_spec(v, i, ProductOp::Mul, duration_of(v)->0) == Ok::<int, QuantityErrorView>(
            v.kinds[i].rate_of->0,
        ),
        product_spec(v, v.kinds[i].rate_of->0, ProductOp::Div, duration_of(v)->0) == Ok::<
            int,
            QuantityErrorView,
        >(i),
{
    reveal(registry_kinds_ok);
    reveal(registry_dims_ok);
    let ks = v.kinds;
    let t = ks[i].rate_of->0;
    let d = duration_of(v)->0;
    assert(rate_ok(v, i, t));
    assert(0 <= t < ks.len());
    let tm = v.time->0;
    assert(0 <= tm < ks.len());
    assert(0 <= d < ks.len());
    assert(ks[tm].role == AffineRole::Point);
    assert(ks[d].role == AffineRole::Difference);
    let di = ks[i].dimensions->0;
    let dd = ks[d].dimensions->0;
    let dt = ks[t].dimensions->0;
    assert(dims_ok(di) && dims_ok(dd) && dims_ok(dt));
    assert(dt == dims_mul(di, dd));
    // times the duration
    let g = ks[i].grade;
    assert(crate::grade::grade_product(g, ProductOp::Mul, Grade::Scalar) == Some(g)) by {
        match g {
            Grade::Scalar => {},
            Grade::Vector => {},
            Grade::Bivector => {},
            Grade::Trivector => {},
        }
    }
    lemma_candidates(ks, dims_mul(di, dd), g, ks.len() as int);
    assert(candidate(ks, dims_mul(di, dd), g, t));
    let cs = candidates(ks, dims_mul(di, dd), g, ks.len() as int);
    assert(cs.contains(t));
    if cs.len() == 1 {
        assert(cs.contains(cs[0]));
    }
    if let Some(o) = v.dimensionless {
        assert(ks[o].role == AffineRole::Linear);
    }
    assert(neutral(v.dimensionless, i, ProductOp::Mul, d) is None);
    // divided by the duration
    crate::laws::law_dims_div_cancels(di, dd);
    assert(crate::dimension::dims_div(dt, dd) == di);
    assert(crate::grade::grade_product(g, ProductOp::Div, Grade::Scalar) == Some(g)) by {
        match g {
            Grade::Scalar => {},
            Grade::Vector => {},
            Grade::Bivector => {},
            Grade::Trivector => {},
        }
    }
    lemma_candidates(ks, di, g, ks.len() as int);
    assert(candidate(ks, di, g, i));
    let cs2 = candidates(ks, di, g, ks.len() as int);
    assert(cs2.contains(i));
    if cs2.len() == 1 {
        assert(cs2.contains(cs2[0]));
    }
    assert(neutral(v.dimensionless, t, ProductOp::Div, d) is None);
}

// ---------------------------------------------------------------------------
// Conversion.
/// Scaling a well-formed value by a nonzero scalar keeps it well formed.
proof fn lemma_scale_ok(a: ValueMap, s: ScalarModel)
    requires
        value_ok(a),
        canonical(s.0),
        s.0.0 != 0,
    ensures
        value_ok(value_mul_scalar(a, s)),
        value_ok(value_div_scalar(a, s)),
{
    let m = value_mul_scalar(a, s);
    let d = value_div_scalar(a, s);
    assert forall|k: int| #[trigger] m.contains_key(k) implies m[k].0 != 0 && canonical(m[k]) by {
        lemma_rat_ops(a[k - s.1], s.0);
    }
    assert forall|k: int| #[trigger] d.contains_key(k) implies d[k].0 != 0 && canonical(d[k]) by {
        lemma_rat_ops(a[k + s.1], s.0);
    }
}

/// The exact scale of unit `u`, where it has one, is a canonical nonzero
/// fraction times a power of pi, and its offset is well formed.
proof fn lemma_exact_conversion_ok(v: RegistryView, u: int)
    requires
        registry_units_ok(v),
        0 <= u < v.units.len(),
        exact_conversion_spec(v, u) is Ok,
    ensures
        ({
            let (_, s, o) = exact_conversion_spec(v, u)->Ok_0;
            canonical(s.0) && s.0.0 != 0 && value_ok(o)
        }),
{
    reveal(registry_units_ok);
    assert(unit_magnitudes_ok(v.units[u]));
    if let Some(c) = v.units[u].conversion {
        if let crate::catalog::Magnitude::Exact(s) = c.scale {
            crate::bignum::lemma_rational_canonical(s.rational);
        }
    }
}

/// Converting a value exactly to another unit of its kind and back gives
/// the value back.
pub proof fn law_conversion_round_trip(v: RegistryView, k: int, x: ValueMap, u: int, w: int)
    requires
        registry_units_ok(v),
        0 <= k < v.kinds.len(),
        0 <= u < v.units.len(),
        0 <= w < v.units.len(),
        value_ok(x),
        convert_spec(v, k, x, u, w) is Ok,
    ensures
        convert_spec(v, k, convert_spec(v, k, x, u, w)->Ok_0, w, u) == Ok::<ValueMap, QuantityErrorView>(x),
{
    let (fr, fs, fo) = exact_conversion_spec(v, u)->Ok_0;
    let (tr, ts, tof) = exact_conversion_spec(v, w)->Ok_0;
    lemma_exact_conversion_ok(v, u);
    lemma_exact_conversion_ok(v, w);
    let y = convert_spec(v, k, x, u, w)->Ok_0;
    let m = value_mul_scalar(x, fs);
    lemma_scale_ok(x, fs);
    if v.kinds[k].role == AffineRole::Point {
        let z1 = value_add(m, fo);
        lemma_coeff_add_sub(m, fo, 0);
        let z = value_sub(z1, tof);
        lemma_coeff_add_sub(z1, tof, 0);
        assert(y == value_div_scalar(z, ts));
        law_value_scale(z, ts);
        lemma_scale_ok(z, ts);
        let back = value_mul_scalar(y, ts);
        assert(back == z);
        law_value_add_sub(z1, tof);
        law_value_add_sub(m, fo);
        assert(value_sub(value_add(back, tof), fo) == m);
        law_value_scale(x, fs);
    } else {
        assert(y == value_div_scalar(m, ts));
        law_value_scale(m, ts);
        law_value_scale(x, fs);
    }
}

/// Exact conversion keeps the quantity. For a point kind the value `y` in
/// unit `w` and the value `x` in unit `u` name the same reference value,
/// each unit's scale times its value plus its offset; for any other kind
/// they name the same reference magnitude, each scale times its value. A
/// conversion that succeeds has exact scales and offsets on both units.
pub proof fn law_conversion_keeps_reference(v: RegistryView, k: int, x: ValueMap, u: int, w: int)
    requires
        registry_units_ok(v),
        0 <= k < v.kinds.len(),
        0 <= u < v.units.len(),
        0 <= w < v.units.len(),
        value_ok(x),
    ensures
        convert_spec(v, k, x, u, w) matches Ok(y) ==> match (v.units[u].conversion, v.units[w].conversion) {
            (Some(cu), Some(cw)) => match (cu.scale, cu.offset, cw.scale, cw.offset) {
                (
                    crate::catalog::Magnitude::Exact(su),
                    crate::catalog::Magnitude::Exact(ou),
                    crate::catalog::Magnitude::Exact(sw),
                    crate::catalog::Magnitude::Exact(ow),
                ) => if v.kinds[k].role == AffineRole::Point {
                    value_add(value_mul_scalar(y, sw@), ow@) == value_add(value_mul_scalar(x, su@), ou@)
                } else {
                    value_mul_scalar(y, sw@) == value_mul_scalar(x, su@)
                },
                _ => false,
            },
            _ => false,
        },
{
    if convert_spec(v, k, x, u, w) is Ok {
        let (fr, fs, fo) = exact_conversion_spec(v, u)->Ok_0;
        let (tr, ts, tof) = exact_conversion_spec(v, w)->Ok_0;
        lemma_exact_conversion_ok(v, u);
        lemma_exact_conversion_ok(v, w);
        let m = value_mul_scalar(x, fs);
        lemma_scale_ok(x, fs);
        if v.kinds[k].role == AffineRole::Point {
            let z1 = value_add(m, fo);
            lemma_coeff_add_sub(m, fo, 0);
            let z = value_sub(z1, tof);
            lemma_coeff_add_sub(z1, tof, 0);
            law_value_scale(z, ts);
            law_value_add_sub(z1, tof);
        } else {
            law_value_scale(m, ts);
        }
    }
}

} // verus!

verus! {

/// Every unit of a catalog that compiles converts to a declared unit that is
/// terminal (its own reference, with scale one and offset zero), and each
/// resolved dimension of the unit's kinds is that of some kind of the
/// reference.
pub proof fn law_references_are_terminal(c: Catalog, finite: Seq<bool>, w: int)
    requires
        compile_fault(c, finite) is None,
        0 <= w < c.units@.len(),
        c.units@[w].conversion is Some,
    ensures
        ({
            let reference = c.units@[w].conversion->0.reference_unit@;
            &&& unit_index(c, reference) is Some
            &&& c.units@[unit_index(c, reference)->0].id@ == reference
            &&& unit_terminal(c.units@[unit_index(c, reference)->0])
            &&& forall|j: int|
                0 <= j < c.units@[w].kinds@.len() ==> (named_dimensions(c, #[trigger] c.units@[w].kinds@[j]@) matches Some(
                    d,
                ) ==> exists|m: int|
                    0 <= m < c.units@[unit_index(c, reference)->0].kinds@.len() && named_dimensions(
                        c,
                        c.units@[unit_index(c, reference)->0].kinds@[m]@,
                    ) == Some(d))
        }),
{
    let nu = c.units@.len() as int;
    assert(first_some(nu, reference_faults(c)) is None);
    lemma_first_some_none_all(nu, reference_faults(c));
    assert(reference_faults(c)(w) is None);
    assert(reference_fault(c, w) is None);
    let u = c.units@[w];
    let reference = u.conversion->0.reference_unit@;
    let t = unit_index(c, reference)->0;
    lemma_first_index(unit_ids(c), reference);
    assert(unit_ids(c)[t] == reference);
    assert(unit_ids(c)[t] == c.units@[t].id@);
    assert(first_some(u.kinds@.len() as int, incompatible_faults(c, w, t)) is None);
    lemma_first_some_none_all(u.kinds@.len() as int, incompatible_faults(c, w, t));
    assert forall|j: int| 0 <= j < u.kinds@.len() implies (named_dimensions(c, #[trigger] u.kinds@[j]@) matches Some(d)
        ==> exists|m: int|
        0 <= m < c.units@[t].kinds@.len() && named_dimensions(c, c.units@[t].kinds@[m]@) == Some(d)) by {
        assert(incompatible_faults(c, w, t)(j) is None);
        assert(incompatible_fault(c, w, t, j) is None);
    }
}

} // verus!
