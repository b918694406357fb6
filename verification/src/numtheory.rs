//! Facts about integers that exact rational arithmetic rests on: the greatest
//! common divisor, Bezout's identity, and the uniqueness of a fraction in
//! lowest terms with a positive denominator.
use vstd::arithmetic::div_mod::{lemma_fundamental_div_mod, lemma_mod_multiples_basic};
use vstd::prelude::*;

verus! {

/// The absolute value of an integer.
pub open spec fn abs(a: int) -> nat {
    if a < 0 {
        (-a) as nat
    } else {
        a as nat
    }
}

/// The greatest common divisor, by Euclid's algorithm (`gcd(0, 0) == 0`).
pub open spec fn gcd(a: nat, b: nat) -> nat
    decreases b,
{
    if b == 0 {
        a
    } else {
        gcd(b, a % b)
    }
}

/// A fraction `numerator / denominator` in lowest terms with a positive
/// denominator: the only form in which an exact rational is kept.
pub open spec fn canonical(r: (int, int)) -> bool {
    r.1 > 0 && gcd(abs(r.0), abs(r.1)) == 1
}

/// The canonical fraction whose value is `n / d` (for `d != 0`).
pub open spec fn rat(n: int, d: int) -> (int, int) {
    choose|r: (int, int)| canonical(r) && r.0 * d == n * r.1
}

/// `a + b`, `-a`, `a - b`, `a * b` and `a / b` over canonical fractions.
pub open spec fn rat_add(a: (int, int), b: (int, int)) -> (int, int) {
    rat(a.0 * b.1 + b.0 * a.1, a.1 * b.1)
}

pub open spec fn rat_neg(a: (int, int)) -> (int, int) {
    (-a.0, a.1)
}

pub open spec fn rat_sub(a: (int, int), b: (int, int)) -> (int, int) {
    rat_add(a, rat_neg(b))
}

pub open spec fn rat_mul(a: (int, int), b: (int, int)) -> (int, int) {
    rat(a.0 * b.0, a.1 * b.1)
}

pub open spec fn rat_div(a: (int, int), b: (int, int)) -> (int, int) {
    rat(a.0 * b.1, a.1 * b.0)
}

/// The integer `n` as a fraction.
pub open spec fn rat_int(n: int) -> (int, int) {
    (n, 1)
}

pub open spec fn rat_zero() -> (int, int) {
    (0, 1)
}

proof fn lemma_gcd_positive(a: nat, b: nat)
    requires
        a > 0 || b > 0,
    ensures
        gcd(a, b) > 0,
    decreases b,
{
    if b != 0 {
        lemma_gcd_positive(b, a % b);
    }
}

pub proof fn lemma_gcd_divides(a: nat, b: nat)
    requires
        a > 0 || b > 0,
    ensures
        gcd(a, b) > 0,
        a == gcd(a, b) * (a as int / gcd(a, b) as int),
        b == gcd(a, b) * (b as int / gcd(a, b) as int),
    decreases b,
{
    lemma_gcd_positive(a, b);
    let g = gcd(a, b) as int;
    if b == 0 {
        assert(a == g * (a as int / g)) by {
            lemma_fundamental_div_mod(a as int, g);
            lemma_mod_multiples_basic(1, g);
        }
        assert(0int == g * (0int / g)) by (nonlinear_arith)
            requires
                g > 0,
        ;
    } else {
        let r = (a % b) as nat;
        lemma_gcd_divides(b, r);
        let kb = b as int / g;
        let kr = r as int / g;
        lemma_fundamental_div_mod(a as int, b as int);
        let q = a as int / b as int;
        assert(a == g * (kb * q + kr)) by (nonlinear_arith)
            requires
                a == b * q + r,
                b == g * kb,
                r == g * kr,
        ;
        assert((g * (kb * q + kr)) % g == 0) by {
            lemma_mod_multiples_basic(kb * q + kr, g);
            assert(g * (kb * q + kr) == (kb * q + kr) * g) by (nonlinear_arith);
        }
        lemma_fundamental_div_mod(a as int, g);
    }
}

/// Bezout's identity: `x * a + y * b == gcd(a, b)` for some integers.
pub proof fn lemma_bezout(a: nat, b: nat) -> (r: (int, int))
    ensures
        r.0 * a + r.1 * b == gcd(a, b),
    decreases b,
{
    if b == 0 {
        (1, 0)
    } else {
        let r = (a % b) as nat;
        let (x, y) = lemma_bezout(b, r);
        lemma_fundamental_div_mod(a as int, b as int);
        let q = a as int / b as int;
        assert(y * a + (x - y * q) * b == x * b + y * r) by (nonlinear_arith)
            requires
                a == b * q + r,
        ;
        (y, x - y * q)
    }
}

/// A combination equal to one leaves no common divisor but one.
proof fn lemma_coprime_from_combination(a: int, b: int, x: int, y: int)
    requires
        x * a + y * b == 1,
    ensures
        gcd(abs(a), abs(b)) == 1,
{
    if a == 0 && b == 0 {
        assert(x * a + y * b == 0) by (nonlinear_arith)
            requires
                a == 0 && b == 0,
        ;
    }
    lemma_gcd_divides(abs(a), abs(b));
    let g = gcd(abs(a), abs(b)) as int;
    let ka = abs(a) as int / g;
    let kb = abs(b) as int / g;
    let sa: int = if a < 0 { -1 } else { 1 };
    let sb: int = if b < 0 { -1 } else { 1 };
    assert(a == sa * abs(a) && b == sb * abs(b)) by (nonlinear_arith)
        requires
            sa == (if a < 0 { -1int } else { 1int }),
            sb == (if b < 0 { -1int } else { 1int }),
            abs(a) == (if a < 0 { -a } else { a }),
            abs(b) == (if b < 0 { -b } else { b }),
    ;
    assert(g * (x * sa * ka + y * sb * kb) == 1) by (nonlinear_arith)
        requires
            x * a + y * b == 1,
            a == sa * abs(a),
            b == sb * abs(b),
            abs(a) == g * ka,
            abs(b) == g * kb,
    ;
    assert(g == 1) by (nonlinear_arith)
        requires
            g > 0,
            g * (x * sa * ka + y * sb * kb) == 1,
    ;
}

/// A canonical fraction is determined by its value.
pub proof fn lemma_canonical_unique(p: (int, int), q: (int, int))
    requires
        canonical(p),
        canonical(q),
        p.0 * q.1 == q.0 * p.1,
    ensures
        p == q,
{
    let (x, y) = lemma_bezout(abs(p.0), abs(p.1));
    let (u, v) = lemma_bezout(abs(q.0), abs(q.1));
    let sp: int = if p.0 < 0 { -x } else { x };
    let sq: int = if q.0 < 0 { -u } else { u };
    assert(sp * p.0 + y * p.1 == 1) by (nonlinear_arith)
        requires
            x * abs(p.0) + y * abs(p.1) == 1,
            sp == (if p.0 < 0 { -x } else { x }),
            abs(p.0) == (if p.0 < 0 { -p.0 } else { p.0 }),
            abs(p.1) == p.1,
    ;
    assert(sq * q.0 + v * q.1 == 1) by (nonlinear_arith)
        requires
            u * abs(q.0) + v * abs(q.1) == 1,
            sq == (if q.0 < 0 { -u } else { u }),
            abs(q.0) == (if q.0 < 0 { -q.0 } else { q.0 }),
            abs(q.1) == q.1,
    ;
    // p.1 divides q.1 and q.1 divides p.1.
    let k = sp * q.0 + y * q.1;
    let m = sq * p.0 + v * p.1;
    assert(q.1 == p.1 * k) by (nonlinear_arith)
        requires
            sp * p.0 + y * p.1 == 1,
            p.0 * q.1 == q.0 * p.1,
            k == sp * q.0 + y * q.1,
    ;
    assert(p.1 == q.1 * m) by (nonlinear_arith)
        requires
            sq * q.0 + v * q.1 == 1,
            p.0 * q.1 == q.0 * p.1,
            m == sq * p.0 + v * p.1,
    ;
    assert(k == 1) by (nonlinear_arith)
        requires
            p.1 > 0,
            q.1 > 0,
            q.1 == p.1 * k,
            p.1 == q.1 * m,
    ;
    assert(p.0 == q.0) by (nonlinear_arith)
        requires
            p.1 == q.1,
            p.1 > 0,
            p.0 * q.1 == q.0 * p.1,
    ;
}

/// Every value `n / d` with `d != 0` has a canonical fraction, and `rat`
/// picks it.
pub proof fn lemma_rat(n: int, d: int)
    requires
        d != 0,
    ensures
        canonical(rat(n, d)),
        rat(n, d).0 * d == n * rat(n, d).1,
{
    lemma_gcd_divides(abs(n), abs(d));
    let g = gcd(abs(n), abs(d)) as int;
    let (x, y) = lemma_bezout(abs(n), abs(d));
    let kn = abs(n) as int / g;
    let kd = abs(d) as int / g;
    let sn: int = if n < 0 { -1 } else { 1 };
    let sd: int = if d < 0 { -1 } else { 1 };
    assert(n == sn * abs(n) && d == sd * abs(d) && sn * sn == 1 && sd * sd == 1) by (nonlinear_arith)
        requires
            sn == (if n < 0 { -1int } else { 1int }),
            sd == (if d < 0 { -1int } else { 1int }),
            abs(n) == (if n < 0 { -n } else { n }),
            abs(d) == (if d < 0 { -d } else { d }),
    ;
    // n / g and d / g, with signs.
    let a = sn * kn;
    let b = sd * kd;
    assert(n == g * a && d == g * b) by (nonlinear_arith)
        requires
            n == sn * abs(n),
            d == sd * abs(d),
            abs(n) == g * kn,
            abs(d) == g * kd,
            a == sn * kn,
            b == sd * kd,
    ;
    assert((x * sn) * a + (y * sd) * b == 1) by (nonlinear_arith)
        requires
            x * abs(n) + y * abs(d) == g,
            g > 0,
            abs(n) == g * kn,
            abs(d) == g * kd,
            a == sn * kn,
            b == sd * kd,
            sn * sn == 1,
            sd * sd == 1,
            n == sn * abs(n),
            d == sd * abs(d),
    ;
    assert(b != 0) by (nonlinear_arith)
        requires
            d == g * b,
            d != 0,
    ;
    let r: (int, int) = if b > 0 { (a, b) } else { (-a, -b) };
    assert(r.0 * d == n * r.1) by (nonlinear_arith)
        requires
            n == g * a,
            d == g * b,
            r.0 == a && r.1 == b || r.0 == -a && r.1 == -b,
    ;
    if b > 0 {
        lemma_coprime_from_combination(a, b, x * sn, y * sd);
    } else {
        assert((-(x * sn)) * (-a) + (-(y * sd)) * (-b) == 1) by (nonlinear_arith)
            requires
                (x * sn) * a + (y * sd) * b == 1,
        ;
        lemma_coprime_from_combination(-a, -b, -(x * sn), -(y * sd));
    }
    assert(canonical(r));
}

/// A canonical fraction is its own `rat`.
pub proof fn lemma_rat_of_canonical(r: (int, int), n: int, d: int)
    requires
        canonical(r),
        d != 0,
        r.0 * d == n * r.1,
    ensures
        rat(n, d) == r,
{
    lemma_rat(n, d);
    let s = rat(n, d);
    assert(s.0 * r.1 == r.0 * s.1) by (nonlinear_arith)
        requires
            s.0 * d == n * s.1,
            r.0 * d == n * r.1,
            d != 0,
            r.1 > 0,
            s.1 > 0,
    ;
    lemma_canonical_unique(s, r);
}

/// Integers and their negations are canonical.
pub proof fn lemma_int_canonical(n: int)
    ensures
        canonical(rat_int(n)),
{
    lemma_coprime_from_combination(n, 1, 0, 1);
}

pub proof fn lemma_neg_canonical(a: (int, int))
    requires
        canonical(a),
    ensures
        canonical(rat_neg(a)),
{
    assert(abs(-a.0) == abs(a.0));
}

/// The sum, product and quotient of canonical fractions are canonical, with
/// the values arithmetic gives.
pub proof fn lemma_rat_ops(a: (int, int), b: (int, int))
    requires
        canonical(a),
        canonical(b),
    ensures
        canonical(rat_add(a, b)),
        rat_add(a, b).0 * (a.1 * b.1) == (a.0 * b.1 + b.0 * a.1) * rat_add(a, b).1,
        canonical(rat_mul(a, b)),
        rat_mul(a, b).0 * (a.1 * b.1) == (a.0 * b.0) * rat_mul(a, b).1,
        b.0 != 0 ==> canonical(rat_div(a, b)),
        b.0 != 0 ==> rat_div(a, b).0 * (a.1 * b.0) == (a.0 * b.1) * rat_div(a, b).1,
{
    assert(a.1 * b.1 != 0) by (nonlinear_arith)
        requires
            a.1 > 0,
            b.1 > 0,
    ;
    lemma_rat(a.0 * b.1 + b.0 * a.1, a.1 * b.1);
    lemma_rat(a.0 * b.0, a.1 * b.1);
    if b.0 != 0 {
        assert(a.1 * b.0 != 0) by (nonlinear_arith)
            requires
                a.1 > 0,
                b.0 != 0,
        ;
        lemma_rat(a.0 * b.1, a.1 * b.0);
    }
}

/// A canonical fraction is zero exactly when its numerator is.
pub proof fn lemma_zero_canonical()
    ensures
        canonical(rat_zero()),
{
    lemma_int_canonical(0);
}

/// `a + b` is zero exactly when `b` is `-a`.
pub proof fn lemma_add_zero_iff(a: (int, int), b: (int, int))
    requires
        canonical(a),
        canonical(b),
    ensures
        (rat_add(a, b) == rat_zero()) <==> (b == rat_neg(a)),
{
    lemma_rat_ops(a, b);
    lemma_neg_canonical(a);
    let s = rat_add(a, b);
    if s == rat_zero() {
        assert(a.0 * b.1 + b.0 * a.1 == 0) by (nonlinear_arith)
            requires
                s.0 * (a.1 * b.1) == (a.0 * b.1 + b.0 * a.1) * s.1,
                s.0 == 0,
                s.1 == 1,
        ;
        assert(b.0 * a.1 == (-a.0) * b.1) by (nonlinear_arith)
            requires
                a.0 * b.1 + b.0 * a.1 == 0,
        ;
        lemma_canonical_unique(b, rat_neg(a));
    }
    if b == rat_neg(a) {
        assert(a.0 * b.1 + b.0 * a.1 == 0) by (nonlinear_arith)
            requires
                b.0 == -a.0,
                b.1 == a.1,
        ;
        lemma_zero_canonical();
        assert(a.1 * b.1 != 0) by (nonlinear_arith)
            requires
                a.1 > 0,
                b.1 > 0,
        ;
        assert(0 * (a.1 * b.1) == (a.0 * b.1 + b.0 * a.1) * 1);
        lemma_rat_of_canonical(rat_zero(), a.0 * b.1 + b.0 * a.1, a.1 * b.1);
    }
}

/// If `x / y` has the value `n / m` and `z / w` is the canonical sum of it and
/// `c0 / c1`, then `z / w` has the value `(n * c1 + c0 * m) / (m * c1)`.
proof fn lemma_scaled_sum(x: int, y: int, n: int, m: int, c0: int, c1: int, z: int, w: int)
    requires
        y > 0,
        m > 0,
        c1 > 0,
        x * m == n * y,
        z * (y * c1) == (x * c1 + c0 * y) * w,
    ensures
        z * (m * c1) == (n * c1 + c0 * m) * w,
{
    assert(z * (m * c1) * y == z * (y * c1) * m) by (nonlinear_arith);
    assert(z * (y * c1) * m == (x * c1 + c0 * y) * w * m) by (nonlinear_arith)
        requires
            z * (y * c1) == (x * c1 + c0 * y) * w,
    ;
    assert((x * c1 + c0 * y) * w * m == (x * m * c1 + c0 * y * m) * w) by (nonlinear_arith);
    assert(x * m * c1 == n * y * c1) by (nonlinear_arith)
        requires
            x * m == n * y,
    ;
    let p = n * c1;
    let q = c0 * m;
    assert(n * y * c1 == p * y) by (nonlinear_arith)
        requires
            p == n * c1,
    ;
    assert(c0 * y * m == q * y) by (nonlinear_arith)
        requires
            q == c0 * m,
    ;
    assert((p * y + q * y) * w == (p + q) * w * y) by (nonlinear_arith);
    lemma_cancel(z * (m * c1), (n * c1 + c0 * m) * w, y);
}

proof fn lemma_cancel(x: int, y: int, k: int)
    requires
        k != 0,
        x * k == y * k,
    ensures
        x == y,
{
    assert(x == y) by (nonlinear_arith)
        requires
            k != 0,
            x * k == y * k,
    ;
}

/// Two fractions with the value `s / d` have equal cross products.
proof fn lemma_cross(p0: int, p1: int, q0: int, q1: int, s: int, d: int)
    requires
        d > 0,
        p0 * d == s * p1,
        q0 * d == s * q1,
    ensures
        p0 * q1 == q0 * p1,
{
    assert(p0 * q1 * d == q0 * p1 * d) by (nonlinear_arith)
        requires
            p0 * d == s * p1,
            q0 * d == s * q1,
    ;
    lemma_cancel(p0 * q1, q0 * p1, d);
}

/// Adding zero changes nothing; addition commutes and associates.
pub proof fn lemma_add_zero(a: (int, int))
    requires
        canonical(a),
    ensures
        rat_add(a, rat_zero()) == a,
        rat_add(rat_zero(), a) == a,
{
    assert(a.0 * (a.1 * 1) == (a.0 * 1 + 0 * a.1) * a.1) by (nonlinear_arith);
    assert(a.0 * (1 * a.1) == (0 * a.1 + a.0 * 1) * a.1) by (nonlinear_arith);
    lemma_rat_of_canonical(a, a.0 * 1 + 0 * a.1, a.1 * 1);
    lemma_rat_of_canonical(a, 0 * a.1 + a.0 * 1, 1 * a.1);
}

pub proof fn lemma_add_commutes(a: (int, int), b: (int, int))
    requires
        canonical(a),
        canonical(b),
    ensures
        rat_add(a, b) == rat_add(b, a),
{
    assert(a.0 * b.1 + b.0 * a.1 == b.0 * a.1 + a.0 * b.1);
    assert(a.1 * b.1 == b.1 * a.1) by (nonlinear_arith);
}

pub proof fn lemma_add_associates(a: (int, int), b: (int, int), c: (int, int))
    requires
        canonical(a),
        canonical(b),
        canonical(c),
    ensures
        rat_add(rat_add(a, b), c) == rat_add(a, rat_add(b, c)),
{
    lemma_rat_ops(a, b);
    lemma_rat_ops(b, c);
    let ab = rat_add(a, b);
    let bc = rat_add(b, c);
    lemma_rat_ops(ab, c);
    lemma_rat_ops(a, bc);
    let l = rat_add(ab, c);
    let r = rat_add(a, bc);
    let sum = a.0 * b.1 * c.1 + b.0 * a.1 * c.1 + c.0 * a.1 * b.1;
    let den = a.1 * b.1 * c.1;
    assert(a.1 * b.1 > 0 && b.1 * c.1 > 0) by (nonlinear_arith)
        requires
            a.1 > 0,
            b.1 > 0,
            c.1 > 0,
    ;
    lemma_scaled_sum(ab.0, ab.1, a.0 * b.1 + b.0 * a.1, a.1 * b.1, c.0, c.1, l.0, l.1);
    assert(r.0 * (bc.1 * a.1) == (bc.0 * a.1 + a.0 * bc.1) * r.1) by (nonlinear_arith)
        requires
            r.0 * (a.1 * bc.1) == (a.0 * bc.1 + bc.0 * a.1) * r.1,
    ;
    lemma_scaled_sum(bc.0, bc.1, b.0 * c.1 + c.0 * b.1, b.1 * c.1, a.0, a.1, r.0, r.1);
    assert((a.1 * b.1) * c.1 == den) by (nonlinear_arith)
        requires
            den == a.1 * b.1 * c.1,
    ;
    assert((a.0 * b.1 + b.0 * a.1) * c.1 + c.0 * (a.1 * b.1) == sum) by (nonlinear_arith)
        requires
            sum == a.0 * b.1 * c.1 + b.0 * a.1 * c.1 + c.0 * a.1 * b.1,
    ;
    assert(l.0 * den == sum * l.1);
    assert((b.1 * c.1) * a.1 == den) by (nonlinear_arith)
        requires
            den == a.1 * b.1 * c.1,
    ;
    assert((b.0 * c.1 + c.0 * b.1) * a.1 + a.0 * (b.1 * c.1) == sum) by (nonlinear_arith)
        requires
            sum == a.0 * b.1 * c.1 + b.0 * a.1 * c.1 + c.0 * a.1 * b.1,
    ;
    assert(r.0 * den == sum * r.1);
    assert(den > 0) by (nonlinear_arith)
        requires
            a.1 > 0,
            b.1 > 0,
            c.1 > 0,
            den == a.1 * b.1 * c.1,
    ;
    lemma_cross(l.0, l.1, r.0, r.1, sum, den);
    lemma_canonical_unique(l, r);
}

/// Adding and then subtracting `b`, or the other way round, gives `a` back.
pub proof fn lemma_add_sub_cancel(a: (int, int), b: (int, int))
    requires
        canonical(a),
        canonical(b),
    ensures
        rat_sub(rat_add(a, b), b) == a,
        rat_add(rat_sub(a, b), b) == a,
{
    lemma_neg_canonical(b);
    lemma_rat_ops(a, b);
    lemma_rat_ops(a, rat_neg(b));
    lemma_add_associates(a, b, rat_neg(b));
    lemma_add_zero_iff(b, rat_neg(b));
    lemma_add_zero(a);
    lemma_add_associates(a, rat_neg(b), b);
    lemma_add_commutes(rat_neg(b), b);
}

/// A product of canonical fractions is zero exactly when a factor is.
pub proof fn lemma_mul_zero(a: (int, int), b: (int, int))
    requires
        canonical(a),
        canonical(b),
    ensures
        (rat_mul(a, b).0 == 0) <==> (a.0 == 0 || b.0 == 0),
{
    lemma_rat_ops(a, b);
    let m = rat_mul(a, b);
    assert(a.1 * b.1 != 0) by (nonlinear_arith)
        requires
            a.1 > 0,
            b.1 > 0,
    ;
    assert((m.0 == 0) <==> (a.0 * b.0 == 0)) by (nonlinear_arith)
        requires
            m.0 * (a.1 * b.1) == (a.0 * b.0) * m.1,
            m.1 > 0,
            a.1 * b.1 != 0,
    ;
    assert((a.0 * b.0 == 0) <==> (a.0 == 0 || b.0 == 0)) by (nonlinear_arith);
}

/// A quotient by a nonzero fraction is zero exactly when the dividend is.
pub proof fn lemma_div_zero(a: (int, int), b: (int, int))
    requires
        canonical(a),
        canonical(b),
        b.0 != 0,
    ensures
        (rat_div(a, b).0 == 0) <==> (a.0 == 0),
{
    lemma_rat_ops(a, b);
    let q = rat_div(a, b);
    assert(a.1 * b.0 != 0) by (nonlinear_arith)
        requires
            a.1 > 0,
            b.0 != 0,
    ;
    assert((q.0 == 0) <==> (a.0 * b.1 == 0)) by (nonlinear_arith)
        requires
            q.0 * (a.1 * b.0) == (a.0 * b.1) * q.1,
            q.1 > 0,
            a.1 * b.0 != 0,
    ;
    assert((a.0 * b.1 == 0) <==> (a.0 == 0)) by (nonlinear_arith)
        requires
            b.1 > 0,
    ;
}

/// Multiplying and then dividing by a nonzero `s`, or the other way round,
/// gives `a` back.
pub proof fn lemma_mul_div_cancel(a: (int, int), s: (int, int))
    requires
        canonical(a),
        canonical(s),
        s.0 != 0,
    ensures
        rat_div(rat_mul(a, s), s) == a,
        rat_mul(rat_div(a, s), s) == a,
{
    lemma_rat_ops(a, s);
    let m = rat_mul(a, s);
    let q = rat_div(a, s);
    lemma_rat_ops(m, s);
    lemma_rat_ops(q, s);
    let d = rat_div(m, s);
    let e = rat_mul(q, s);
    // d = (a * s) / s
    assert(d.0 * a.1 == a.0 * d.1) by (nonlinear_arith)
        requires
            m.0 * (a.1 * s.1) == (a.0 * s.0) * m.1,
            d.0 * (m.1 * s.0) == (m.0 * s.1) * d.1,
            s.0 != 0,
            s.1 > 0,
            m.1 > 0,
    {
        assert(d.0 * m.1 * s.0 * a.1 * s.1 == m.0 * s.1 * d.1 * a.1 * s.1) by (nonlinear_arith)
            requires
                d.0 * (m.1 * s.0) == (m.0 * s.1) * d.1,
        ;
        assert(m.0 * s.1 * d.1 * a.1 * s.1 == a.0 * s.0 * m.1 * s.1 * d.1) by (nonlinear_arith)
            requires
                m.0 * (a.1 * s.1) == (a.0 * s.0) * m.1,
        ;
        assert(d.0 * a.1 * (m.1 * s.0 * s.1) == d.0 * m.1 * s.0 * a.1 * s.1) by (nonlinear_arith);
        assert(a.0 * d.1 * (m.1 * s.0 * s.1) == a.0 * s.0 * m.1 * s.1 * d.1) by (nonlinear_arith);
        assert(m.1 * s.0 * s.1 != 0) by (nonlinear_arith)
            requires
                s.0 != 0,
                s.1 > 0,
                m.1 > 0,
        ;
        lemma_cancel(d.0 * a.1, a.0 * d.1, m.1 * s.0 * s.1);
    }
    lemma_canonical_unique(d, a);
    // e = (a / s) * s
    assert(e.0 * a.1 == a.0 * e.1) by (nonlinear_arith)
        requires
            q.0 * (a.1 * s.0) == (a.0 * s.1) * q.1,
            e.0 * (q.1 * s.1) == (q.0 * s.0) * e.1,
            s.0 != 0,
            s.1 > 0,
            q.1 > 0,
    {
        assert(e.0 * q.1 * s.1 * a.1 * s.0 == q.0 * s.0 * e.1 * a.1 * s.0) by (nonlinear_arith)
            requires
                e.0 * (q.1 * s.1) == (q.0 * s.0) * e.1,
        ;
        assert(q.0 * s.0 * e.1 * a.1 * s.0 == a.0 * s.1 * q.1 * s.0 * e.1) by (nonlinear_arith)
            requires
                q.0 * (a.1 * s.0) == (a.0 * s.1) * q.1,
        ;
        assert(e.0 * a.1 * (q.1 * s.1 * s.0) == e.0 * q.1 * s.1 * a.1 * s.0) by (nonlinear_arith);
        assert(a.0 * e.1 * (q.1 * s.1 * s.0) == a.0 * s.1 * q.1 * s.0 * e.1) by (nonlinear_arith);
        assert(q.1 * s.1 * s.0 != 0) by (nonlinear_arith)
            requires
                s.0 != 0,
                s.1 > 0,
                q.1 > 0,
        ;
        lemma_cancel(e.0 * a.1, a.0 * e.1, q.1 * s.1 * s.0);
    }
    lemma_canonical_unique(e, a);
}

} // verus!
