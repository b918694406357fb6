//! Buckingham Pi groups over exact dimension exponents: the dimension matrix
//! of the named quantities, brought to reduced row echelon form, and one
//! integer group per column without a pivot.
use crate::bignum::{
    integer_clone, integer_div, integer_from_i64, integer_is_zero, integer_lt, integer_mul, integer_neg,
    integer_rem, rational_clone, rational_denom, rational_from_integer, rational_is_zero, rational_mul,
    rational_neg, rational_one, rational_sub, rational_to_integer, rational_zero, rational_div,
    sign, trunc_div, Integer, Rational,
};
use crate::dimension::{power_in, Dimensions};
use crate::error::texts;
use crate::numtheory::{abs, canonical, gcd, lemma_rat_ops, rat_add, rat_div, rat_int, rat_mul, rat_neg, rat_sub, rat_zero};
use crate::strings::{str_eq, str_lt};
use crate::text::seq_lt;
use vstd::prelude::*;

verus! {

/// The remainder of a division rounded toward zero has the dividend's sign
/// and the magnitude of the remainder of the magnitudes.
#[verifier::spinoff_prover]
proof fn lemma_trunc_rem(a: int, b: int)
    requires
        b != 0,
    ensures
        abs(a - b * trunc_div(a, b)) == abs(a) % abs(b),
        abs(a) % abs(b) < abs(b),
{
    let (x, y) = (abs(a) as int, abs(b) as int);
    let q = x / y;
    let r = x % y;
    vstd::arithmetic::div_mod::lemma_fundamental_div_mod(x, y);
    assert(0 <= r < y) by {
        vstd::arithmetic::div_mod::lemma_mod_bound(x, y);
    }
    assert(b == sign(b) * y && sign(b) * sign(b) == 1) by {
        if b < 0 {
            assert(sign(b) == -1 && y == -b);
            assert(b == sign(b) * y && sign(b) * sign(b) == 1) by (nonlinear_arith)
                requires
                    sign(b) == -1,
                    y == -b,
            ;
        } else {
            assert(sign(b) == 1 && y == b);
            assert(b == sign(b) * y && sign(b) * sign(b) == 1) by (nonlinear_arith)
                requires
                    sign(b) == 1,
                    y == b,
            ;
        }
    }
    assert(b * trunc_div(a, b) == sign(a) * (y * q)) by (nonlinear_arith)
        requires
            trunc_div(a, b) == sign(a) * sign(b) * q,
            b == sign(b) * y,
            sign(b) * sign(b) == 1,
    ;
    assert(a == sign(a) * x) by (nonlinear_arith)
        requires
            x == abs(a) as int,
            sign(a) == (if a < 0 { -1int } else { 1int }),
    ;
    assert(a - b * trunc_div(a, b) == sign(a) * r) by (nonlinear_arith)
        requires
            a == sign(a) * x,
            b * trunc_div(a, b) == sign(a) * (y * q),
            x == y * q + r,
    ;
    if a < 0 {
        assert(sign(a) == -1);
        assert(sign(a) * r == -r) by (nonlinear_arith)
            requires
                sign(a) == -1,
        ;
    } else {
        assert(sign(a) == 1);
        assert(sign(a) * r == r) by (nonlinear_arith)
            requires
                sign(a) == 1,
        ;
    }
}

/// The greatest common divisor of two integers' magnitudes.
#[verifier::spinoff_prover]
pub fn gcd_integers(left: Integer, right: Integer) -> (r: Integer)
    ensures
        r@ == gcd(abs(left@), abs(right@)) as int,
{
    let mut left = left;
    let mut right = right;
    let ghost g = gcd(abs(left@), abs(right@));
    while !integer_is_zero(&right)
        invariant
            gcd(abs(left@), abs(right@)) == g,
        decreases abs(right@),
    {
        let remainder = integer_rem(&left, &right);
        proof {
            lemma_trunc_rem(left@, right@);
        }
        left = right;
        right = remainder;
    }
    if integer_lt(&left, &integer_from_i64(0)) {
        integer_neg(&left)
    } else {
        left
    }
}

/// The least common multiple as `left / gcd * right`, or `right` where
/// `left` is zero.
pub open spec fn lcm_spec(left: int, right: int) -> int {
    if left == 0 {
        right
    } else {
        trunc_div(left, gcd(abs(left), abs(right)) as int) * right
    }
}

proof fn lemma_gcd_nonzero(a: nat, b: nat)
    requires
        a != 0,
    ensures
        gcd(a, b) != 0,
    decreases b,
{
    if b != 0 {
        assert(a % b < b) by {
            vstd::arithmetic::div_mod::lemma_mod_bound(a as int, b as int);
        }
        if a % b != 0 {
            lemma_gcd_nonzero(b, a % b);
        } else {
            assert(gcd(a % b, 0) == a % b);
            lemma_gcd_nonzero(b, a % b);
        }
    }
}

/// `lcm_spec` of two integers.
pub fn lcm_integers(left: Integer, right: Integer) -> (r: Integer)
    ensures
        r@ == lcm_spec(left@, right@),
{
    if integer_is_zero(&left) {
        return right;
    }
    let g = gcd_integers(left.clone(), right.clone());
    proof {
        lemma_gcd_nonzero(abs(left@), abs(right@));
    }
    integer_mul(&integer_div(&left, &g), &right)
}

/// Identifiers strictly increasing.
pub open spec fn ids_sorted(s: Seq<Seq<char>>) -> bool {
    forall|i: int, j: int| 0 <= i < j < s.len() ==> seq_lt(#[trigger] s[i], #[trigger] s[j])
}

/// Where `id` goes among sorted `names`: none where it is there already.
#[verifier::spinoff_prover]
fn place_of(names: &Vec<String>, id: &str) -> (r: Option<usize>)
    requires
        ids_sorted(texts(names@)),
    ensures
        r is None ==> texts(names@).contains(id@),
        r matches Some(p) ==> p <= names.len() && (forall|j: int| 0 <= j < p ==> seq_lt(#[trigger] texts(names@)[j], id@)) && (forall|j: int|
            p <= j < names.len() ==> seq_lt(id@, #[trigger] texts(names@)[j])),
{
    let n = names.len();
    let ghost s = texts(names@);
    for i in 0..n
        invariant
            n == names.len(),
            s == texts(names@),
            ids_sorted(s),
            forall|j: int| 0 <= j < i ==> seq_lt(#[trigger] s[j], id@),
    {
        assert(s[i as int] == names@[i as int]@);
        if str_eq(names[i].as_str(), id) {
            return None;
        }
        if str_lt(id, names[i].as_str()) {
            proof {
                assert forall|j: int| i <= j < n implies seq_lt(id@, #[trigger] s[j]) by {
                    if j > i {
                        crate::ordered::lemma_lt_transitive(id@, s[i as int], s[j]);
                    }
                }
            }
            return Some(i);
        }
        proof {
            crate::ordered::lemma_lt_total(s[i as int], id@);
        }
    }
    Some(n)
}

/// `names` with `id` added in its place, unless it is there.
#[verifier::spinoff_prover]
fn insert_sorted(names: &mut Vec<String>, id: String)
    requires
        ids_sorted(texts(old(names)@)),
    ensures
        ids_sorted(texts(final(names)@)),
        forall|k: Seq<char>| texts(final(names)@).contains(k) <==> (texts(old(names)@).contains(k) || k == id@),
{
    let ghost before = texts(names@);
    match place_of(names, id.as_str()) {
        None => {},
        Some(p) => {
            let ghost x = id@;
            names.insert(p, id);
            let ghost after = texts(names@);
            assert(after =~= before.insert(p as int, x));
            assert forall|i: int, j: int| 0 <= i < j < after.len() implies seq_lt(#[trigger] after[i], #[trigger] after[j]) by {
                if j < p {
                } else if i < p && j == p {
                } else if i < p && j > p {
                    crate::ordered::lemma_lt_transitive(after[i], x, after[j]);
                } else if i == p {
                } else {
                }
            }
            assert forall|k: Seq<char>| after.contains(k) <==> (before.contains(k) || k == x) by {
                if after.contains(k) {
                    let j = choose|j: int| 0 <= j < after.len() && after[j] == k;
                    if j < p {
                        assert(before[j] == k);
                    } else if j > p {
                        assert(before[j - 1] == k);
                    }
                }
                if before.contains(k) {
                    let j = choose|j: int| 0 <= j < before.len() && before[j] == k;
                    if j < p {
                        assert(after[j] == k);
                    } else {
                        assert(after[j + 1] == k);
                    }
                }
                if k == x {
                    assert(after[p as int] == k);
                }
            }
        },
    }
}

} // verus!

verus! {

/// The value of a fraction.
pub open spec fn val(r: (int, int)) -> real {
    r.0 as real / r.1 as real
}

#[verifier::spinoff_prover]
proof fn lemma_real_mul(x: int, y: int)
    ensures
        (x * y) as real == (x as real) * (y as real),
{
    assert((x * y) as real == (x as real) * (y as real)) by (nonlinear_arith);
}

/// Exact rational arithmetic computes the values it stands for.
#[verifier::spinoff_prover]
proof fn lemma_val_ops(a: (int, int), b: (int, int))
    requires
        canonical(a),
        canonical(b),
    ensures
        val(rat_add(a, b)) == val(a) + val(b),
        val(rat_mul(a, b)) == val(a) * val(b),
        val(rat_neg(a)) == -val(a),
        val(rat_sub(a, b)) == val(a) - val(b),
        b.0 != 0 ==> val(rat_div(a, b)) == val(a) / val(b),
        val(a) == 0 as real <==> a.0 == 0,
{
    lemma_rat_ops(a, b);
    let c = rat_add(a, b);
    lemma_real_mul(c.0, a.1 * b.1);
    lemma_real_mul(a.1, b.1);
    lemma_real_mul(a.0 * b.1 + b.0 * a.1, c.1);
    lemma_real_mul(a.0, b.1);
    lemma_real_mul(b.0, a.1);
    assert(val(c) == val(a) + val(b)) by (nonlinear_arith)
        requires
            (c.0 as real) * ((a.1 as real) * (b.1 as real)) == ((a.0 as real) * (b.1 as real) + (b.0 as real) * (a.1 as real)) * (c.1 as real),
            c.1 > 0,
            a.1 > 0,
            b.1 > 0,
            val(c) == c.0 as real / c.1 as real,
            val(a) == a.0 as real / a.1 as real,
            val(b) == b.0 as real / b.1 as real,
    ;
    let m = rat_mul(a, b);
    lemma_real_mul(m.0, a.1 * b.1);
    lemma_real_mul(a.0, b.0);
    lemma_real_mul(a.0 * b.0, m.1);
    assert(val(m) == val(a) * val(b)) by (nonlinear_arith)
        requires
            (m.0 as real) * ((a.1 as real) * (b.1 as real)) == ((a.0 as real) * (b.0 as real)) * (m.1 as real),
            m.1 > 0,
            a.1 > 0,
            b.1 > 0,
            val(m) == m.0 as real / m.1 as real,
            val(a) == a.0 as real / a.1 as real,
            val(b) == b.0 as real / b.1 as real,
    ;
    assert(val(rat_neg(a)) == -val(a)) by (nonlinear_arith)
        requires
            a.1 > 0,
            val(rat_neg(a)) == (-a.0) as real / a.1 as real,
            val(a) == a.0 as real / a.1 as real,
    ;
    crate::numtheory::lemma_neg_canonical(b);
    lemma_rat_ops(a, rat_neg(b));
    let nb = rat_neg(b);
    let d = rat_add(a, nb);
    lemma_real_mul(d.0, a.1 * nb.1);
    lemma_real_mul(a.1, nb.1);
    lemma_real_mul(a.0 * nb.1 + nb.0 * a.1, d.1);
    lemma_real_mul(a.0, nb.1);
    lemma_real_mul(nb.0, a.1);
    assert(val(d) == val(a) + val(nb)) by (nonlinear_arith)
        requires
            (d.0 as real) * ((a.1 as real) * (nb.1 as real)) == ((a.0 as real) * (nb.1 as real) + (nb.0 as real) * (a.1 as real)) * (d.1 as real),
            d.1 > 0,
            a.1 > 0,
            nb.1 > 0,
            val(d) == d.0 as real / d.1 as real,
            val(a) == a.0 as real / a.1 as real,
            val(nb) == nb.0 as real / nb.1 as real,
    ;
    assert(val(nb) == -val(b)) by (nonlinear_arith)
        requires
            b.1 > 0,
            val(nb) == (-b.0) as real / b.1 as real,
            val(b) == b.0 as real / b.1 as real,
    ;
    if b.0 != 0 {
        let q = rat_div(a, b);
        lemma_real_mul(q.0, a.1 * b.0);
        lemma_real_mul(a.1, b.0);
        lemma_real_mul(a.0 * b.1, q.1);
        lemma_real_mul(a.0, b.1);
        assert(val(q) == val(a) / val(b)) by (nonlinear_arith)
            requires
                (q.0 as real) * ((a.1 as real) * (b.0 as real)) == ((a.0 as real) * (b.1 as real)) * (q.1 as real),
                q.1 > 0,
                a.1 > 0,
                b.1 > 0,
                b.0 != 0,
                val(q) == q.0 as real / q.1 as real,
                val(a) == a.0 as real / a.1 as real,
                val(b) == b.0 as real / b.1 as real,
        ;
    }
    assert(val(a) == 0 as real <==> a.0 == 0) by (nonlinear_arith)
        requires
            a.1 > 0,
            val(a) == a.0 as real / a.1 as real,
    ;
}

} // verus!

verus! {

/// `Σ_{i < n} row[i] · v[i]`, over the values of the fractions.
pub open spec fn dot(row: Seq<(int, int)>, v: Seq<real>, n: nat) -> real
    decreases n,
{
    if n == 0 {
        0 as real
    } else {
        dot(row, v, (n - 1) as nat) + val(row[n - 1]) * v[n - 1]
    }
}

/// Every row is orthogonal to `v`: `v` solves the homogeneous system.
pub open spec fn kills(rows: Seq<Seq<(int, int)>>, v: Seq<real>, n: nat) -> bool {
    forall|k: int| 0 <= k < rows.len() ==> dot(#[trigger] rows[k], v, n) == 0 as real
}

/// Two systems with the same solutions.
pub open spec fn same_solutions(a: Seq<Seq<(int, int)>>, b: Seq<Seq<(int, int)>>, n: nat) -> bool {
    forall|v: Seq<real>| #[trigger] kills(a, v, n) <==> #[trigger] kills(b, v, n)
}

/// A row that is `a - b·f`, entry by entry.
pub open spec fn affine_row(x: Seq<(int, int)>, a: Seq<(int, int)>, b: Seq<(int, int)>, f: real, n: nat) -> bool {
    forall|i: int| 0 <= i < n ==> val(#[trigger] x[i]) == val(a[i]) - val(b[i]) * f
}

#[verifier::spinoff_prover]
proof fn lemma_dot_affine(x: Seq<(int, int)>, a: Seq<(int, int)>, b: Seq<(int, int)>, f: real, v: Seq<real>, n: nat)
    requires
        affine_row(x, a, b, f, n),
    ensures
        dot(x, v, n) == dot(a, v, n) - f * dot(b, v, n),
    decreases n,
{
    if n > 0 {
        let m = (n - 1) as nat;
        lemma_dot_affine(x, a, b, f, v, m);
        assert(val(x[m as int]) == val(a[m as int]) - val(b[m as int]) * f);
        let (dx, da, db) = (dot(x, v, m), dot(a, v, m), dot(b, v, m));
        let (ex, ea, eb, vm) = (val(x[m as int]), val(a[m as int]), val(b[m as int]), v[m as int]);
        assert(dx + ex * vm == (da + ea * vm) - f * (db + eb * vm)) by (nonlinear_arith)
            requires
                dx == da - f * db,
                ex == ea - eb * f,
        ;
    }
}

/// A row whose entries are those of `a` divided by `s`.
pub open spec fn scaled_row(x: Seq<(int, int)>, a: Seq<(int, int)>, s: real, n: nat) -> bool {
    forall|i: int| 0 <= i < n ==> val(#[trigger] x[i]) == val(a[i]) / s
}

#[verifier::spinoff_prover]
proof fn lemma_dot_scaled(x: Seq<(int, int)>, a: Seq<(int, int)>, s: real, v: Seq<real>, n: nat)
    requires
        s != 0 as real,
        scaled_row(x, a, s, n),
    ensures
        dot(x, v, n) * s == dot(a, v, n),
    decreases n,
{
    if n > 0 {
        let m = (n - 1) as nat;
        lemma_dot_scaled(x, a, s, v, m);
        assert(val(x[m as int]) == val(a[m as int]) / s);
        let (dx, da) = (dot(x, v, m), dot(a, v, m));
        let (ex, ea, vm) = (val(x[m as int]), val(a[m as int]), v[m as int]);
        assert((dx + ex * vm) * s == da + ea * vm) by (nonlinear_arith)
            requires
                s != 0 as real,
                dx * s == da,
                ex == ea / s,
        ;
    }
}

/// Scaling the vector scales the product.
#[verifier::spinoff_prover]
proof fn lemma_dot_vec_scale(row: Seq<(int, int)>, v: Seq<real>, w: Seq<real>, s: real, n: nat)
    requires
        forall|i: int| 0 <= i < n ==> #[trigger] w[i] == s * v[i],
    ensures
        dot(row, w, n) == s * dot(row, v, n),
    decreases n,
{
    if n > 0 {
        let m = (n - 1) as nat;
        lemma_dot_vec_scale(row, v, w, s, m);
        assert(w[m as int] == s * v[m as int]);
        let (dw, dv, e, vm) = (dot(row, w, m), dot(row, v, m), val(row[m as int]), v[m as int]);
        assert(dw + e * (s * vm) == s * (dv + e * vm)) by (nonlinear_arith)
            requires
                dw == s * dv,
        ;
    }
}

/// One term of a product.
pub open spec fn term(row: Seq<(int, int)>, v: Seq<real>, c: int) -> real {
    val(row[c]) * v[c]
}

/// A product with at most two nonzero terms is their sum.
proof fn lemma_dot_two(row: Seq<(int, int)>, v: Seq<real>, n: nat, i: int, j: int)
    requires
        i != j,
        forall|c: int| 0 <= c < n && c != i && c != j ==> #[trigger] term(row, v, c) == 0 as real,
    ensures
        dot(row, v, n) == (if 0 <= i < n { val(row[i]) * v[i] } else { 0 as real }) + (if 0 <= j < n {
            val(row[j]) * v[j]
        } else {
            0 as real
        }),
    decreases n,
{
    if n > 0 {
        let m = (n - 1) as nat;
        lemma_dot_two(row, v, m, i, j);
        if m != i && m != j {
            assert(term(row, v, m as int) == 0 as real);
        }
    }
}

/// Exchanging two rows keeps the solutions.
proof fn lemma_swap_rows(rows: Seq<Seq<(int, int)>>, i: int, j: int, n: nat)
    requires
        0 <= i < rows.len(),
        0 <= j < rows.len(),
    ensures
        same_solutions(rows.update(i, rows[j]).update(j, rows[i]), rows, n),
{
    let after = rows.update(i, rows[j]).update(j, rows[i]);
    assert forall|v: Seq<real>| #[trigger] kills(after, v, n) <==> #[trigger] kills(rows, v, n) by {
        if kills(after, v, n) {
            assert forall|k: int| 0 <= k < rows.len() implies dot(#[trigger] rows[k], v, n) == 0 as real by {
                if k == i {
                    assert(after[j] == rows[i]);
                } else if k == j {
                    assert(after[i] == rows[j]);
                } else {
                    assert(after[k] == rows[k]);
                }
            }
        }
        if kills(rows, v, n) {
            assert forall|k: int| 0 <= k < after.len() implies dot(#[trigger] after[k], v, n) == 0 as real by {
                if k == j {
                    assert(after[j] == rows[i]);
                } else if k == i {
                    assert(after[i] == rows[j]);
                } else {
                    assert(after[k] == rows[k]);
                }
            }
        }
    }
}

/// Dividing a row by a nonzero value keeps the solutions.
#[verifier::spinoff_prover]
proof fn lemma_scale_row(rows: Seq<Seq<(int, int)>>, p: int, x: Seq<(int, int)>, s: real, n: nat)
    requires
        0 <= p < rows.len(),
        s != 0 as real,
        scaled_row(x, rows[p], s, n),
    ensures
        same_solutions(rows.update(p, x), rows, n),
{
    let after = rows.update(p, x);
    assert forall|v: Seq<real>| #[trigger] kills(after, v, n) <==> #[trigger] kills(rows, v, n) by {
        lemma_dot_scaled(x, rows[p], s, v, n);
        assert(after[p] == x);
        let dx = dot(x, v, n);
        let dp = dot(rows[p], v, n);
        assert(dx * s == dp);
        if kills(after, v, n) {
            assert(dot(after[p], v, n) == 0 as real);
            assert(dp == 0 as real) by (nonlinear_arith)
                requires
                    dx * s == dp,
                    dx == 0 as real,
            ;
            assert forall|k: int| 0 <= k < rows.len() implies dot(#[trigger] rows[k], v, n) == 0 as real by {
                if k != p {
                    assert(after[k] == rows[k]);
                }
            }
        }
        if kills(rows, v, n) {
            assert(dot(rows[p], v, n) == 0 as real);
            assert(dx == 0 as real) by (nonlinear_arith)
                requires
                    dx * s == dp,
                    dp == 0 as real,
                    s != 0 as real,
            ;
            assert forall|k: int| 0 <= k < after.len() implies dot(#[trigger] after[k], v, n) == 0 as real by {
                if k != p {
                    assert(after[k] == rows[k]);
                }
            }
        }
    }
}

/// Subtracting a multiple of another row keeps the solutions.
#[verifier::spinoff_prover]
proof fn lemma_eliminate_row(rows: Seq<Seq<(int, int)>>, r: int, p: int, x: Seq<(int, int)>, f: real, n: nat)
    requires
        0 <= r < rows.len(),
        0 <= p < rows.len(),
        r != p,
        affine_row(x, rows[r], rows[p], f, n),
    ensures
        same_solutions(rows.update(r, x), rows, n),
{
    let after = rows.update(r, x);
    assert forall|v: Seq<real>| #[trigger] kills(after, v, n) <==> #[trigger] kills(rows, v, n) by {
        lemma_dot_affine(x, rows[r], rows[p], f, v, n);
        assert(after[p] == rows[p]);
        assert(after[r] == x);
        let dx = dot(x, v, n);
        let dr = dot(rows[r], v, n);
        let dp = dot(rows[p], v, n);
        assert(dx == dr - f * dp);
        if kills(after, v, n) {
            assert(dot(after[r], v, n) == 0 as real);
            assert(dot(after[p], v, n) == 0 as real);
            assert(dr == 0 as real) by (nonlinear_arith)
                requires
                    dx == dr - f * dp,
                    dx == 0 as real,
                    dp == 0 as real,
            ;
            assert forall|k: int| 0 <= k < rows.len() implies dot(#[trigger] rows[k], v, n) == 0 as real by {
                if k != r {
                    assert(after[k] == rows[k]);
                }
            }
        }
        if kills(rows, v, n) {
            assert(dot(rows[r], v, n) == 0 as real);
            assert(dot(rows[p], v, n) == 0 as real);
            assert(dx == 0 as real) by (nonlinear_arith)
                requires
                    dx == dr - f * dp,
                    dr == 0 as real,
                    dp == 0 as real,
            ;
            assert forall|k: int| 0 <= k < after.len() implies dot(#[trigger] after[k], v, n) == 0 as real by {
                if k != r {
                    assert(after[k] == rows[k]);
                }
            }
        }
    }
}

} // verus!

verus! {

/// The fractions of a row.
pub open spec fn row_of(row: Seq<Rational>) -> Seq<(int, int)> {
    row.map_values(|x: Rational| x@)
}

/// The fractions of a matrix, row by row.
pub open spec fn entries(m: Seq<Vec<Rational>>) -> Seq<Seq<(int, int)>> {
    m.map_values(|row: Vec<Rational>| row_of(row@))
}

/// Solutions are kept from one system to the next.
proof fn lemma_same_trans(a: Seq<Seq<(int, int)>>, b: Seq<Seq<(int, int)>>, c: Seq<Seq<(int, int)>>, n: nat)
    requires
        same_solutions(a, b, n),
        same_solutions(b, c, n),
    ensures
        same_solutions(a, c, n),
{
    assert forall|v: Seq<real>| #[trigger] kills(a, v, n) <==> #[trigger] kills(c, v, n) by {
        assert(kills(a, v, n) <==> kills(b, v, n));
        assert(kills(b, v, n) <==> kills(c, v, n));
    }
}

/// Reduced row echelon form for the columns before `upto`: the pivot
/// columns increase, each pivot row has one at its pivot, zero at the
/// other pivots and before its own, and the rows without a pivot are zero.
pub open spec fn reduced_upto(rows: Seq<Seq<(int, int)>>, pivots: Seq<usize>, upto: nat) -> bool {
    &&& pivots.len() <= rows.len()
    &&& forall|i: int, j: int| 0 <= i < j < pivots.len() ==> pivots[i] < pivots[j]
    &&& forall|i: int| 0 <= i < pivots.len() ==> pivots[i] < upto
    &&& forall|k: int, j: int|
        0 <= k < pivots.len() && 0 <= j < pivots.len() ==> val(#[trigger] rows[k][pivots[j] as int]) == (if k
            == j {
            1 as real
        } else {
            0 as real
        })
    &&& forall|k: int, c: int| 0 <= k < pivots.len() && 0 <= c < pivots[k] ==> val(#[trigger] rows[k][c]) == 0 as real
    &&& forall|k: int, c: int|
        pivots.len() <= k < rows.len() && 0 <= c < upto ==> val(#[trigger] rows[k][c]) == 0 as real
}

/// A row divided by a nonzero value.
#[verifier::spinoff_prover]
fn scale_row(row: &Vec<Rational>, value: &Rational) -> (r: Vec<Rational>)
    requires
        value@.0 != 0,
    ensures
        r.len() == row.len(),
        scaled_row(row_of(r@), row_of(row@), val(value@), row.len() as nat),
{
    let n = row.len();
    let mut r: Vec<Rational> = Vec::new();
    for i in 0..n
        invariant
            n == row.len(),
            value@.0 != 0,
            r.len() == i,
            forall|j: int| 0 <= j < i ==> val(#[trigger] r@[j]@) == val(row@[j]@) / val(value@),
    {
        let x = rational_div(&row[i], value);
        proof {
            crate::bignum::lemma_rational_canonical(row[i as int]);
            crate::bignum::lemma_rational_canonical(*value);
            lemma_val_ops(row[i as int]@, value@);
        }
        r.push(x);
    }
    proof {
        assert forall|i: int| 0 <= i < n implies val(#[trigger] row_of(r@)[i]) == val(row_of(row@)[i]) / val(value@) by {
            assert(row_of(r@)[i] == r@[i]@);
            assert(row_of(row@)[i] == row@[i]@);
        }
    }
    r
}

/// `row - pivot·factor` on the first `columns` entries.
#[verifier::spinoff_prover]
fn eliminate_row(row: &Vec<Rational>, pivot: &Vec<Rational>, factor: &Rational, columns: usize) -> (r: Vec<Rational>)
    requires
        row.len() == columns,
        pivot.len() == columns,
    ensures
        r.len() == columns,
        affine_row(row_of(r@), row_of(row@), row_of(pivot@), val(factor@), columns as nat),
{
    let mut r: Vec<Rational> = Vec::new();
    for i in 0..columns
        invariant
            row.len() == columns,
            pivot.len() == columns,
            r.len() == i,
            forall|j: int| 0 <= j < i ==> val(#[trigger] r@[j]@) == val(row@[j]@) - val(pivot@[j]@) * val(factor@),
    {
        let product = rational_mul(&pivot[i], factor);
        let x = rational_sub(&row[i], &product);
        proof {
            crate::bignum::lemma_rational_canonical(row[i as int]);
            crate::bignum::lemma_rational_canonical(pivot[i as int]);
            crate::bignum::lemma_rational_canonical(*factor);
            crate::bignum::lemma_rational_canonical(product);
            lemma_val_ops(pivot[i as int]@, factor@);
            lemma_val_ops(row[i as int]@, product@);
        }
        r.push(x);
    }
    proof {
        assert forall|i: int| 0 <= i < columns implies val(#[trigger] row_of(r@)[i]) == val(row_of(row@)[i]) - val(
            row_of(pivot@)[i],
        ) * val(factor@) by {
            assert(row_of(r@)[i] == r@[i]@);
            assert(row_of(row@)[i] == row@[i]@);
            assert(row_of(pivot@)[i] == pivot@[i]@);
        }
    }
    r
}

} // verus!

verus! {

/// The row that row `k` of the matrix holds after rows `pr` and `p` trade
/// places.
pub open spec fn swapped_source(before: Seq<Seq<(int, int)>>, pr: int, p: int, k: int) -> Seq<(int, int)> {
    if k == p {
        before[pr]
    } else if k == pr {
        before[p]
    } else {
        before[k]
    }
}

/// One step of the elimination keeps the echelon form and adds `column` to
/// the pivots: row `p`, the first from `pr` on with a nonzero entry there,
/// moves up to row `pr` and is divided by that entry, and every other row
/// loses its multiple of it.
#[verifier::spinoff_prover]
proof fn lemma_pivot_step(
    before: Seq<Seq<(int, int)>>,
    pivots: Seq<usize>,
    column: usize,
    p: int,
    after: Seq<Seq<(int, int)>>,
    n: nat,
)
    requires
        reduced_upto(before, pivots, column as nat),
        pivots.len() <= p < before.len(),
        column < n,
        forall|q: int| pivots.len() <= q < p ==> val(#[trigger] before[q][column as int]) == 0 as real,
        val(before[p][column as int]) != 0 as real,
        after.len() == before.len(),
        scaled_row(after[pivots.len() as int], before[p], val(before[p][column as int]), n),
        forall|k: int, c: int|
            0 <= k < after.len() && k != pivots.len() && 0 <= c < n ==> val(#[trigger] after[k][c]) == val(
                swapped_source(before, pivots.len() as int, p, k)[c],
            ) - val(after[pivots.len() as int][c]) * val(
                swapped_source(before, pivots.len() as int, p, k)[column as int],
            ),
    ensures
        reduced_upto(after, pivots.push(column), (column + 1) as nat),
{
    let pr = pivots.len() as int;
    let np = pivots.push(column);
    let s = val(before[p][column as int]);
    let pivot = after[pr];
    assert forall|c: int| 0 <= c < column implies val(#[trigger] pivot[c]) == 0 as real by {
        assert(val(before[p][c]) == 0 as real);
        assert(val(pivot[c]) == val(before[p][c]) / s);
        assert(val(before[p][c]) / s == 0 as real) by (nonlinear_arith)
            requires
                val(before[p][c]) == 0 as real,
                s != 0 as real,
        ;
    }
    assert(val(pivot[column as int]) == 1 as real) by {
        assert(val(pivot[column as int]) == s / s);
        assert(s / s == 1 as real) by (nonlinear_arith)
            requires
                s != 0 as real,
        ;
    }
    assert forall|k: int| 0 <= k < after.len() && k != pr implies val(#[trigger] after[k][column as int]) == 0 as real by {
        assert(val(after[k][column as int]) == val(swapped_source(before, pr, p, k)[column as int]) - val(
            pivot[column as int],
        ) * val(swapped_source(before, pr, p, k)[column as int]));
    }
    assert forall|k: int, c: int| 0 <= k < after.len() && k != pr && 0 <= c < column implies val(
        #[trigger] after[k][c],
    ) == val(swapped_source(before, pr, p, k)[c]) by {
        assert(val(pivot[c]) == 0 as real);
    }
    assert forall|k: int, j: int| 0 <= k < np.len() && 0 <= j < np.len() implies val(
        #[trigger] after[k][np[j] as int],
    ) == (if k == j {
        1 as real
    } else {
        0 as real
    }) by {
        if k < pr && j < pr {
            assert(np[j] == pivots[j]);
            assert(swapped_source(before, pr, p, k) == before[k]);
            assert(val(after[k][np[j] as int]) == val(before[k][pivots[j] as int]));
        } else if k < pr {
            assert(np[j] == column);
        } else if j < pr {
            assert(np[j] == pivots[j]);
            assert(pivots[j] < column);
        } else {
            assert(np[j] == column);
        }
    }
    assert forall|k: int, c: int| 0 <= k < np.len() && 0 <= c < np[k] implies val(#[trigger] after[k][c]) == 0 as real by {
        if k < pr {
            assert(np[k] == pivots[k]);
            assert(swapped_source(before, pr, p, k) == before[k]);
            assert(val(before[k][c]) == 0 as real);
        } else {
            assert(np[k] == column);
        }
    }
    assert forall|k: int, c: int| np.len() <= k < after.len() && 0 <= c < column + 1 implies val(
        #[trigger] after[k][c],
    ) == 0 as real by {
        if c < column {
            if k == p {
                assert(swapped_source(before, pr, p, k) == before[pr]);
                assert(val(before[pr][c]) == 0 as real);
            } else {
                assert(swapped_source(before, pr, p, k) == before[k]);
                assert(val(before[k][c]) == 0 as real);
            }
        }
    }
    assert forall|i: int, j: int| 0 <= i < j < np.len() implies np[i] < np[j] by {
        if j == pr {
            assert(np[i] == pivots[i]);
        } else {
            assert(np[i] == pivots[i] && np[j] == pivots[j]);
        }
    }
}

} // verus!

verus! {

/// Gauss-Jordan elimination on the first `columns` columns, pivoting on the
/// first row with a nonzero entry: the reduced row echelon form, which has
/// the solutions of the matrix, and its pivot columns.
#[verifier::spinoff_prover]
fn rref(matrix: Vec<Vec<Rational>>, columns: usize) -> (r: (Vec<Vec<Rational>>, Vec<usize>))
    requires
        forall|k: int| 0 <= k < matrix.len() ==> (#[trigger] matrix@[k]).len() == columns,
    ensures
        r.0.len() == matrix.len(),
        forall|k: int| 0 <= k < r.0.len() ==> (#[trigger] r.0@[k]).len() == columns,
        reduced_upto(entries(r.0@), r.1@, columns as nat),
        same_solutions(entries(r.0@), entries(matrix@), columns as nat),
{
    let ghost original = entries(matrix@);
    let mut matrix = matrix;
    let n = matrix.len();
    let mut pivots: Vec<usize> = Vec::new();
    let mut column: usize = 0;
    proof {
        assert forall|v: Seq<real>| #[trigger] kills(original, v, columns as nat) <==> #[trigger] kills(
            original,
            v,
            columns as nat,
        ) by {}
    }
    while column < columns && pivots.len() < n
        invariant
            matrix.len() == n,
            forall|k: int| 0 <= k < n ==> (#[trigger] matrix@[k]).len() == columns,
            column <= columns,
            reduced_upto(entries(matrix@), pivots@, column as nat),
            same_solutions(entries(matrix@), original, columns as nat),
        decreases columns - column,
    {
        let pivot_row = pivots.len();
        let ghost before = entries(matrix@);
        let mut p = pivot_row;
        while p < n && rational_is_zero(&matrix[p][column])
            invariant
                pivot_row <= p <= n,
                matrix.len() == n,
                column < columns,
                before == entries(matrix@),
                forall|k: int| 0 <= k < n ==> (#[trigger] matrix@[k]).len() == columns,
                forall|q: int| pivot_row <= q < p ==> val(#[trigger] before[q][column as int]) == 0 as real,
            decreases n - p,
        {
            proof {
                crate::bignum::lemma_rational_canonical(matrix@[p as int]@[column as int]);
                lemma_val_ops(matrix@[p as int]@[column as int]@, matrix@[p as int]@[column as int]@);
                assert(before[p as int][column as int] == matrix@[p as int]@[column as int]@);
            }
            p = p + 1;
        }
        if p < n {
            let value = rational_clone(&matrix[p][column]);
            proof {
                crate::bignum::lemma_rational_canonical(value);
                lemma_val_ops(value@, value@);
                assert(before[p as int][column as int] == value@);
                assert(before[p as int] == row_of(matrix@[p as int]@));
            }
            let scaled = scale_row(&matrix[p], &value);
            if p == pivot_row {
                matrix.set(p, scaled);
            } else {
                let mut moving = scaled;
                std::mem::swap(&mut moving, &mut matrix[pivot_row]);
                matrix.set(p, moving);
            }
            let ghost swapped = before.update(pivot_row as int, before[p as int]).update(
                p as int,
                before[pivot_row as int],
            );
            let ghost pivot_entries = entries(matrix@)[pivot_row as int];
            let ghost bef = entries(matrix@);
            proof {
                lemma_swap_rows(before, pivot_row as int, p as int, columns as nat);
                assert(bef =~= swapped.update(pivot_row as int, pivot_entries));
                assert(swapped[pivot_row as int] == before[p as int]);
                lemma_scale_row(swapped, pivot_row as int, pivot_entries, val(value@), columns as nat);
                lemma_same_trans(bef, swapped, before, columns as nat);
                lemma_same_trans(bef, before, original, columns as nat);
                assert forall|k: int| 0 <= k < n && k != pivot_row implies #[trigger] bef[k]
                    == swapped_source(before, pivot_row as int, p as int, k) by {}
            }
            let mut r: usize = 0;
            while r < n
                invariant
                    matrix.len() == n,
                    pivot_row < n,
                    column < columns,
                    forall|k: int| 0 <= k < n ==> (#[trigger] matrix@[k]).len() == columns,
                    bef.len() == n,
                    entries(matrix@)[pivot_row as int] == pivot_entries,
                    pivot_entries == bef[pivot_row as int],
                    forall|k: int| r <= k < n && k != pivot_row ==> #[trigger] entries(matrix@)[k] == bef[k],
                    forall|k: int, c: int|
                        0 <= k < r && k != pivot_row && 0 <= c < columns ==> val(
                            #[trigger] entries(matrix@)[k][c],
                        ) == val(bef[k][c]) - val(pivot_entries[c]) * val(bef[k][column as int]),
                    same_solutions(entries(matrix@), original, columns as nat),
                decreases n - r,
            {
                let ghost current = entries(matrix@);
                if r != pivot_row {
                    let factor = rational_clone(&matrix[r][column]);
                    proof {
                        assert(current[r as int] == bef[r as int]);
                        assert(factor@ == bef[r as int][column as int]);
                        crate::bignum::lemma_rational_canonical(factor);
                        lemma_val_ops(factor@, factor@);
                    }
                    if !rational_is_zero(&factor) {
                        let x = eliminate_row(&matrix[r], &matrix[pivot_row], &factor, columns);
                        matrix.set(r, x);
                        proof {
                            assert(entries(matrix@) =~= current.update(r as int, row_of(x@)));
                            lemma_eliminate_row(current, r as int, pivot_row as int, row_of(x@), val(factor@), columns as nat);
                            lemma_same_trans(entries(matrix@), current, original, columns as nat);
                        }
                    } else {
                        proof {
                            assert forall|c: int| 0 <= c < columns implies val(#[trigger] current[r as int][c])
                                == val(bef[r as int][c]) - val(pivot_entries[c]) * val(bef[r as int][column as int]) by {}
                        }
                    }
                }
                proof {
                    assert forall|k: int, c: int|
                        0 <= k < r + 1 && k != pivot_row && 0 <= c < columns implies val(
                        #[trigger] entries(matrix@)[k][c],
                    ) == val(bef[k][c]) - val(pivot_entries[c]) * val(bef[k][column as int]) by {
                        if k < r {
                            assert(entries(matrix@)[k] == current[k]);
                        }
                    }
                }
                r = r + 1;
            }
            proof {
                lemma_pivot_step(before, pivots@, column, p as int, entries(matrix@), columns as nat);
            }
            pivots.push(column);
        }
        column = column + 1;
    }
    (matrix, pivots)
}

} // verus!

verus! {

/// The exponents of dimension `id` in the quantities, in order.
pub open spec fn exponent_row(quantities: Seq<(String, Dimensions)>, id: Seq<char>) -> Seq<(int, int)> {
    Seq::new(quantities.len(), |c: int| power_in(quantities[c].1@, id))
}

/// The product of the quantities raised to the weights `w` is
/// dimensionless: every dimension's exponents cancel.
pub open spec fn dimensionless(quantities: Seq<(String, Dimensions)>, w: Seq<real>) -> bool {
    forall|id: Seq<char>| #[trigger] dot(exponent_row(quantities, id), w, quantities.len()) == 0 as real
}

/// The dimension of quantity `c` is a product of powers of the dimensions
/// before it: some dimensionless product has weight one at `c` and none
/// after it.
pub open spec fn depends_on_earlier(quantities: Seq<(String, Dimensions)>, c: int) -> bool {
    exists|w: Seq<real>|
        #[trigger] dimensionless(quantities, w) && w[c] == 1 as real && (forall|d: int|
            c < d < quantities.len() ==> w[d] == 0 as real)
}

/// The positions before `upto` of the quantities whose dimensions depend
/// on earlier ones: one dimensionless group each.
pub open spec fn free_columns(quantities: Seq<(String, Dimensions)>, upto: nat) -> Seq<int>
    decreases upto,
{
    if upto == 0 {
        Seq::empty()
    } else {
        let before = free_columns(quantities, (upto - 1) as nat);
        if depends_on_earlier(quantities, upto - 1) {
            before.push(upto - 1)
        } else {
            before
        }
    }
}

/// Whether `c` is one of the pivot columns.
pub open spec fn is_pivot(pivots: Seq<usize>, c: int) -> bool {
    exists|k: int| 0 <= k < pivots.len() && pivots[k] == c
}

/// The columns before `upto` that are not pivots, in order.
pub open spec fn non_pivots(pivots: Seq<usize>, upto: nat) -> Seq<int>
    decreases upto,
{
    if upto == 0 {
        Seq::empty()
    } else {
        let before = non_pivots(pivots, (upto - 1) as nat);
        if is_pivot(pivots, upto - 1) {
            before
        } else {
            before.push(upto - 1)
        }
    }
}

proof fn lemma_non_pivots(pivots: Seq<usize>, upto: nat)
    ensures
        forall|i: int| 0 <= i < non_pivots(pivots, upto).len() ==> 0 <= #[trigger] non_pivots(pivots, upto)[i] < upto
            && !is_pivot(pivots, non_pivots(pivots, upto)[i]),
        forall|i: int, j: int|
            0 <= i < j < non_pivots(pivots, upto).len() ==> #[trigger] non_pivots(pivots, upto)[i] < #[trigger] non_pivots(
                pivots,
                upto,
            )[j],
        forall|c: int| 0 <= c < upto && !is_pivot(pivots, c) ==> #[trigger] non_pivots(pivots, upto).contains(c),
    decreases upto,
{
    if upto > 0 {
        let m = (upto - 1) as nat;
        lemma_non_pivots(pivots, m);
        let before = non_pivots(pivots, m);
        assert forall|c: int| 0 <= c < upto && !is_pivot(pivots, c) implies #[trigger] non_pivots(pivots, upto).contains(c) by {
            if c < m {
                assert(before.contains(c));
                let i = choose|i: int| 0 <= i < before.len() && before[i] == c;
                assert(non_pivots(pivots, upto)[i] == c);
            } else {
                assert(non_pivots(pivots, upto)[before.len() as int] == c);
            }
        }
    }
}

/// A prefix of the non-pivot columns is the list up to a smaller bound.
proof fn lemma_non_pivots_prefix(pivots: Seq<usize>, upto: nat, n: nat)
    requires
        upto <= n,
    ensures
        non_pivots(pivots, upto).len() <= non_pivots(pivots, n).len(),
        forall|i: int| 0 <= i < non_pivots(pivots, upto).len() ==> #[trigger] non_pivots(pivots, n)[i] == non_pivots(pivots, upto)[i],
    decreases n,
{
    if upto < n {
        lemma_non_pivots_prefix(pivots, upto, (n - 1) as nat);
    }
}

/// Where every column is a pivot exactly when it does not depend on earlier
/// ones, the free columns are the non-pivot columns.
proof fn lemma_free_columns(quantities: Seq<(String, Dimensions)>, pivots: Seq<usize>, upto: nat)
    requires
        upto <= quantities.len(),
        forall|c: int| 0 <= c < quantities.len() ==> (is_pivot(pivots, c) <==> !#[trigger] depends_on_earlier(quantities, c)),
    ensures
        free_columns(quantities, upto) == non_pivots(pivots, upto),
    decreases upto,
{
    if upto > 0 {
        lemma_free_columns(quantities, pivots, (upto - 1) as nat);
        assert(is_pivot(pivots, upto - 1) <==> !depends_on_earlier(quantities, upto - 1));
    }
}

/// The values of a row of exact rationals, as weights.
pub open spec fn weights(v: Seq<Rational>) -> Seq<real> {
    v.map_values(|x: Rational| val(x@))
}

/// A row without nonzero terms has product zero.
proof fn lemma_dot_zero(row: Seq<(int, int)>, v: Seq<real>, n: nat)
    requires
        forall|c: int| 0 <= c < n ==> #[trigger] term(row, v, c) == 0 as real,
    ensures
        dot(row, v, n) == 0 as real,
{
    lemma_dot_two(row, v, n, n as int, n as int + 1);
}

/// A pivot column does not depend on earlier ones: the product of its pivot
/// row with any solution that stops at it is one.
#[verifier::spinoff_prover]
proof fn lemma_pivot_independent(
    quantities: Seq<(String, Dimensions)>,
    rows: Seq<Seq<(int, int)>>,
    pivots: Seq<usize>,
    k: int,
)
    requires
        reduced_upto(rows, pivots, quantities.len()),
        0 <= k < pivots.len(),
        forall|w: Seq<real>| #[trigger] kills(rows, w, quantities.len()) <==> dimensionless(quantities, w),
    ensures
        !depends_on_earlier(quantities, pivots[k] as int),
{
    let c = pivots[k] as int;
    let n = quantities.len();
    if depends_on_earlier(quantities, c) {
        let w = choose|w: Seq<real>|
            #[trigger] dimensionless(quantities, w) && w[c] == 1 as real && (forall|d: int| c < d < n ==> w[d] == 0 as real);
        assert(kills(rows, w, n));
        assert(dot(rows[k], w, n) == 0 as real);
        assert forall|d: int| 0 <= d < n && d != c && d != n implies #[trigger] term(rows[k], w, d) == 0 as real by {
            if d < c {
                assert(val(rows[k][d]) == 0 as real);
            }
        }
        lemma_dot_two(rows[k], w, n, c, n as int);
        assert(val(rows[k][c]) == 1 as real);
    }
}

} // verus!

verus! {

/// Some quantity before `upto` has a nonzero exponent of `k`.
pub open spec fn some_quantity_before(quantities: Seq<(String, Dimensions)>, k: Seq<char>, upto: int) -> bool {
    exists|q: int| 0 <= q < upto && (#[trigger] quantities[q]).1@.contains_key(k)
}

/// The exponents of every dimension that some quantity has: one row per
/// dimension, in increasing order of the identifiers, and one column per
/// quantity. Its solutions are the dimensionless products.
#[verifier::spinoff_prover]
fn dimension_matrix(quantities: &[(String, Dimensions)]) -> (m: Vec<Vec<Rational>>)
    ensures
        forall|k: int| 0 <= k < m.len() ==> (#[trigger] m@[k]).len() == quantities.len(),
        forall|w: Seq<real>| #[trigger] kills(entries(m@), w, quantities@.len()) <==> dimensionless(quantities@, w),
{
    let n = quantities.len();
    let mut ids: Vec<String> = Vec::new();
    for c in 0..n
        invariant
            n == quantities.len(),
            ids_sorted(texts(ids@)),
            forall|k: Seq<char>| #[trigger] texts(ids@).contains(k) <==> some_quantity_before(quantities@, k, c as int),
    {
        let own = quantities[c].1.ids();
        let ghost start = texts(ids@);
        for j in 0..own.len()
            invariant
                n == quantities.len(),
                c < n,
                ids_sorted(texts(ids@)),
                forall|k: Seq<char>| quantities@[c as int].1@.contains_key(k) <==> texts(own@).contains(k),
                forall|k: Seq<char>| #[trigger] start.contains(k) <==> some_quantity_before(quantities@, k, c as int),
                forall|k: Seq<char>| #[trigger] texts(ids@).contains(k) <==> (start.contains(k) || texts(own@).take(j as int).contains(k)),
        {
            let ghost was = texts(ids@);
            let id = own[j].clone();
            insert_sorted(&mut ids, id);
            proof {
                let longer = texts(own@).take(j + 1);
                let shorter = texts(own@).take(j as int);
                assert(longer =~= shorter.push(own@[j as int]@));
                assert forall|k: Seq<char>| #[trigger] texts(ids@).contains(k) <==> (start.contains(k) || longer.contains(k)) by {
                    if longer.contains(k) && k != own@[j as int]@ {
                        let i = choose|i: int| 0 <= i < longer.len() && longer[i] == k;
                        assert(shorter[i] == k);
                    }
                    if shorter.contains(k) {
                        let i = choose|i: int| 0 <= i < shorter.len() && shorter[i] == k;
                        assert(longer[i] == k);
                    }
                    if k == own@[j as int]@ {
                        assert(longer[j as int] == k);
                    }
                    assert(was.contains(k) <==> (start.contains(k) || shorter.contains(k)));
                }
            }
        }
        proof {
            assert(texts(own@).take(own.len() as int) =~= texts(own@));
            assert forall|k: Seq<char>| #[trigger] texts(ids@).contains(k) <==> some_quantity_before(quantities@, k, c + 1) by {
                if some_quantity_before(quantities@, k, c + 1) && !quantities@[c as int].1@.contains_key(k) {
                    let q = choose|q: int| 0 <= q < c + 1 && (#[trigger] quantities@[q]).1@.contains_key(k);
                    assert(some_quantity_before(quantities@, k, c as int));
                }
                if some_quantity_before(quantities@, k, c as int) {
                    let q = choose|q: int| 0 <= q < c && (#[trigger] quantities@[q]).1@.contains_key(k);
                    assert(0 <= q < c + 1 && quantities@[q].1@.contains_key(k));
                }
                if quantities@[c as int].1@.contains_key(k) {
                    assert(0 <= c < c + 1 && quantities@[c as int].1@.contains_key(k));
                }
            }
        }
    }
    let mut m: Vec<Vec<Rational>> = Vec::new();
    let rows = ids.len();
    for r in 0..rows
        invariant
            n == quantities.len(),
            rows == ids.len(),
            m.len() == r,
            forall|k: int| 0 <= k < r ==> (#[trigger] m@[k]).len() == n,
            forall|k: int| 0 <= k < r ==> #[trigger] entries(m@)[k] == exponent_row(quantities@, texts(ids@)[k]),
    {
        let mut row: Vec<Rational> = Vec::new();
        for c in 0..n
            invariant
                n == quantities.len(),
                r < ids.len(),
                row.len() == c,
                forall|j: int| 0 <= j < c ==> (#[trigger] row@[j])@ == power_in(quantities@[j].1@, ids@[r as int]@),
        {
            row.push(quantities[c].1.power(ids[r].as_str()));
        }
        let ghost before = m@;
        m.push(row);
        proof {
            assert(texts(ids@)[r as int] == ids@[r as int]@);
            assert(row_of(row@) =~= exponent_row(quantities@, texts(ids@)[r as int]));
            assert forall|k: int| 0 <= k < r + 1 implies #[trigger] entries(m@)[k] == exponent_row(quantities@, texts(ids@)[k]) by {
                assert(entries(m@)[k] == row_of(m@[k]@));
                if k < r {
                    assert(m@[k] == before[k]);
                    assert(entries(before)[k] == row_of(before[k]@));
                } else {
                    assert(m@[k] == row);
                }
            }
        }
    }
    proof {
        let nq = quantities@.len();
        assert forall|w: Seq<real>| #[trigger] kills(entries(m@), w, nq) <==> dimensionless(quantities@, w) by {
            if dimensionless(quantities@, w) {
                assert forall|k: int| 0 <= k < entries(m@).len() implies dot(#[trigger] entries(m@)[k], w, nq) == 0 as real by {
                    assert(dot(exponent_row(quantities@, texts(ids@)[k]), w, nq) == 0 as real);
                }
            }
            if kills(entries(m@), w, nq) {
                assert forall|id: Seq<char>| #[trigger] dot(exponent_row(quantities@, id), w, nq) == 0 as real by {
                    if texts(ids@).contains(id) {
                        let k = choose|k: int| 0 <= k < texts(ids@).len() && texts(ids@)[k] == id;
                        assert(dot(entries(m@)[k], w, nq) == 0 as real);
                    } else {
                        assert forall|c: int| 0 <= c < nq implies #[trigger] term(exponent_row(quantities@, id), w, c) == 0 as real by {
                            assert(!some_quantity_before(quantities@, id, nq as int));
                            assert(!quantities@[c].1@.contains_key(id));
                            crate::numtheory::lemma_zero_canonical();
                            lemma_val_ops(rat_zero(), rat_zero());
                        }
                        lemma_dot_zero(exponent_row(quantities@, id), w, nq);
                    }
                }
            }
        }
    }
    m
}

} // verus!

verus! {

/// Zero and one have the values zero and one.
#[verifier::spinoff_prover]
proof fn lemma_val_consts()
    ensures
        val(rat_zero()) == 0 as real,
        val(rat_int(1)) == 1 as real,
{
    assert((0 as real) / (1 as real) == 0 as real) by (nonlinear_arith);
    assert((1 as real) / (1 as real) == 1 as real) by (nonlinear_arith);
}

/// `c` is one of the first `k` pivots.
#[verifier::opaque]
pub open spec fn pivot_before(pivots: Seq<usize>, k: int, c: int) -> bool {
    exists|j: int| 0 <= j < k && pivots[j] == c
}

/// The weights of the solution for the free column `free`: one there, zero
/// at the other free columns, and at each pivot column minus its pivot
/// row's entry at `free`.
pub open spec fn group_weights(m: Seq<Seq<(int, int)>>, pivots: Seq<usize>, free: int, w: Seq<real>, n: nat) -> bool {
    &&& w[free] == 1 as real
    &&& forall|c: int| 0 <= c < n && c != free && !is_pivot(pivots, c) ==> #[trigger] w[c] == 0 as real
    &&& forall|j: int| 0 <= j < pivots.len() ==> #[trigger] w[pivots[j] as int] == -val(m[j][free])
}

/// Each row of the reduced system is orthogonal to the group weights.
#[verifier::spinoff_prover]
proof fn lemma_group_row(m: Seq<Seq<(int, int)>>, pivots: Seq<usize>, free: int, w: Seq<real>, n: nat, k: int)
    requires
        reduced_upto(m, pivots, n),
        0 <= free < n,
        !is_pivot(pivots, free),
        group_weights(m, pivots, free, w, n),
        0 <= k < m.len(),
    ensures
        dot(m[k], w, n) == 0 as real,
{
    if k < pivots.len() {
        let pk = pivots[k] as int;
        assert(pk != free);
        assert forall|c: int| 0 <= c < n && c != free && c != pk implies #[trigger] term(m[k], w, c) == 0 as real by {
            if is_pivot(pivots, c) {
                let j = choose|j: int| 0 <= j < pivots.len() && pivots[j] == c;
                assert(val(m[k][pivots[j] as int]) == 0 as real);
            } else {
                assert(w[c] == 0 as real);
            }
        }
        lemma_dot_two(m[k], w, n, free, pk);
        assert(val(m[k][pk]) == 1 as real);
        assert(w[pk] == -val(m[k][free]));
    } else {
        assert forall|c: int| 0 <= c < n implies #[trigger] term(m[k], w, c) == 0 as real by {
            assert(val(m[k][c]) == 0 as real);
        }
        lemma_dot_zero(m[k], w, n);
    }
}

/// The solution for a free column: the reduced system, and so the
/// original one, is solved by it.
#[verifier::spinoff_prover]
fn group_vector(rows: &Vec<Vec<Rational>>, pivots: &Vec<usize>, free: usize, n: usize) -> (v: Vec<Rational>)
    requires
        forall|k: int| 0 <= k < rows.len() ==> (#[trigger] rows@[k]).len() == n,
        reduced_upto(entries(rows@), pivots@, n as nat),
        free < n,
        !is_pivot(pivots@, free as int),
    ensures
        v.len() == n,
        group_weights(entries(rows@), pivots@, free as int, weights(v@), n as nat),
        kills(entries(rows@), weights(v@), n as nat),
{
    let ghost m = entries(rows@);
    let mut v: Vec<Rational> = Vec::new();
    for i in 0..n
        invariant
            v.len() == i,
            forall|j: int| 0 <= j < i ==> val(#[trigger] v@[j]@) == 0 as real,
    {
        proof {
            lemma_val_consts();
        }
        v.push(rational_zero());
    }
    proof {
        lemma_val_consts();
    }
    v.set(free, rational_one());
    let np = pivots.len();
    proof {
        reveal(pivot_before);
    }
    for k in 0..np
        invariant
            np == pivots.len(),
            np <= rows.len(),
            v.len() == n,
            free < n,
            !is_pivot(pivots@, free as int),
            m == entries(rows@),
            reduced_upto(m, pivots@, n as nat),
            forall|r: int| 0 <= r < rows.len() ==> (#[trigger] rows@[r]).len() == n,
            val(v@[free as int]@) == 1 as real,
            forall|c: int|
                0 <= c < n && c != free && !pivot_before(pivots@, k as int, c) ==> val(#[trigger] v@[c]@) == 0 as real,
            forall|j: int| 0 <= j < k ==> val(#[trigger] v@[pivots@[j] as int]@) == -val(m[j][free as int]),
    {
        let x = rational_neg(&rows[k][free]);
        proof {
            crate::bignum::lemma_rational_canonical(rows@[k as int]@[free as int]);
            lemma_val_ops(rows@[k as int]@[free as int]@, rows@[k as int]@[free as int]@);
            assert(m[k as int][free as int] == rows@[k as int]@[free as int]@);
            assert(pivots@[k as int] != free);
        }
        let ghost before = v@;
        v.set(pivots[k], x);
        proof {
            assert forall|j: int| 0 <= j < k + 1 implies val(#[trigger] v@[pivots@[j] as int]@) == -val(m[j][free as int]) by {
                if j < k {
                    assert(pivots@[j] < pivots@[k as int]);
                    assert(v@[pivots@[j] as int] == before[pivots@[j] as int]);
                }
            }
            assert forall|c: int|
                0 <= c < n && c != free && !pivot_before(pivots@, k + 1, c) implies val(#[trigger] v@[c]@) == 0 as real by {
                reveal(pivot_before);
                assert(c != pivots@[k as int]);
                assert(!pivot_before(pivots@, k as int, c));
                assert(v@[c] == before[c]);
            }
        }
    }
    proof {
        let w = weights(v@);
        assert forall|c: int| 0 <= c < n && c != free && !is_pivot(pivots@, c) implies #[trigger] w[c] == 0 as real by {
            reveal(pivot_before);
            assert(!pivot_before(pivots@, np as int, c));
        }
        assert forall|j: int| 0 <= j < pivots@.len() implies #[trigger] w[pivots@[j] as int] == -val(m[j][free as int]) by {}
        assert forall|k: int| 0 <= k < m.len() implies dot(#[trigger] m[k], w, n as nat) == 0 as real by {
            lemma_group_row(m, pivots@, free as int, w, n as nat, k);
        }
    }
    v
}

} // verus!

verus! {

/// `a` divides `b`.
pub open spec fn divides(a: int, b: int) -> bool {
    exists|k: int| b == #[trigger] (a * k)
}

proof fn lemma_divides_trans(a: int, b: int, c: int)
    requires
        divides(a, b),
        divides(b, c),
    ensures
        divides(a, c),
{
    let k1 = choose|k: int| b == #[trigger] (a * k);
    let k2 = choose|k: int| c == #[trigger] (b * k);
    assert(c == a * (k1 * k2)) by (nonlinear_arith)
        requires
            b == a * k1,
            c == b * k2,
    ;
}

/// The least common multiple step: a nonzero multiple of both.
#[verifier::spinoff_prover]
proof fn lemma_lcm(d: int, e: int)
    requires
        d != 0,
        e > 0,
    ensures
        lcm_spec(d, e) != 0,
        divides(d, lcm_spec(d, e)),
        divides(e, lcm_spec(d, e)),
{
    let g = gcd(abs(d), abs(e)) as int;
    crate::numtheory::lemma_gcd_divides(abs(d), abs(e));
    let a = abs(d) as int / g;
    let b = abs(e) as int / g;
    assert(trunc_div(d, g) == sign(d) * a);
    assert(d == sign(d) * (g * a)) by (nonlinear_arith)
        requires
            abs(d) as int == g * a,
            abs(d) as int == (if d < 0 { -d } else { d }),
            sign(d) == (if d < 0 { -1int } else { 1int }),
    ;
    let l = lcm_spec(d, e);
    assert(l == sign(d) * a * e);
    assert(l == d * b) by (nonlinear_arith)
        requires
            l == sign(d) * a * e,
            d == sign(d) * (g * a),
            e == g * b,
    ;
    assert(l == e * (sign(d) * a)) by (nonlinear_arith)
        requires
            l == sign(d) * a * e,
    ;
    assert(l != 0) by (nonlinear_arith)
        requires
            l == sign(d) * a * e,
            d == sign(d) * (g * a),
            d != 0,
            e > 0,
    ;
}

/// A multiple of the denominator makes a fraction a whole number.
#[verifier::spinoff_prover]
proof fn lemma_to_integer_exact(x: (int, int), d: int, k: int)
    requires
        canonical(x),
        d == x.1 * k,
    ensures
        trunc_div(rat_mul(x, rat_int(d)).0, rat_mul(x, rat_int(d)).1) == x.0 * k,
        (x.0 * k) as real == val(x) * (d as real),
{
    crate::numtheory::lemma_int_canonical(d);
    lemma_rat_ops(x, rat_int(d));
    let y = rat_mul(x, rat_int(d));
    crate::numtheory::lemma_int_canonical(x.0 * k);
    assert(y.0 * 1 == (x.0 * k) * y.1) by (nonlinear_arith)
        requires
            y.0 * (x.1 * 1) == (x.0 * d) * y.1,
            d == x.1 * k,
            x.1 > 0,
    ;
    crate::numtheory::lemma_canonical_unique(y, rat_int(x.0 * k));
    lemma_trunc_exact(1, x.0 * k);
    assert(1 * (x.0 * k) == x.0 * k);
    lemma_real_mul(x.0, k);
    lemma_real_mul(x.1, k);
    assert((x.0 as real) * (k as real) == val(x) * ((x.1 as real) * (k as real))) by (nonlinear_arith)
        requires
            x.1 > 0,
            val(x) == x.0 as real / x.1 as real,
    ;
}

/// Division by a divisor is exact.
#[verifier::spinoff_prover]
proof fn lemma_trunc_exact(g: int, q: int)
    requires
        g > 0,
    ensures
        trunc_div(g * q, g) == q,
{
    let a = abs(q) as int;
    assert(abs(g * q) as int == g * a) by (nonlinear_arith)
        requires
            g > 0,
            a == (if q < 0 { -q } else { q }),
            abs(g * q) as int == (if g * q < 0 { -(g * q) } else { g * q }),
    ;
    assert((g * a) / g == a) by (nonlinear_arith)
        requires
            g > 0,
            a >= 0,
    ;
    assert(sign(g * q) == sign(q)) by (nonlinear_arith)
        requires
            g > 0,
            sign(g * q) == (if g * q < 0 { -1int } else { 1int }),
            sign(q) == (if q < 0 { -1int } else { 1int }),
    ;
    assert(sign(q) * a == q);
}

/// The numbers held by integers.
pub open spec fn ints(w: Seq<Integer>) -> Seq<int> {
    w.map_values(|x: Integer| x@)
}

/// The first nonzero entry, if any, is positive.
pub open spec fn first_nonzero_positive(w: Seq<int>) -> bool {
    forall|i: int| 0 <= i < w.len() && #[trigger] w[i] != 0 && (forall|j: int| 0 <= j < i ==> w[j] == 0) ==> w[i] > 0
}

} // verus!

verus! {

/// `Σ_{j < n} c[j] · w[j]`.
pub open spec fn combination(c: Seq<int>, w: Seq<int>, n: nat) -> int
    decreases n,
{
    if n == 0 {
        0
    } else {
        combination(c, w, (n - 1) as nat) + c[n - 1] * w[n - 1]
    }
}

/// The weights share no factor: some integer combination of them is one.
pub open spec fn coprime(w: Seq<int>) -> bool {
    exists|c: Seq<int>| #[trigger] combination(c, w, w.len()) == 1
}

proof fn lemma_comb_prefix(c1: Seq<int>, c2: Seq<int>, w: Seq<int>, n: nat)
    requires
        forall|j: int| 0 <= j < n ==> #[trigger] c1[j] == c2[j],
    ensures
        combination(c1, w, n) == combination(c2, w, n),
    decreases n,
{
    if n > 0 {
        lemma_comb_prefix(c1, c2, w, (n - 1) as nat);
        assert(c1[n - 1] == c2[n - 1]);
    }
}

proof fn lemma_comb_scale(c: Seq<int>, c2: Seq<int>, w: Seq<int>, u: int, n: nat)
    requires
        forall|j: int| 0 <= j < n ==> #[trigger] c2[j] == u * c[j],
    ensures
        combination(c2, w, n) == u * combination(c, w, n),
    decreases n,
{
    if n > 0 {
        let m = (n - 1) as nat;
        lemma_comb_scale(c, c2, w, u, m);
        assert(c2[m as int] == u * c[m as int]);
        let (s2, s, a, b) = (combination(c2, w, m), combination(c, w, m), c[m as int], w[m as int]);
        assert(s2 + (u * a) * b == u * (s + a * b)) by (nonlinear_arith)
            requires
                s2 == u * s,
        ;
    }
}

proof fn lemma_comb_divide(c: Seq<int>, w: Seq<int>, w2: Seq<int>, g: int, n: nat)
    requires
        forall|j: int| 0 <= j < n ==> #[trigger] w[j] == g * w2[j],
    ensures
        combination(c, w, n) == g * combination(c, w2, n),
    decreases n,
{
    if n > 0 {
        let m = (n - 1) as nat;
        lemma_comb_divide(c, w, w2, g, m);
        assert(w[m as int] == g * w2[m as int]);
        let (s, s2, a, b) = (combination(c, w, m), combination(c, w2, m), c[m as int], w2[m as int]);
        assert(s + a * (g * b) == g * (s2 + a * b)) by (nonlinear_arith)
            requires
                s == g * s2,
        ;
    }
}

proof fn lemma_comb_negate(c: Seq<int>, c2: Seq<int>, w: Seq<int>, w2: Seq<int>, n: nat)
    requires
        forall|j: int| 0 <= j < n ==> #[trigger] c2[j] == -c[j],
        forall|j: int| 0 <= j < n ==> #[trigger] w2[j] == -w[j],
    ensures
        combination(c2, w2, n) == combination(c, w, n),
    decreases n,
{
    if n > 0 {
        let m = (n - 1) as nat;
        lemma_comb_negate(c, c2, w, w2, m);
        assert(c2[m as int] == -c[m as int] && w2[m as int] == -w[m as int]);
        let (a, b) = (c[m as int], w[m as int]);
        assert((-a) * (-b) == a * b) by (nonlinear_arith);
    }
}

/// `w` is `v` times the nonzero factor `s`.
pub open spec fn scales(w: Seq<int>, v: Seq<real>, s: real) -> bool {
    s != 0 as real && forall|i: int| 0 <= i < w.len() ==> (#[trigger] w[i]) as real == s * v[i]
}

/// The weights as whole numbers: multiplied by the least common multiple of
/// their denominators, divided by the greatest common divisor of the
/// results, and negated where the first nonzero one is negative. The
/// result is the weights scaled by a nonzero factor.
#[verifier::spinoff_prover]
fn integer_group(v: &Vec<Rational>) -> (w: Vec<Integer>)
    ensures
        w.len() == v.len(),
        exists|s: real| #[trigger] scales(ints(w@), weights(v@), s),
        first_nonzero_positive(ints(w@)),
        (exists|i: int| 0 <= i < w.len() && #[trigger] ints(w@)[i] != 0) ==> coprime(ints(w@)),
{
    let n = v.len();
    let mut denominator = integer_from_i64(1);
    for i in 0..n
        invariant
            n == v.len(),
            denominator@ != 0,
            forall|j: int| 0 <= j < i ==> divides(#[trigger] v@[j]@.1, denominator@),
    {
        let d = rational_denom(&v[i]);
        let ghost before = denominator@;
        proof {
            crate::bignum::lemma_rational_canonical(v@[i as int]);
            lemma_lcm(before, d@);
        }
        denominator = lcm_integers(denominator, d);
        proof {
            assert forall|j: int| 0 <= j < i + 1 implies divides(#[trigger] v@[j]@.1, denominator@) by {
                if j < i {
                    lemma_divides_trans(v@[j]@.1, before, denominator@);
                }
            }
        }
    }
    let scale = rational_from_integer(&denominator);
    let mut integers: Vec<Integer> = Vec::new();
    for i in 0..n
        invariant
            n == v.len(),
            scale@ == rat_int(denominator@),
            forall|j: int| 0 <= j < n ==> divides(#[trigger] v@[j]@.1, denominator@),
            integers.len() == i,
            forall|j: int| 0 <= j < i ==> ((#[trigger] integers@[j])@ as real) == val(v@[j]@) * (denominator@ as real),
    {
        let product = rational_mul(&v[i], &scale);
        let whole = rational_to_integer(&product);
        proof {
            crate::bignum::lemma_rational_canonical(v@[i as int]);
            assert(divides(v@[i as int]@.1, denominator@));
            let k = choose|k: int| denominator@ == #[trigger] (v@[i as int]@.1 * k);
            lemma_to_integer_exact(v@[i as int]@, denominator@, k);
        }
        integers.push(whole);
    }
    let mut divisor = integer_from_i64(0);
    let ghost xs = ints(integers@);
    let ghost mut coefficients: Seq<int> = Seq::new(n as nat, |j: int| 0int);
    for i in 0..n
        invariant
            n == integers.len(),
            xs == ints(integers@),
            divisor@ >= 0,
            forall|j: int| 0 <= j < i ==> divides(divisor@, #[trigger] integers@[j]@),
            divisor@ == 0 ==> forall|j: int| 0 <= j < i ==> #[trigger] integers@[j]@ == 0,
            combination(coefficients, xs, i as nat) == divisor@,
    {
        let ghost old_coefficients = coefficients;
        if !integer_is_zero(&integers[i]) {
            let magnitude = if integer_lt(&integers[i], &integer_from_i64(0)) {
                integer_neg(&integers[i])
            } else {
                integer_clone(&integers[i])
            };
            let ghost before = divisor@;
            let ghost x = integers@[i as int]@;
            divisor = gcd_integers(divisor, magnitude);
            proof {
                assert(magnitude@ == abs(x));
                assert(abs(before) == before);
                assert(abs(abs(x) as int) == abs(x));
                crate::numtheory::lemma_gcd_divides(before as nat, abs(x));
                let g = divisor@;
                assert(g == gcd(before as nat, abs(x)) as int);
                assert(divides(g, before)) by {
                    assert(before == g * (before / g));
                }
                assert(divides(g, x)) by {
                    if x < 0 {
                        assert(x == g * (-(abs(x) as int / g))) by (nonlinear_arith)
                            requires
                                abs(x) as int == g * (abs(x) as int / g),
                                x < 0,
                                abs(x) as int == -x,
                        ;
                    } else {
                        assert(x == g * (abs(x) as int / g));
                    }
                }
                assert forall|j: int| 0 <= j < i + 1 implies divides(divisor@, #[trigger] integers@[j]@) by {
                    if j < i {
                        if before == 0 {
                            assert(integers@[j]@ == 0);
                            assert(integers@[j]@ == divisor@ * 0);
                        } else {
                            lemma_divides_trans(divisor@, before, integers@[j]@);
                        }
                    }
                }
                let (u, w) = crate::numtheory::lemma_bezout(before as nat, abs(x));
                let sx = sign(x);
                assert(sx * x == abs(x) as int) by {
                    if x < 0 {
                        assert(sx == -1);
                        assert(sx * x == -x) by (nonlinear_arith)
                            requires
                                sx == -1,
                        ;
                    } else {
                        assert(sx == 1);
                        assert(sx * x == x) by (nonlinear_arith)
                            requires
                                sx == 1,
                        ;
                    }
                }
                let scaled = Seq::new(n as nat, |j: int| if j < i { u * old_coefficients[j] } else if j == i { w * sx } else { 0int });
                lemma_comb_scale(old_coefficients, scaled, xs, u, i as nat);
                assert(xs[i as int] == x);
                assert(combination(scaled, xs, (i + 1) as nat) == combination(scaled, xs, i as nat) + scaled[i as int] * xs[i as int]);
                assert(scaled[i as int] * xs[i as int] == w * (sx * x)) by (nonlinear_arith)
                    requires
                        scaled[i as int] == w * sx,
                        xs[i as int] == x,
                ;
                coefficients = scaled;
                assert(combination(coefficients, xs, (i + 1) as nat) == u * before + w * abs(x));
            }
        } else {
            proof {
                assert forall|j: int| 0 <= j < i + 1 implies divides(divisor@, #[trigger] integers@[j]@) by {
                    if j == i {
                        assert(integers@[j]@ == divisor@ * 0);
                    }
                }
                assert(xs[i as int] == 0);
                let a = coefficients[i as int];
                assert(a * xs[i as int] == 0) by (nonlinear_arith)
                    requires
                        xs[i as int] == 0,
                ;
            }
        }
    }
    let ghost whole = integers@;
    let ghost factor: real = if divisor@ == 0 { 1 as real } else { divisor@ as real };
    if !integer_is_zero(&divisor) {
        for i in 0..n
            invariant
                n == integers.len(),
                divisor@ > 0,
                whole.len() == n,
                forall|j: int| 0 <= j < n ==> divides(divisor@, #[trigger] whole[j]@),
                forall|j: int| 0 <= j < i ==> ((#[trigger] integers@[j])@ as real) * (divisor@ as real) == (whole[j]@ as real),
                forall|j: int| 0 <= j < i ==> whole[j]@ == divisor@ * (#[trigger] integers@[j])@,
                forall|j: int| i <= j < n ==> #[trigger] integers@[j] == whole[j],
        {
            let quotient = integer_div(&integers[i], &divisor);
            let ghost before = integers@;
            proof {
                let x = whole[i as int]@;
                assert(divides(divisor@, x));
                let k = choose|k: int| x == #[trigger] (divisor@ * k);
                lemma_trunc_exact(divisor@, k);
                lemma_real_mul(divisor@, k);
                assert(before[i as int] == whole[i as int]);
                assert(quotient@ == k);
                assert((k as real) * (divisor@ as real) == (x as real)) by (nonlinear_arith)
                    requires
                        (x as real) == (divisor@ as real) * (k as real),
                ;
            }
            integers.set(i, quotient);
            proof {
                assert forall|j: int| 0 <= j < i + 1 implies ((#[trigger] integers@[j])@ as real) * (divisor@ as real) == (whole[j]@ as real) by {
                    if j < i {
                        assert(integers@[j] == before[j]);
                    }
                }
                assert forall|j: int| 0 <= j < i + 1 implies whole[j]@ == divisor@ * (#[trigger] integers@[j])@ by {
                    if j < i {
                        assert(integers@[j] == before[j]);
                    }
                }
            }
        }
    }
    proof {
        assert forall|j: int| 0 <= j < n implies ((#[trigger] integers@[j])@ as real) * factor == (whole[j]@ as real) by {
            if divisor@ == 0 {
                assert(integers@[j] == whole[j]);
            }
        }
        if divisor@ != 0 {
            assert(xs == ints(whole));
            assert forall|j: int| 0 <= j < n implies #[trigger] xs[j] == divisor@ * ints(integers@)[j] by {
                assert(whole[j]@ == divisor@ * integers@[j]@);
            }
            lemma_comb_divide(coefficients, xs, ints(integers@), divisor@, n as nat);
            let total = combination(coefficients, ints(integers@), n as nat);
            assert(total == 1) by (nonlinear_arith)
                requires
                    divisor@ == divisor@ * total,
                    divisor@ > 0,
            ;
        } else {
            assert forall|j: int| 0 <= j < n implies #[trigger] integers@[j]@ == 0 by {
                assert(integers@[j] == whole[j]);
            }
        }
    }
    let ghost reduced = integers@;
    let mut first: usize = 0;
    while first < n && integer_is_zero(&integers[first])
        invariant
            first <= n,
            n == integers.len(),
            forall|j: int| 0 <= j < first ==> #[trigger] integers@[j]@ == 0,
        decreases n - first,
    {
        first = first + 1;
    }
    let negate = first < n && integer_lt(&integers[first], &integer_from_i64(0));
    if negate {
        for i in 0..n
            invariant
                n == integers.len(),
                reduced.len() == n,
                forall|j: int| 0 <= j < i ==> #[trigger] integers@[j]@ == -reduced[j]@,
                forall|j: int| i <= j < n ==> #[trigger] integers@[j] == reduced[j],
        {
            let flipped = integer_neg(&integers[i]);
            integers.set(i, flipped);
        }
    }
    proof {
        let sign_factor: real = if negate { -1 as real } else { 1 as real };
        let s: real = sign_factor * (denominator@ as real) / factor;
        assert(denominator@ as real != 0 as real);
        assert(factor != 0 as real);
        assert(s != 0 as real) by (nonlinear_arith)
            requires
                s == sign_factor * (denominator@ as real) / factor,
                sign_factor == 1 as real || sign_factor == -1 as real,
                denominator@ as real != 0 as real,
                factor != 0 as real,
        ;
        assert forall|i: int| 0 <= i < integers.len() implies (#[trigger] ints(integers@)[i]) as real == s * weights(v@)[i] by {
            let r = reduced[i]@ as real;
            let t = integers@[i]@ as real;
            let wv = weights(v@)[i];
            assert(wv == val(v@[i]@));
            assert(r * factor == val(v@[i]@) * (denominator@ as real));
            assert(t == sign_factor * r) by {
                if negate {
                    assert(integers@[i]@ == -reduced[i]@);
                } else {
                    assert(integers@[i] == reduced[i]);
                }
            }
            assert(t == s * wv) by (nonlinear_arith)
                requires
                    t == sign_factor * r,
                    r * factor == wv * (denominator@ as real),
                    s == sign_factor * (denominator@ as real) / factor,
                    factor != 0 as real,
            ;
        }
        assert(scales(ints(integers@), weights(v@), s));
        if exists|i: int| 0 <= i < integers.len() && #[trigger] ints(integers@)[i] != 0 {
            let i0 = choose|i: int| 0 <= i < integers.len() && #[trigger] ints(integers@)[i] != 0;
            if divisor@ == 0 {
                assert(reduced[i0]@ == 0);
                if negate {
                    assert(integers@[i0]@ == -reduced[i0]@);
                } else {
                    assert(integers@[i0] == reduced[i0]);
                }
                assert(ints(integers@)[i0] == integers@[i0]@);
            }
            assert(combination(coefficients, ints(reduced), n as nat) == 1);
            if negate {
                let flipped = Seq::new(n as nat, |j: int| -coefficients[j]);
                assert forall|j: int| 0 <= j < n implies #[trigger] ints(integers@)[j] == -ints(reduced)[j] by {
                    assert(integers@[j]@ == -reduced[j]@);
                }
                lemma_comb_negate(coefficients, flipped, ints(reduced), ints(integers@), n as nat);
                assert(combination(flipped, ints(integers@), ints(integers@).len()) == 1);
            } else {
                assert(ints(integers@) =~= ints(reduced)) by {
                    assert forall|j: int| 0 <= j < n implies #[trigger] ints(integers@)[j] == ints(reduced)[j] by {
                        assert(integers@[j] == reduced[j]);
                    }
                }
                assert(combination(coefficients, ints(integers@), ints(integers@).len()) == 1);
            }
        }
        assert forall|i: int|
            0 <= i < integers.len() && #[trigger] ints(integers@)[i] != 0 && (forall|j: int|
                0 <= j < i ==> ints(integers@)[j] == 0) implies ints(integers@)[i] > 0 by {
            if i < first {
                if negate {
                    assert(integers@[i]@ == -reduced[i]@);
                } else {
                    assert(integers@[i] == reduced[i]);
                }
            } else if i > first {
                assert(first < n);
                if negate {
                    assert(integers@[first as int]@ == -reduced[first as int]@);
                } else {
                    assert(integers@[first as int] == reduced[first as int]);
                }
                assert(ints(integers@)[first as int] == 0);
            } else {
                if negate {
                    assert(integers@[i]@ == -reduced[i]@);
                } else {
                    assert(integers@[i] == reduced[i]);
                }
            }
        }
    }
    integers
}

} // verus!

verus! {

/// The group weights are zero after their free column.
proof fn lemma_group_after(m: Seq<Seq<(int, int)>>, pivots: Seq<usize>, free: int, w: Seq<real>, n: nat)
    requires
        reduced_upto(m, pivots, n),
        0 <= free < n,
        !is_pivot(pivots, free),
        group_weights(m, pivots, free, w, n),
    ensures
        forall|d: int| free < d < n ==> #[trigger] w[d] == 0 as real,
{
    assert forall|d: int| free < d < n implies #[trigger] w[d] == 0 as real by {
        if is_pivot(pivots, d) {
            let j = choose|j: int| 0 <= j < pivots.len() && pivots[j] == d;
            assert(val(m[j][free]) == 0 as real);
            assert(w[pivots[j] as int] == -val(m[j][free]));
        }
    }
}

/// The position of a pivot column among the pivots.
pub open spec fn pivot_index(pivots: Seq<usize>, c: int) -> int {
    choose|j: int| 0 <= j < pivots.len() && pivots[j] == c
}

/// The weights of the solution for the free column `free`.
pub open spec fn free_weights(m: Seq<Seq<(int, int)>>, pivots: Seq<usize>, free: int, n: nat) -> Seq<real> {
    Seq::new(
        n,
        |c: int|
            if c == free {
                1 as real
            } else if is_pivot(pivots, c) {
                -val(m[pivot_index(pivots, c)][free])
            } else {
                0 as real
            },
    )
}

/// A column without a pivot depends on the columns before it.
#[verifier::spinoff_prover]
proof fn lemma_free_depends(
    quantities: Seq<(String, Dimensions)>,
    m: Seq<Seq<(int, int)>>,
    pivots: Seq<usize>,
    free: int,
)
    requires
        reduced_upto(m, pivots, quantities.len()),
        0 <= free < quantities.len(),
        !is_pivot(pivots, free),
        forall|w: Seq<real>| #[trigger] kills(m, w, quantities.len()) <==> dimensionless(quantities, w),
    ensures
        depends_on_earlier(quantities, free),
{
    let n = quantities.len();
    let w = free_weights(m, pivots, free, n);
    assert forall|j: int| 0 <= j < pivots.len() implies #[trigger] w[pivots[j] as int] == -val(m[j][free]) by {
        let c = pivots[j] as int;
        assert(is_pivot(pivots, c));
        let i = pivot_index(pivots, c);
        if i < j {
            assert(pivots[i] < pivots[j]);
        } else if i > j {
            assert(pivots[j] < pivots[i]);
        }
    }
    assert(group_weights(m, pivots, free, w, n));
    assert forall|k: int| 0 <= k < m.len() implies dot(#[trigger] m[k], w, n) == 0 as real by {
        lemma_group_row(m, pivots, free, w, n, k);
    }
    assert(kills(m, w, n));
    lemma_group_after(m, pivots, free, w, n);
    assert(dimensionless(quantities, w) && w[free] == 1 as real && (forall|d: int| free < d < n ==> w[d] == 0 as real));
}

/// How many of `s` are below `u`.
pub open spec fn count_below(s: Seq<usize>, u: int) -> nat
    decreases s.len(),
{
    if s.len() == 0 {
        0
    } else {
        count_below(s.drop_last(), u) + if (s.last() as int) < u {
            1nat
        } else {
            0nat
        }
    }
}

pub open spec fn increasing(s: Seq<usize>) -> bool {
    forall|i: int, j: int| 0 <= i < j < s.len() ==> s[i] < s[j]
}

#[verifier::spinoff_prover]
proof fn lemma_count_step(s: Seq<usize>, u: int)
    requires
        increasing(s),
    ensures
        count_below(s, u + 1) == count_below(s, u) + if is_pivot(s, u) {
            1nat
        } else {
            0nat
        },
    decreases s.len(),
{
    if s.len() > 0 {
        let t = s.drop_last();
        lemma_count_step(t, u);
        if is_pivot(s, u) {
            let j = choose|j: int| 0 <= j < s.len() && s[j] == u;
            if j < t.len() {
                assert(t[j] == u);
                assert(s[j] < s.last());
            }
        }
        if is_pivot(t, u) {
            let j = choose|j: int| 0 <= j < t.len() && t[j] == u;
            assert(s[j] == u);
        }
    }
}

proof fn lemma_count_non_pivots(s: Seq<usize>, u: nat)
    requires
        increasing(s),
    ensures
        non_pivots(s, u).len() + count_below(s, u as int) == u,
    decreases u,
{
    if u == 0 {
        lemma_count_zero(s);
    } else {
        lemma_count_non_pivots(s, (u - 1) as nat);
        lemma_count_step(s, u - 1);
    }
}

proof fn lemma_count_zero(s: Seq<usize>)
    ensures
        count_below(s, 0) == 0,
    decreases s.len(),
{
    if s.len() > 0 {
        lemma_count_zero(s.drop_last());
    }
}

proof fn lemma_count_all(s: Seq<usize>, n: int)
    requires
        forall|i: int| 0 <= i < s.len() ==> s[i] < n,
    ensures
        count_below(s, n) == s.len(),
    decreases s.len(),
{
    if s.len() > 0 {
        lemma_count_all(s.drop_last(), n);
    }
}

/// Whether `c` is one of the pivot columns.
fn is_pivot_column(pivots: &Vec<usize>, c: usize) -> (r: bool)
    ensures
        r == is_pivot(pivots@, c as int),
{
    for k in 0..pivots.len()
        invariant
            forall|j: int| 0 <= j < k ==> pivots@[j] != c,
    {
        if pivots[k] == c {
            return true;
        }
    }
    false
}

} // verus!

verus! {

/// The weights as reals.
pub open spec fn reals(w: Seq<int>) -> Seq<real> {
    w.map_values(|x: int| x as real)
}

/// The named nonzero weights before `upto`, in the quantities' order.
pub open spec fn named_nonzero(quantities: Seq<(String, Dimensions)>, w: Seq<int>, upto: nat) -> Seq<(Seq<char>, int)>
    decreases upto,
{
    if upto == 0 {
        Seq::empty()
    } else {
        let before = named_nonzero(quantities, w, (upto - 1) as nat);
        if w[upto - 1] != 0 {
            before.push((quantities[upto - 1].0@, w[upto - 1]))
        } else {
            before
        }
    }
}

/// A group as names and numbers.
pub open spec fn group_view(group: Seq<(String, Integer)>) -> Seq<(Seq<char>, int)> {
    group.map_values(|e: (String, Integer)| (e.0@, e.1@))
}

/// The integer weights of group `g` over the free columns `free`: a
/// dimensionless product, nonzero at its own free column, zero at the
/// other free columns and after its own, with its first nonzero weight
/// positive and no factor common to all weights.
pub open spec fn basis_vector(quantities: Seq<(String, Dimensions)>, free: Seq<int>, g: int, w: Seq<int>) -> bool {
    &&& w.len() == quantities.len()
    &&& dimensionless(quantities, reals(w))
    &&& w[free[g]] != 0
    &&& forall|h: int| 0 <= h < free.len() && h != g ==> #[trigger] w[free[h]] == 0
    &&& forall|d: int| free[g] < d < quantities.len() ==> #[trigger] w[d] == 0
    &&& first_nonzero_positive(w)
    &&& coprime(w)
}

/// Group `g` over the free columns `free`, named: the nonzero weights of
/// such a basis vector.
pub open spec fn basis_group(quantities: Seq<(String, Dimensions)>, free: Seq<int>, g: int, group: Seq<(Seq<char>, int)>) -> bool {
    exists|w: Seq<int>| #[trigger] basis_vector(quantities, free, g, w) && group == named_nonzero(quantities, w, quantities.len())
}

/// The pivot columns of the reduced dimension matrix are the quantities
/// that do not depend on earlier ones.
proof fn lemma_pivots_are_independent(
    quantities: Seq<(String, Dimensions)>,
    m: Seq<Seq<(int, int)>>,
    pivots: Seq<usize>,
)
    requires
        reduced_upto(m, pivots, quantities.len()),
        forall|w: Seq<real>| #[trigger] kills(m, w, quantities.len()) <==> dimensionless(quantities, w),
    ensures
        forall|c: int| 0 <= c < quantities.len() ==> (is_pivot(pivots, c) <==> !#[trigger] depends_on_earlier(quantities, c)),
        free_columns(quantities, quantities.len()) == non_pivots(pivots, quantities.len()),
{
    assert forall|c: int| 0 <= c < quantities.len() implies (is_pivot(pivots, c) <==> !#[trigger] depends_on_earlier(quantities, c)) by {
        if is_pivot(pivots, c) {
            let k = choose|k: int| 0 <= k < pivots.len() && pivots[k] == c;
            lemma_pivot_independent(quantities, m, pivots, k);
        } else {
            lemma_free_depends(quantities, m, pivots, c);
        }
    }
    lemma_free_columns(quantities, pivots, quantities.len());
}

/// The number of independent dimensionless groups the named quantities
/// form: one for each quantity whose dimension is a product of powers of
/// the dimensions before it.
#[verifier::spinoff_prover]
pub fn count_pi_groups_exact(quantities: &[(String, Dimensions)]) -> (r: usize)
    ensures
        r == free_columns(quantities@, quantities@.len()).len(),
{
    let n = quantities.len();
    let matrix = dimension_matrix(quantities);
    let ghost original = entries(matrix@);
    let (rows, pivots) = rref(matrix, n);
    proof {
        assert forall|w: Seq<real>| #[trigger] kills(entries(rows@), w, n as nat) <==> dimensionless(quantities@, w) by {
            assert(kills(entries(rows@), w, n as nat) <==> kills(original, w, n as nat));
        }
        lemma_pivots_are_independent(quantities@, entries(rows@), pivots@);
        lemma_count_non_pivots(pivots@, n as nat);
        lemma_count_all(pivots@, n as int);
    }
    n - pivots.len()
}

/// A deterministic integer basis of the dimensionless groups: one group per
/// quantity whose dimension depends on earlier ones, in order, each listing
/// the quantities with nonzero integer exponents in their order, the first
/// exponent positive.
#[verifier::spinoff_prover]
pub fn pi_groups_exact(quantities: &[(String, Dimensions)]) -> (r: Vec<Vec<(String, Integer)>>)
    ensures
        r.len() == free_columns(quantities@, quantities@.len()).len(),
        forall|g: int|
            0 <= g < r.len() ==> #[trigger] basis_group(quantities@, free_columns(quantities@, quantities@.len()), g, group_view(r@[g]@)),
{
    let n = quantities.len();
    let matrix = dimension_matrix(quantities);
    let ghost original = entries(matrix@);
    let (rows, pivots) = rref(matrix, n);
    let ghost q = quantities@;
    let ghost reduced = entries(rows@);
    let ghost free = free_columns(q, n as nat);
    proof {
        assert forall|w: Seq<real>| #[trigger] kills(reduced, w, n as nat) <==> dimensionless(q, w) by {
            assert(kills(reduced, w, n as nat) <==> kills(original, w, n as nat));
        }
        lemma_pivots_are_independent(q, reduced, pivots@);
        lemma_non_pivots(pivots@, n as nat);
    }
    let mut groups: Vec<Vec<(String, Integer)>> = Vec::new();
    let ghost mut found: Seq<Seq<int>> = Seq::empty();
    for column in 0..n
        invariant
            n == quantities.len(),
            q == quantities@,
            reduced == entries(rows@),
            forall|k: int| 0 <= k < rows.len() ==> (#[trigger] rows@[k]).len() == n,
            reduced_upto(reduced, pivots@, n as nat),
            forall|w: Seq<real>| #[trigger] kills(reduced, w, n as nat) <==> dimensionless(q, w),
            free == non_pivots(pivots@, n as nat),
            forall|i: int| 0 <= i < free.len() ==> 0 <= #[trigger] free[i] < n && !is_pivot(pivots@, free[i]),
            forall|i: int, j: int| 0 <= i < j < free.len() ==> #[trigger] free[i] < #[trigger] free[j],
            groups.len() == non_pivots(pivots@, column as nat).len(),
            found.len() == groups.len(),
            forall|g: int| 0 <= g < groups.len() ==> #[trigger] basis_vector(q, free, g, found[g]),
            forall|g: int| 0 <= g < groups.len() ==> #[trigger] group_view(groups@[g]@) == named_nonzero(q, found[g], n as nat),
    {
        if !is_pivot_column(&pivots, column) {
            let v = group_vector(&rows, &pivots, column, n);
            let w = integer_group(&v);
            let mut group: Vec<(String, Integer)> = Vec::new();
            for i in 0..n
                invariant
                    n == quantities.len(),
                    q == quantities@,
                    w.len() == n,
                    group_view(group@) == named_nonzero(q, ints(w@), i as nat),
            {
                if !integer_is_zero(&w[i]) {
                    let ghost before = group@;
                    group.push((quantities[i].0.clone(), integer_clone(&w[i])));
                    proof {
                        assert(ints(w@)[i as int] == w@[i as int]@);
                        assert(group_view(group@) =~= group_view(before).push((q[i as int].0@, ints(w@)[i as int])));
                    }
                } else {
                    proof {
                        assert(ints(w@)[i as int] == w@[i as int]@);
                    }
                }
            }
            proof {
                let g = groups.len() as int;
                let wi = ints(w@);
                let s = choose|s: real| #[trigger] scales(wi, weights(v@), s);
                lemma_group_after(reduced, pivots@, column as int, weights(v@), n as nat);
                // The free column of this group.
                lemma_non_pivots_prefix(pivots@, (column + 1) as nat, n as nat);
                assert(non_pivots(pivots@, (column + 1) as nat) == non_pivots(pivots@, column as nat).push(column as int));
                assert(free[g] == column);
                // Dimensionless: the original system kills the weights.
                assert(dimensionless(q, weights(v@)));
                assert forall|id: Seq<char>| #[trigger] dot(exponent_row(q, id), reals(wi), n as nat) == 0 as real by {
                    assert forall|i: int| 0 <= i < n implies #[trigger] reals(wi)[i] == s * weights(v@)[i] by {
                        assert(reals(wi)[i] == wi[i] as real);
                    }
                    lemma_dot_vec_scale(exponent_row(q, id), weights(v@), reals(wi), s, n as nat);
                    assert(dot(exponent_row(q, id), weights(v@), n as nat) == 0 as real);
                }
                assert(wi[column as int] != 0) by {
                    assert(weights(v@)[column as int] == 1 as real);
                    assert((wi[column as int] as real) == s * 1 as real);
                }
                assert forall|h: int| 0 <= h < free.len() && h != g implies #[trigger] wi[free[h]] == 0 by {
                    assert(free[h] != column) by {
                        if h < g {
                            assert(free[h] < free[g]);
                        } else {
                            assert(free[g] < free[h]);
                        }
                    }
                    assert(weights(v@)[free[h]] == 0 as real);
                    assert((wi[free[h]] as real) == s * weights(v@)[free[h]]);
                }
                assert forall|d: int| free[g] < d < n implies #[trigger] wi[d] == 0 by {
                    assert(weights(v@)[d] == 0 as real);
                    assert((wi[d] as real) == s * weights(v@)[d]);
                }
                assert(wi[column as int] != 0 && 0 <= column < w.len());
                assert(coprime(wi));
                assert(basis_vector(q, free, g, wi));
            }
            let ghost before = groups@;
            let ghost made = group@;
            proof {
                assert(group_view(made) == named_nonzero(q, ints(w@), n as nat));
            }
            groups.push(group);
            proof {
                let old_found = found;
                found = found.push(ints(w@));
                assert(groups@[before.len() as int]@ == made);
                assert forall|g: int| 0 <= g < groups.len() implies #[trigger] basis_vector(q, free, g, found[g])
                    && #[trigger] group_view(groups@[g]@) == named_nonzero(q, found[g], n as nat) by {
                    if g < before.len() {
                        assert(groups@[g] == before[g]);
                        assert(found[g] == old_found[g]);
                    } else {
                        assert(found[g] == ints(w@));
                        assert(basis_vector(q, free, g, ints(w@)));
                        assert(group_view(groups@[g]@) == named_nonzero(q, ints(w@), n as nat));
                    }
                }
            }
        } else {
            proof {
                assert forall|g: int| 0 <= g < groups.len() implies #[trigger] basis_vector(q, free, g, found[g]) by {}
            }
        }
    }
    proof {
        lemma_non_pivots(pivots@, n as nat);
        assert forall|g: int| 0 <= g < groups.len() implies #[trigger] basis_group(q, free, g, group_view(groups@[g]@)) by {
            assert(basis_vector(q, free, g, found[g]));
            assert(group_view(groups@[g]@) == named_nonzero(q, found[g], n as nat));
        }
    }
    groups
}

} // verus!
