//! The integer basis vectors of the dimensionless groups: every
//! dimensionless product of the quantities is a combination of them, and
//! none of them is a combination of the others.
use crate::pi::{basis_vector, depends_on_earlier, dimensionless, dot, exponent_row, free_columns, reals, val};
use vstd::prelude::*;

verus! {

/// Entry `c` of the combination `Σ_{g < k} coef[g] · vecs[g]`.
pub open spec fn combination_at(vecs: Seq<Seq<int>>, coef: Seq<real>, c: int, k: nat) -> real
    decreases k,
{
    if k == 0 {
        0 as real
    } else {
        combination_at(vecs, coef, c, (k - 1) as nat) + coef[k - 1] * (vecs[k - 1][c] as real)
    }
}

/// The coefficient of each basis vector in the product with weights `w`:
/// the weight at the vector's own free column over the vector's entry there.
pub open spec fn span_coefficients(free: Seq<int>, vecs: Seq<Seq<int>>, w: Seq<real>) -> Seq<real> {
    Seq::new(vecs.len(), |g: int| w[free[g]] / (vecs[g][free[g]] as real))
}

/// A product with a zero factor is zero.
#[verifier::spinoff_prover]
proof fn lemma_times_zero(s: real, x: real)
    requires
        x == 0 as real,
    ensures
        s * x == 0 as real,
{
    assert(s * x == 0 as real) by (nonlinear_arith)
        requires
            x == 0 as real,
    ;
}

/// The inverse of a nonzero real.
#[verifier::spinoff_prover]
proof fn lemma_inverse(x: real) -> (s: real)
    requires
        x != 0 as real,
    ensures
        s * x == 1 as real,
{
    let s = 1 as real / x;
    assert(s * x == 1 as real) by (nonlinear_arith)
        requires
            x != 0 as real,
            s == 1 as real / x,
    ;
    s
}

/// The product with weights `a + b` is the sum of the products.
#[verifier::spinoff_prover]
proof fn lemma_dot_sum(row: Seq<(int, int)>, a: Seq<real>, b: Seq<real>, z: Seq<real>, n: nat)
    requires
        forall|i: int| 0 <= i < n ==> #[trigger] z[i] == a[i] + b[i],
    ensures
        dot(row, z, n) == dot(row, a, n) + dot(row, b, n),
    decreases n,
{
    if n > 0 {
        let m = (n - 1) as nat;
        lemma_dot_sum(row, a, b, z, m);
        assert(z[m as int] == a[m as int] + b[m as int]);
        let (dz, da, db) = (dot(row, z, m), dot(row, a, m), dot(row, b, m));
        let (e, am, bm, zm) = (val(row[m as int]), a[m as int], b[m as int], z[m as int]);
        assert(dz + e * zm == (da + e * am) + (db + e * bm)) by (nonlinear_arith)
            requires
                dz == da + db,
                zm == am + bm,
        ;
    }
}

/// The product with weights `a - b` is that with `a` less that with `b`.
#[verifier::spinoff_prover]
proof fn lemma_dot_sub(row: Seq<(int, int)>, a: Seq<real>, b: Seq<real>, z: Seq<real>, n: nat)
    requires
        forall|i: int| 0 <= i < n ==> #[trigger] z[i] == a[i] - b[i],
    ensures
        dot(row, z, n) == dot(row, a, n) - dot(row, b, n),
    decreases n,
{
    if n > 0 {
        let m = (n - 1) as nat;
        lemma_dot_sub(row, a, b, z, m);
        assert(z[m as int] == a[m as int] - b[m as int]);
        let (dz, da, db) = (dot(row, z, m), dot(row, a, m), dot(row, b, m));
        let (e, am, bm, zm) = (val(row[m as int]), a[m as int], b[m as int], z[m as int]);
        assert(dz + e * zm == (da + e * am) - (db + e * bm)) by (nonlinear_arith)
            requires
                dz == da - db,
                zm == am - bm,
        ;
    }
}

/// The product with weights `s·a` is `s` times that with `a`.
#[verifier::spinoff_prover]
proof fn lemma_dot_scale(row: Seq<(int, int)>, a: Seq<real>, z: Seq<real>, s: real, n: nat)
    requires
        forall|i: int| 0 <= i < n ==> #[trigger] z[i] == s * a[i],
    ensures
        dot(row, z, n) == s * dot(row, a, n),
    decreases n,
{
    if n > 0 {
        let m = (n - 1) as nat;
        lemma_dot_scale(row, a, z, s, m);
        assert(z[m as int] == s * a[m as int]);
        let (dz, da) = (dot(row, z, m), dot(row, a, m));
        let (e, am, zm) = (val(row[m as int]), a[m as int], z[m as int]);
        assert(dz + e * zm == s * (da + e * am)) by (nonlinear_arith)
            requires
                dz == s * da,
                zm == s * am,
        ;
    }
}

/// The product with no weight anywhere is zero.
#[verifier::spinoff_prover]
proof fn lemma_dot_zero(row: Seq<(int, int)>, z: Seq<real>, n: nat)
    requires
        forall|i: int| 0 <= i < n ==> #[trigger] z[i] == 0 as real,
    ensures
        dot(row, z, n) == 0 as real,
    decreases n,
{
    if n > 0 {
        let m = (n - 1) as nat;
        lemma_dot_zero(row, z, m);
        assert(z[m as int] == 0 as real);
        lemma_times_zero(val(row[m as int]), z[m as int]);
    }
}

/// `a + t·b` is dimensionless where `a` and `b` are.
#[verifier::spinoff_prover]
proof fn lemma_dimensionless_add(
    q: Seq<(String, crate::dimension::Dimensions)>,
    a: Seq<real>,
    b: Seq<real>,
    z: Seq<real>,
    t: real,
)
    requires
        dimensionless(q, a),
        dimensionless(q, b),
        forall|i: int| 0 <= i < q.len() ==> #[trigger] z[i] == a[i] + t * b[i],
    ensures
        dimensionless(q, z),
{
    let tb = Seq::new(q.len(), |i: int| t * b[i]);
    lemma_dimensionless_scale(q, b, tb, t);
    assert forall|id: Seq<char>| #[trigger] dot(exponent_row(q, id), z, q.len()) == 0 as real by {
        let row = exponent_row(q, id);
        lemma_dot_sum(row, a, tb, z, q.len());
        assert(dot(row, a, q.len()) == 0 as real);
        assert(dot(row, tb, q.len()) == 0 as real);
    }
}

/// `a - b` is dimensionless where `a` and `b` are.
#[verifier::spinoff_prover]
proof fn lemma_dimensionless_sub(q: Seq<(String, crate::dimension::Dimensions)>, a: Seq<real>, b: Seq<real>, z: Seq<real>)
    requires
        dimensionless(q, a),
        dimensionless(q, b),
        forall|i: int| 0 <= i < q.len() ==> #[trigger] z[i] == a[i] - b[i],
    ensures
        dimensionless(q, z),
{
    assert forall|id: Seq<char>| #[trigger] dot(exponent_row(q, id), z, q.len()) == 0 as real by {
        let row = exponent_row(q, id);
        lemma_dot_sub(row, a, b, z, q.len());
        assert(dot(row, a, q.len()) == 0 as real);
        assert(dot(row, b, q.len()) == 0 as real);
    }
}

/// `s·a` is dimensionless where `a` is.
#[verifier::spinoff_prover]
proof fn lemma_dimensionless_scale(q: Seq<(String, crate::dimension::Dimensions)>, a: Seq<real>, z: Seq<real>, s: real)
    requires
        dimensionless(q, a),
        forall|i: int| 0 <= i < q.len() ==> #[trigger] z[i] == s * a[i],
    ensures
        dimensionless(q, z),
{
    assert forall|id: Seq<char>| #[trigger] dot(exponent_row(q, id), z, q.len()) == 0 as real by {
        let row = exponent_row(q, id);
        lemma_dot_scale(row, a, z, s, q.len());
        assert(dot(row, a, q.len()) == 0 as real);
        lemma_times_zero(s, dot(row, a, q.len()));
    }
}

/// The free columns lie below the bound they were taken up to.
#[verifier::spinoff_prover]
proof fn lemma_free_bounds(q: Seq<(String, crate::dimension::Dimensions)>, upto: nat)
    ensures
        forall|h: int|
            0 <= h < free_columns(q, upto).len() ==> 0 <= #[trigger] free_columns(q, upto)[h] < upto,
    decreases upto,
{
    if upto > 0 {
        let m = (upto - 1) as nat;
        lemma_free_bounds(q, m);
        let before = free_columns(q, m);
        if depends_on_earlier(q, upto - 1) {
            assert(free_columns(q, upto) == before.push(upto - 1));
        } else {
            assert(free_columns(q, upto) == before);
        }
    }
}

/// A quantity that depends on earlier ones is one of the free columns.
#[verifier::spinoff_prover]
proof fn lemma_free_member(q: Seq<(String, crate::dimension::Dimensions)>, upto: nat, c: int)
    requires
        0 <= c < upto,
        depends_on_earlier(q, c),
    ensures
        exists|h: int| 0 <= h < free_columns(q, upto).len() && #[trigger] free_columns(q, upto)[h] == c,
    decreases upto,
{
    let m = (upto - 1) as nat;
    let f = free_columns(q, upto);
    let before = free_columns(q, m);
    if c == upto - 1 {
        assert(f == before.push(c));
        assert(f[before.len() as int] == c);
    } else {
        lemma_free_member(q, m, c);
        let h = choose|h: int| 0 <= h < before.len() && #[trigger] before[h] == c;
        if depends_on_earlier(q, upto - 1) {
            assert(f == before.push(upto - 1));
        } else {
            assert(f == before);
        }
        assert(f[h] == c);
    }
}

/// A dimensionless product that is nonzero at `c` and zero after it,
/// scaled to weight one at `c`, shows that `c` depends on earlier ones.
#[verifier::spinoff_prover]
proof fn lemma_scaled_depends(q: Seq<(String, crate::dimension::Dimensions)>, z: Seq<real>, c: int)
    requires
        0 <= c < q.len(),
        dimensionless(q, z),
        z[c] != 0 as real,
        forall|d: int| c < d < q.len() ==> #[trigger] z[d] == 0 as real,
    ensures
        depends_on_earlier(q, c),
{
    let n = q.len();
    let s = lemma_inverse(z[c]);
    let w = Seq::new(n, |i: int| s * z[i]);
    lemma_dimensionless_scale(q, z, w, s);
    assert(w[c] == 1 as real);
    assert forall|d: int| c < d < n implies w[d] == 0 as real by {
        lemma_times_zero(s, z[d]);
    }
    assert(dimensionless(q, w) && w[c] == 1 as real && (forall|d: int| c < d < n ==> w[d] == 0 as real));
}

/// A dimensionless product with no weight at any free column has no
/// weight at all from `c` on.
#[verifier::spinoff_prover]
proof fn lemma_zero_off_free(q: Seq<(String, crate::dimension::Dimensions)>, z: Seq<real>, c: int)
    requires
        0 <= c <= q.len(),
        dimensionless(q, z),
        forall|h: int|
            0 <= h < free_columns(q, q.len()).len() ==> z[#[trigger] free_columns(q, q.len())[h]] == 0 as real,
    ensures
        forall|d: int| c <= d < q.len() ==> #[trigger] z[d] == 0 as real,
    decreases q.len() - c,
{
    if c < q.len() {
        lemma_zero_off_free(q, z, c + 1);
        if z[c] != 0 as real {
            lemma_scaled_depends(q, z, c);
            lemma_free_member(q, q.len(), c);
            let h = choose|h: int|
                0 <= h < free_columns(q, q.len()).len() && #[trigger] free_columns(q, q.len())[h] == c;
            assert(z[free_columns(q, q.len())[h]] == 0 as real);
        }
    }
}

/// At a free column, a combination of the basis vectors takes only the
/// term of that column's own vector.
#[verifier::spinoff_prover]
proof fn lemma_combination_at_free(
    q: Seq<(String, crate::dimension::Dimensions)>,
    vecs: Seq<Seq<int>>,
    coef: Seq<real>,
    h: int,
    k: nat,
)
    requires
        vecs.len() == free_columns(q, q.len()).len(),
        k <= vecs.len(),
        0 <= h < vecs.len(),
        forall|g: int| 0 <= g < vecs.len() ==> #[trigger] basis_vector(q, free_columns(q, q.len()), g, vecs[g]),
    ensures
        combination_at(vecs, coef, free_columns(q, q.len())[h], k) == (if h < k {
            coef[h] * (vecs[h][free_columns(q, q.len())[h]] as real)
        } else {
            0 as real
        }),
    decreases k,
{
    if k > 0 {
        let free = free_columns(q, q.len());
        lemma_combination_at_free(q, vecs, coef, h, (k - 1) as nat);
        let g = k - 1;
        assert(basis_vector(q, free, g, vecs[g]));
        if g != h {
            assert(vecs[g][free[h]] == 0);
            lemma_times_zero(coef[g], vecs[g][free[h]] as real);
        }
    }
}

/// Every partial combination of the basis vectors is dimensionless.
#[verifier::spinoff_prover]
proof fn lemma_combination_dimensionless(
    q: Seq<(String, crate::dimension::Dimensions)>,
    vecs: Seq<Seq<int>>,
    coef: Seq<real>,
    k: nat,
)
    requires
        vecs.len() == free_columns(q, q.len()).len(),
        k <= vecs.len(),
        forall|g: int| 0 <= g < vecs.len() ==> #[trigger] basis_vector(q, free_columns(q, q.len()), g, vecs[g]),
    ensures
        dimensionless(q, Seq::new(q.len(), |i: int| combination_at(vecs, coef, i, k))),
    decreases k,
{
    let n = q.len();
    let p = Seq::new(n, |i: int| combination_at(vecs, coef, i, k));
    if k == 0 {
        assert forall|id: Seq<char>| #[trigger] dot(exponent_row(q, id), p, n) == 0 as real by {
            lemma_dot_zero(exponent_row(q, id), p, n);
        }
    } else {
        let m = (k - 1) as nat;
        lemma_combination_dimensionless(q, vecs, coef, m);
        let prev = Seq::new(n, |i: int| combination_at(vecs, coef, i, m));
        let b = reals(vecs[m as int]);
        assert(basis_vector(q, free_columns(q, n), m as int, vecs[m as int]));
        assert forall|i: int| 0 <= i < n implies #[trigger] p[i] == prev[i] + coef[m as int] * b[i] by {
            assert(b[i] == vecs[m as int][i] as real);
        }
        lemma_dimensionless_add(q, prev, b, p, coef[m as int]);
    }
}

/// The groups span the dimensionless products: whatever weights `w` make
/// the product of the quantities dimensionless are the combination of the
/// basis vectors, one for each quantity that depends on earlier ones, with
/// the coefficients `span_coefficients`.
#[verifier::spinoff_prover]
pub proof fn law_pi_groups_span(q: Seq<(String, crate::dimension::Dimensions)>, vecs: Seq<Seq<int>>, w: Seq<real>)
    requires
        vecs.len() == free_columns(q, q.len()).len(),
        forall|g: int| 0 <= g < vecs.len() ==> #[trigger] basis_vector(q, free_columns(q, q.len()), g, vecs[g]),
        dimensionless(q, w),
    ensures
        forall|c: int|
            0 <= c < q.len() ==> #[trigger] w[c] == combination_at(
                vecs,
                span_coefficients(free_columns(q, q.len()), vecs, w),
                c,
                vecs.len(),
            ),
{
    let n = q.len();
    let free = free_columns(q, n);
    let coef = span_coefficients(free, vecs, w);
    let k = vecs.len();
    let p = Seq::new(n, |i: int| combination_at(vecs, coef, i, k));
    lemma_combination_dimensionless(q, vecs, coef, k);
    let z = Seq::new(n, |i: int| w[i] - p[i]);
    lemma_dimensionless_sub(q, w, p, z);
    lemma_free_bounds(q, n);
    assert forall|h: int| 0 <= h < free.len() implies z[#[trigger] free[h]] == 0 as real by {
        lemma_combination_at_free(q, vecs, coef, h, k);
        assert(basis_vector(q, free, h, vecs[h]));
        let x = vecs[h][free[h]] as real;
        let wf = w[free[h]];
        assert(coef[h] == wf / x);
        assert((wf / x) * x == wf) by (nonlinear_arith)
            requires
                x != 0 as real,
        ;
        assert(p[free[h]] == wf);
    }
    lemma_zero_off_free(q, z, 0);
    assert forall|c: int| 0 <= c < n implies #[trigger] w[c] == combination_at(vecs, coef, c, k) by {
        assert(z[c] == 0 as real);
    }
}

/// The groups are independent: a combination of the basis vectors that has
/// no weight anywhere has every coefficient zero.
#[verifier::spinoff_prover]
pub proof fn law_pi_groups_independent(q: Seq<(String, crate::dimension::Dimensions)>, vecs: Seq<Seq<int>>, coef: Seq<real>)
    requires
        vecs.len() == free_columns(q, q.len()).len(),
        forall|g: int| 0 <= g < vecs.len() ==> #[trigger] basis_vector(q, free_columns(q, q.len()), g, vecs[g]),
        forall|c: int| 0 <= c < q.len() ==> #[trigger] combination_at(vecs, coef, c, vecs.len()) == 0 as real,
    ensures
        forall|g: int| 0 <= g < vecs.len() ==> #[trigger] coef[g] == 0 as real,
{
    let n = q.len();
    let free = free_columns(q, n);
    lemma_free_bounds(q, n);
    assert forall|g: int| 0 <= g < vecs.len() implies #[trigger] coef[g] == 0 as real by {
        lemma_combination_at_free(q, vecs, coef, g, vecs.len());
        assert(basis_vector(q, free, g, vecs[g]));
        assert(combination_at(vecs, coef, free[g], vecs.len()) == 0 as real);
        let x = vecs[g][free[g]] as real;
        let cg = coef[g];
        assert(cg == 0 as real) by (nonlinear_arith)
            requires
                x != 0 as real,
                cg * x == 0 as real,
        ;
    }
}

/// The positions before `upto` of the quantities that do not depend on
/// earlier ones: the independent columns of the dimension matrix.
pub open spec fn independent_columns(q: Seq<(String, crate::dimension::Dimensions)>, upto: nat) -> Seq<int>
    decreases upto,
{
    if upto == 0 {
        Seq::empty()
    } else {
        let before = independent_columns(q, (upto - 1) as nat);
        if depends_on_earlier(q, upto - 1) {
            before
        } else {
            before.push(upto - 1)
        }
    }
}

/// Every column below `upto` is free or independent, and not both.
#[verifier::spinoff_prover]
proof fn lemma_columns_split(q: Seq<(String, crate::dimension::Dimensions)>, upto: nat)
    ensures
        free_columns(q, upto).len() + independent_columns(q, upto).len() == upto,
    decreases upto,
{
    if upto > 0 {
        let m = (upto - 1) as nat;
        lemma_columns_split(q, m);
        if depends_on_earlier(q, upto - 1) {
            assert(free_columns(q, upto) == free_columns(q, m).push(upto - 1));
            assert(independent_columns(q, upto) == independent_columns(q, m));
        } else {
            assert(free_columns(q, upto) == free_columns(q, m));
            assert(independent_columns(q, upto) == independent_columns(q, m).push(upto - 1));
        }
    }
}

/// Each free column depends on the columns before it.
#[verifier::spinoff_prover]
proof fn lemma_free_depend(q: Seq<(String, crate::dimension::Dimensions)>, upto: nat)
    ensures
        forall|h: int|
            0 <= h < free_columns(q, upto).len() ==> depends_on_earlier(q, #[trigger] free_columns(q, upto)[h]),
    decreases upto,
{
    if upto > 0 {
        let m = (upto - 1) as nat;
        lemma_free_depend(q, m);
        if depends_on_earlier(q, upto - 1) {
            assert(free_columns(q, upto) == free_columns(q, m).push(upto - 1));
        } else {
            assert(free_columns(q, upto) == free_columns(q, m));
        }
    }
}

/// The number of groups is the number of quantities less the rank of the
/// dimension matrix: the columns split into free and independent ones; the
/// independent columns are linearly independent (a dimensionless product
/// with no weight at any free column has no weight at all); and each free
/// column depends on the columns before it, so the independent columns span
/// all of them.
pub proof fn law_pi_count_is_n_minus_rank(q: Seq<(String, crate::dimension::Dimensions)>)
    ensures
        free_columns(q, q.len()).len() == q.len() - independent_columns(q, q.len()).len(),
        forall|z: Seq<real>|
            #[trigger] dimensionless(q, z) && (forall|h: int|
                0 <= h < free_columns(q, q.len()).len() ==> z[free_columns(q, q.len())[h]] == 0 as real)
                ==> (forall|c: int| 0 <= c < q.len() ==> z[c] == 0 as real),
        forall|h: int|
            0 <= h < free_columns(q, q.len()).len() ==> depends_on_earlier(q, #[trigger] free_columns(q, q.len())[h]),
{
    lemma_columns_split(q, q.len());
    lemma_free_depend(q, q.len());
    assert forall|z: Seq<real>|
        #[trigger] dimensionless(q, z) && (forall|h: int|
            0 <= h < free_columns(q, q.len()).len() ==> z[free_columns(q, q.len())[h]] == 0 as real)
        implies (forall|c: int| 0 <= c < q.len() ==> z[c] == 0 as real) by {
        assert forall|h: int| 0 <= h < free_columns(q, q.len()).len() implies z[#[trigger] free_columns(
            q,
            q.len(),
        )[h]] == 0 as real by {}
        lemma_zero_off_free(q, z, 0);
    }
}

/// A product over quantities that are all dimensionless is zero, whatever
/// the weights.
#[verifier::spinoff_prover]
proof fn lemma_dot_dimensionless_row(q: Seq<(String, crate::dimension::Dimensions)>, id: Seq<char>, w: Seq<real>, n: nat)
    requires
        n <= q.len(),
        forall|c: int| 0 <= c < q.len() ==> (#[trigger] q[c]).1@ == Map::<Seq<char>, (int, int)>::empty(),
    ensures
        dot(exponent_row(q, id), w, n) == 0 as real,
    decreases n,
{
    if n > 0 {
        let m = (n - 1) as nat;
        lemma_dot_dimensionless_row(q, id, w, m);
        let row = exponent_row(q, id);
        assert(q[m as int].1@ == Map::<Seq<char>, (int, int)>::empty());
        assert(row[m as int] == (0int, 1int));
        let (x, y) = (row[m as int].0 as real, row[m as int].1 as real);
        assert(x == 0 as real && y == 1 as real);
        assert(x / y == 0 as real) by (nonlinear_arith)
            requires
                x == 0 as real,
                y == 1 as real,
        ;
        assert(val(row[m as int]) == 0 as real);
        lemma_times_zero(w[m as int], val(row[m as int]));
        assert(val(row[m as int]) * w[m as int] == w[m as int] * val(row[m as int])) by (nonlinear_arith);
    }
}

/// Where every quantity is dimensionless, each one is a group of its own:
/// the count is the number of quantities, zero for none.
pub proof fn law_pi_count_all_dimensionless(q: Seq<(String, crate::dimension::Dimensions)>)
    requires
        forall|c: int| 0 <= c < q.len() ==> (#[trigger] q[c]).1@ == Map::<Seq<char>, (int, int)>::empty(),
    ensures
        free_columns(q, q.len()).len() == q.len(),
{
    lemma_all_free(q, q.len());
}

#[verifier::spinoff_prover]
proof fn lemma_all_free(q: Seq<(String, crate::dimension::Dimensions)>, upto: nat)
    requires
        upto <= q.len(),
        forall|c: int| 0 <= c < q.len() ==> (#[trigger] q[c]).1@ == Map::<Seq<char>, (int, int)>::empty(),
    ensures
        free_columns(q, upto).len() == upto,
    decreases upto,
{
    if upto > 0 {
        let m = (upto - 1) as nat;
        lemma_all_free(q, m);
        let c = upto - 1;
        let w = Seq::new(q.len(), |i: int| if i == c { 1 as real } else { 0 as real });
        assert forall|id: Seq<char>| #[trigger] dot(exponent_row(q, id), w, q.len()) == 0 as real by {
            lemma_dot_dimensionless_row(q, id, w, q.len());
        }
        assert(dimensionless(q, w) && w[c] == 1 as real && (forall|d: int| c < d < q.len() ==> w[d] == 0 as real));
        assert(depends_on_earlier(q, c));
        assert(free_columns(q, upto) == free_columns(q, m).push(c));
    }
}

} // verus!
