//! Real matrices and vectors as mathematical objects.
//!
//! A vector is a `Seq<real>`, a square matrix a `Seq<Seq<real>>` of rows. The
//! executable types of this crate are viewed as such values, and every
//! contract on them is stated here, where sums and products neither round nor
//! overflow.

use vstd::prelude::*;

verus! {

/// The sum `f(0) + f(1) + ... + f(n - 1)`.
pub open spec fn sum(f: spec_fn(int) -> real, n: nat) -> real
    decreases n,
{
    if n == 0 {
        0 as real
    } else {
        sum(f, (n - 1) as nat) + f(n - 1)
    }
}

/// Sums of termwise equal functions are equal.
pub proof fn lemma_sum_equal(f: spec_fn(int) -> real, g: spec_fn(int) -> real, n: nat)
    requires
        forall|k: int| 0 <= k < n ==> #[trigger] f(k) == g(k),
    ensures
        sum(f, n) == sum(g, n),
    decreases n,
{
    if n > 0 {
        lemma_sum_equal(f, g, (n - 1) as nat);
    }
}

/// The sum of termwise sums is the sum of the sums.
pub proof fn lemma_sum_add(
    f: spec_fn(int) -> real,
    g: spec_fn(int) -> real,
    h: spec_fn(int) -> real,
    n: nat,
)
    requires
        forall|k: int| 0 <= k < n ==> #[trigger] h(k) == f(k) + g(k),
    ensures
        sum(h, n) == sum(f, n) + sum(g, n),
    decreases n,
{
    if n > 0 {
        lemma_sum_add(f, g, h, (n - 1) as nat);
    }
}

/// A common factor moves out of a sum.
pub proof fn lemma_sum_scale(c: real, f: spec_fn(int) -> real, h: spec_fn(int) -> real, n: nat)
    requires
        forall|k: int| 0 <= k < n ==> #[trigger] h(k) == c * f(k),
    ensures
        sum(h, n) == c * sum(f, n),
    decreases n,
{
    if n > 0 {
        lemma_sum_scale(c, f, h, (n - 1) as nat);
        let s = sum(f, (n - 1) as nat);
        let x = f(n - 1);
        assert(c * (s + x) == c * s + c * x) by (nonlinear_arith);
    } else {
        assert(c * (0 as real) == 0 as real) by (nonlinear_arith);
    }
}

/// A sum of zeros is zero.
pub proof fn lemma_sum_zero(f: spec_fn(int) -> real, n: nat)
    requires
        forall|k: int| 0 <= k < n ==> #[trigger] f(k) == 0 as real,
    ensures
        sum(f, n) == 0 as real,
    decreases n,
{
    if n > 0 {
        lemma_sum_zero(f, (n - 1) as nat);
    }
}

/// A sum with a single term that may differ from zero is that term.
pub proof fn lemma_sum_pick(f: spec_fn(int) -> real, n: nat, i: int)
    requires
        0 <= i < n,
        forall|k: int| 0 <= k < n && k != i ==> #[trigger] f(k) == 0 as real,
    ensures
        sum(f, n) == f(i),
    decreases n,
{
    if n - 1 == i {
        lemma_sum_zero(f, (n - 1) as nat);
    } else {
        lemma_sum_pick(f, (n - 1) as nat, i);
    }
}

/// The function `l -> g(k, l)`.
pub open spec fn inner_row(g: spec_fn(int, int) -> real, k: int) -> spec_fn(int) -> real {
    |l: int| g(k, l)
}

/// The function `k -> g(k, l)`.
pub open spec fn inner_column(g: spec_fn(int, int) -> real, l: int) -> spec_fn(int) -> real {
    |k: int| g(k, l)
}

/// The function `k -> g(k, 0) + ... + g(k, m - 1)`.
pub open spec fn row_sums(g: spec_fn(int, int) -> real, m: nat) -> spec_fn(int) -> real {
    |k: int| sum(inner_row(g, k), m)
}

/// The function `l -> g(0, l) + ... + g(n - 1, l)`.
pub open spec fn column_sums(g: spec_fn(int, int) -> real, n: nat) -> spec_fn(int) -> real {
    |l: int| sum(inner_column(g, l), n)
}

/// A double sum may be taken by rows or by columns.
pub proof fn lemma_sum_exchange(g: spec_fn(int, int) -> real, n: nat, m: nat)
    ensures
        sum(row_sums(g, m), n) == sum(column_sums(g, n), m),
    decreases n,
{
    if n == 0 {
        lemma_sum_zero(column_sums(g, 0), m);
    } else {
        let p = (n - 1) as nat;
        lemma_sum_exchange(g, p, m);
        assert forall|l: int| 0 <= l < m implies #[trigger] column_sums(g, n)(l) == column_sums(
            g,
            p,
        )(l) + inner_row(g, n - 1)(l) by {
            assert(inner_column(g, l)(n - 1) == g(n - 1, l));
        }
        lemma_sum_add(column_sums(g, p), inner_row(g, n - 1), column_sums(g, n), m);
    }
}

/// Whether `a` has `n` rows of `n` entries each.
pub open spec fn is_matrix(a: Seq<Seq<real>>, n: nat) -> bool {
    &&& a.len() == n
    &&& forall|i: int| 0 <= i < n ==> (#[trigger] a[i]).len() == n
}

/// Two matrices with the same entries are the same matrix.
pub proof fn lemma_matrix_equal(a: Seq<Seq<real>>, b: Seq<Seq<real>>, n: nat)
    requires
        is_matrix(a, n),
        is_matrix(b, n),
        forall|i: int, j: int| 0 <= i < n && 0 <= j < n ==> a[i][j] == b[i][j],
    ensures
        a == b,
{
    assert forall|i: int| 0 <= i < n implies a[i] == b[i] by {
        assert(a[i] =~= b[i]);
    }
    assert(a =~= b);
}

/// The identity matrix.
pub open spec fn identity(n: nat) -> Seq<Seq<real>> {
    Seq::new(
        n,
        |i: int|
            Seq::new(
                n,
                |j: int|
                    if i == j {
                        1 as real
                    } else {
                        0 as real
                    },
            ),
    )
}

/// The entrywise sum of two matrices.
pub open spec fn matrix_sum(a: Seq<Seq<real>>, b: Seq<Seq<real>>) -> Seq<Seq<real>> {
    Seq::new(a.len(), |i: int| Seq::new(a.len(), |j: int| a[i][j] + b[i][j]))
}

/// The function `k -> a[i][k] * b[k][j]`, whose sum is an entry of a product.
pub open spec fn product_term(a: Seq<Seq<real>>, b: Seq<Seq<real>>, i: int, j: int) -> spec_fn(
    int,
) -> real {
    |k: int| a[i][k] * b[k][j]
}

/// The matrix product `a * b`.
pub open spec fn matrix_product(a: Seq<Seq<real>>, b: Seq<Seq<real>>) -> Seq<Seq<real>> {
    Seq::new(
        a.len(),
        |i: int| Seq::new(a.len(), |j: int| sum(product_term(a, b, i, j), a.len())),
    )
}

/// The function `k -> a[i][k] * x[k]`, whose sum is an entry of `a * x`.
pub open spec fn apply_term(a: Seq<Seq<real>>, x: Seq<real>, i: int) -> spec_fn(int) -> real {
    |k: int| a[i][k] * x[k]
}

/// The matrix `a` applied to the vector `x`.
pub open spec fn matrix_apply(a: Seq<Seq<real>>, x: Seq<real>) -> Seq<real> {
    Seq::new(a.len(), |i: int| sum(apply_term(a, x, i), a.len()))
}

/// The entrywise sum of two vectors.
pub open spec fn vector_sum(x: Seq<real>, y: Seq<real>) -> Seq<real> {
    Seq::new(x.len(), |i: int| x[i] + y[i])
}

/// The row `alpha * m[i] + beta * m[p]`.
pub open spec fn combined_row(m: Seq<Seq<real>>, i: int, alpha: real, p: int, beta: real) -> Seq<
    real,
> {
    Seq::new(m.len(), |c: int| alpha * m[i][c] + beta * m[p][c])
}

/// The matrix `m` with row `i` replaced by `alpha * m[i] + beta * m[p]`.
pub open spec fn row_combine(m: Seq<Seq<real>>, i: int, alpha: real, p: int, beta: real) -> Seq<
    Seq<real>,
> {
    m.update(i, combined_row(m, i, alpha, p, beta))
}

/// Matrix addition is commutative.
pub proof fn lemma_sum_commutes(a: Seq<Seq<real>>, b: Seq<Seq<real>>, n: nat)
    requires
        is_matrix(a, n),
        is_matrix(b, n),
    ensures
        matrix_sum(a, b) == matrix_sum(b, a),
{
    lemma_matrix_equal(matrix_sum(a, b), matrix_sum(b, a), n);
}

/// The identity is neutral on the left.
pub proof fn lemma_identity_left(a: Seq<Seq<real>>, n: nat)
    requires
        is_matrix(a, n),
    ensures
        matrix_product(identity(n), a) == a,
{
    let e = identity(n);
    assert forall|i: int, j: int| 0 <= i < n && 0 <= j < n implies matrix_product(e, a)[i][j]
        == a[i][j] by {
        let f = product_term(e, a, i, j);
        assert forall|k: int| 0 <= k < n && k != i implies #[trigger] f(k) == 0 as real by {
            assert(e[i][k] == 0 as real);
        }
        lemma_sum_pick(f, n, i);
        assert(e[i][i] == 1 as real);
    }
    lemma_matrix_equal(matrix_product(e, a), a, n);
}

/// The identity is neutral on the right.
pub proof fn lemma_identity_right(a: Seq<Seq<real>>, n: nat)
    requires
        is_matrix(a, n),
    ensures
        matrix_product(a, identity(n)) == a,
{
    let e = identity(n);
    assert forall|i: int, j: int| 0 <= i < n && 0 <= j < n implies matrix_product(a, e)[i][j]
        == a[i][j] by {
        let f = product_term(a, e, i, j);
        assert forall|k: int| 0 <= k < n && k != j implies #[trigger] f(k) == 0 as real by {
            assert(e[k][j] == 0 as real);
        }
        lemma_sum_pick(f, n, j);
        assert(e[j][j] == 1 as real);
    }
    lemma_matrix_equal(matrix_product(a, e), a, n);
}

/// The identity leaves a vector as it is.
pub proof fn lemma_identity_apply(x: Seq<real>, n: nat)
    requires
        x.len() == n,
    ensures
        matrix_apply(identity(n), x) == x,
{
    let e = identity(n);
    assert forall|i: int| 0 <= i < n implies matrix_apply(e, x)[i] == x[i] by {
        let f = apply_term(e, x, i);
        assert forall|k: int| 0 <= k < n && k != i implies #[trigger] f(k) == 0 as real by {
            assert(e[i][k] == 0 as real);
        }
        lemma_sum_pick(f, n, i);
        assert(e[i][i] == 1 as real);
    }
    assert(matrix_apply(e, x) =~= x);
}

/// A product distributes over a sum on its left.
pub proof fn lemma_product_distributes_right(
    a: Seq<Seq<real>>,
    b: Seq<Seq<real>>,
    c: Seq<Seq<real>>,
    n: nat,
)
    requires
        is_matrix(a, n),
        is_matrix(b, n),
        is_matrix(c, n),
    ensures
        matrix_product(matrix_sum(a, b), c) == matrix_sum(
            matrix_product(a, c),
            matrix_product(b, c),
        ),
{
    let s = matrix_sum(a, b);
    let l = matrix_product(s, c);
    let r = matrix_sum(matrix_product(a, c), matrix_product(b, c));
    assert forall|i: int, j: int| 0 <= i < n && 0 <= j < n implies l[i][j] == r[i][j] by {
        let f = product_term(a, c, i, j);
        let g = product_term(b, c, i, j);
        let h = product_term(s, c, i, j);
        assert forall|k: int| 0 <= k < n implies #[trigger] h(k) == f(k) + g(k) by {
            let x = a[i][k];
            let y = b[i][k];
            let z = c[k][j];
            assert((x + y) * z == x * z + y * z) by (nonlinear_arith);
        }
        lemma_sum_add(f, g, h, n);
    }
    lemma_matrix_equal(l, r, n);
}

/// A product distributes over a sum on its right.
pub proof fn lemma_product_distributes_left(
    c: Seq<Seq<real>>,
    a: Seq<Seq<real>>,
    b: Seq<Seq<real>>,
    n: nat,
)
    requires
        is_matrix(a, n),
        is_matrix(b, n),
        is_matrix(c, n),
    ensures
        matrix_product(c, matrix_sum(a, b)) == matrix_sum(
            matrix_product(c, a),
            matrix_product(c, b),
        ),
{
    let s = matrix_sum(a, b);
    let l = matrix_product(c, s);
    let r = matrix_sum(matrix_product(c, a), matrix_product(c, b));
    assert forall|i: int, j: int| 0 <= i < n && 0 <= j < n implies l[i][j] == r[i][j] by {
        let f = product_term(c, a, i, j);
        let g = product_term(c, b, i, j);
        let h = product_term(c, s, i, j);
        assert forall|k: int| 0 <= k < n implies #[trigger] h(k) == f(k) + g(k) by {
            let x = a[k][j];
            let y = b[k][j];
            let z = c[i][k];
            assert(z * (x + y) == z * x + z * y) by (nonlinear_arith);
        }
        lemma_sum_add(f, g, h, n);
    }
    lemma_matrix_equal(l, r, n);
}

/// One entry of both sides of the law of associativity.
proof fn lemma_product_associative_entry(
    a: Seq<Seq<real>>,
    b: Seq<Seq<real>>,
    c: Seq<Seq<real>>,
    n: nat,
    i: int,
    j: int,
)
    requires
        is_matrix(a, n),
        is_matrix(b, n),
        is_matrix(c, n),
        0 <= i < n,
        0 <= j < n,
    ensures
        sum(product_term(matrix_product(a, b), c, i, j), n) == sum(
            product_term(a, matrix_product(b, c), i, j),
            n,
        ),
{
    let ab = matrix_product(a, b);
    let bc = matrix_product(b, c);
    let g = |k: int, l: int| a[i][l] * b[l][k] * c[k][j];
    assert forall|k: int| 0 <= k < n implies #[trigger] product_term(ab, c, i, j)(k) == row_sums(
        g,
        n,
    )(k) by {
        let z = c[k][j];
        assert forall|l: int| 0 <= l < n implies #[trigger] inner_row(g, k)(l) == z * product_term(
            a,
            b,
            i,
            k,
        )(l) by {
            let x = a[i][l];
            let y = b[l][k];
            assert(x * y * z == z * (x * y)) by (nonlinear_arith);
        }
        lemma_sum_scale(z, product_term(a, b, i, k), inner_row(g, k), n);
        let w = ab[i][k];
        assert(w * z == z * w) by (nonlinear_arith);
    }
    lemma_sum_equal(product_term(ab, c, i, j), row_sums(g, n), n);
    lemma_sum_exchange(g, n, n);
    assert forall|l: int| 0 <= l < n implies #[trigger] product_term(a, bc, i, j)(l)
        == column_sums(g, n)(l) by {
        let x = a[i][l];
        assert forall|k: int| 0 <= k < n implies #[trigger] inner_column(g, l)(k) == x
            * product_term(b, c, l, j)(k) by {
            let y = b[l][k];
            let z = c[k][j];
            assert(x * y * z == x * (y * z)) by (nonlinear_arith);
        }
        lemma_sum_scale(x, product_term(b, c, l, j), inner_column(g, l), n);
    }
    lemma_sum_equal(product_term(a, bc, i, j), column_sums(g, n), n);
}

/// Matrix multiplication is associative.
pub proof fn lemma_product_associative(
    a: Seq<Seq<real>>,
    b: Seq<Seq<real>>,
    c: Seq<Seq<real>>,
    n: nat,
)
    requires
        is_matrix(a, n),
        is_matrix(b, n),
        is_matrix(c, n),
    ensures
        matrix_product(matrix_product(a, b), c) == matrix_product(a, matrix_product(b, c)),
{
    let l = matrix_product(matrix_product(a, b), c);
    let r = matrix_product(a, matrix_product(b, c));
    assert forall|i: int, j: int| 0 <= i < n && 0 <= j < n implies l[i][j] == r[i][j] by {
        lemma_product_associative_entry(a, b, c, n, i, j);
    }
    lemma_matrix_equal(l, r, n);
}

/// Applying a product is applying its factors in turn.
pub proof fn lemma_apply_product(a: Seq<Seq<real>>, b: Seq<Seq<real>>, x: Seq<real>, n: nat)
    requires
        is_matrix(a, n),
        is_matrix(b, n),
        x.len() == n,
    ensures
        matrix_apply(matrix_product(a, b), x) == matrix_apply(a, matrix_apply(b, x)),
{
    let ab = matrix_product(a, b);
    let bx = matrix_apply(b, x);
    assert forall|i: int| 0 <= i < n implies matrix_apply(ab, x)[i] == matrix_apply(a, bx)[i] by {
        let g = |l: int, k: int| a[i][k] * b[k][l] * x[l];
        assert forall|l: int| 0 <= l < n implies #[trigger] apply_term(ab, x, i)(l) == row_sums(
            g,
            n,
        )(l) by {
            let z = x[l];
            assert forall|k: int| 0 <= k < n implies #[trigger] inner_row(g, l)(k) == z
                * product_term(a, b, i, l)(k) by {
                let u = a[i][k];
                let v = b[k][l];
                assert(u * v * z == z * (u * v)) by (nonlinear_arith);
            }
            lemma_sum_scale(z, product_term(a, b, i, l), inner_row(g, l), n);
            let w = ab[i][l];
            assert(w * z == z * w) by (nonlinear_arith);
        }
        lemma_sum_equal(apply_term(ab, x, i), row_sums(g, n), n);
        lemma_sum_exchange(g, n, n);
        assert forall|k: int| 0 <= k < n implies #[trigger] apply_term(a, bx, i)(k)
            == column_sums(g, n)(k) by {
            let u = a[i][k];
            assert forall|l: int| 0 <= l < n implies #[trigger] inner_column(g, k)(l) == u
                * apply_term(b, x, k)(l) by {
                let v = b[k][l];
                let z = x[l];
                assert(u * v * z == u * (v * z)) by (nonlinear_arith);
            }
            lemma_sum_scale(u, apply_term(b, x, k), inner_column(g, k), n);
        }
        lemma_sum_equal(apply_term(a, bx, i), column_sums(g, n), n);
    }
    assert(matrix_apply(ab, x) =~= matrix_apply(a, bx));
}

/// The entrywise difference of two matrices.
pub open spec fn matrix_difference(a: Seq<Seq<real>>, b: Seq<Seq<real>>) -> Seq<Seq<real>> {
    Seq::new(a.len(), |i: int| Seq::new(a.len(), |j: int| a[i][j] - b[i][j]))
}

/// The function `k -> x[k] * y[k]`, whose sum is the inner product.
pub open spec fn dot_term(x: Seq<real>, y: Seq<real>) -> spec_fn(int) -> real {
    |k: int| x[k] * y[k]
}

/// The inner product of two vectors.
pub open spec fn dot(x: Seq<real>, y: Seq<real>) -> real {
    sum(dot_term(x, y), x.len())
}

/// The quadratic form `x * a * x`.
pub open spec fn quadratic_form(a: Seq<Seq<real>>, x: Seq<real>) -> real {
    dot(x, matrix_apply(a, x))
}

/// Whether `a` equals its transpose.
pub open spec fn symmetric(a: Seq<Seq<real>>, n: nat) -> bool {
    forall|i: int, j: int| 0 <= i < n && 0 <= j < n ==> a[i][j] == a[j][i]
}

/// Whether the quadratic form of `a` is negative nowhere.
pub open spec fn positive_semidefinite(a: Seq<Seq<real>>, n: nat) -> bool {
    forall|x: Seq<real>| x.len() == n ==> #[trigger] quadratic_form(a, x) >= 0 as real
}

/// The vector of `n` zeros.
pub open spec fn zero_vector(n: nat) -> Seq<real> {
    Seq::new(n, |j: int| 0 as real)
}

/// Whether the quadratic form of `a` is positive everywhere but at zero.
pub open spec fn positive_definite(a: Seq<Seq<real>>, n: nat) -> bool {
    forall|x: Seq<real>|
        x.len() == n && x != zero_vector(n) ==> #[trigger] quadratic_form(a, x) > 0 as real
}

/// Whether `a` is at most `b` in the Loewner order: `b - a` is positive
/// semi-definite.
pub open spec fn loewner_le(a: Seq<Seq<real>>, b: Seq<Seq<real>>, n: nat) -> bool {
    positive_semidefinite(matrix_difference(b, a), n)
}

/// The inner product is commutative.
pub proof fn lemma_dot_commutes(x: Seq<real>, y: Seq<real>)
    requires
        x.len() == y.len(),
    ensures
        dot(x, y) == dot(y, x),
{
    let n = x.len();
    assert forall|k: int| 0 <= k < n implies #[trigger] dot_term(x, y)(k) == dot_term(y, x)(k) by {
        let u = x[k];
        let v = y[k];
        assert(u * v == v * u) by (nonlinear_arith);
    }
    lemma_sum_equal(dot_term(x, y), dot_term(y, x), n);
}

/// A symmetric matrix moves from one side of an inner product to the other.
pub proof fn lemma_symmetric_moves(a: Seq<Seq<real>>, z: Seq<real>, w: Seq<real>, n: nat)
    requires
        is_matrix(a, n),
        symmetric(a, n),
        z.len() == n,
        w.len() == n,
    ensures
        dot(z, matrix_apply(a, w)) == dot(matrix_apply(a, z), w),
{
    let aw = matrix_apply(a, w);
    let az = matrix_apply(a, z);
    let g = |i: int, k: int| z[i] * a[i][k] * w[k];
    assert forall|i: int| 0 <= i < n implies #[trigger] dot_term(z, aw)(i) == row_sums(g, n)(i) by {
        let u = z[i];
        assert forall|k: int| 0 <= k < n implies #[trigger] inner_row(g, i)(k) == u * apply_term(
            a,
            w,
            i,
        )(k) by {
            let v = a[i][k];
            let t = w[k];
            assert(u * v * t == u * (v * t)) by (nonlinear_arith);
        }
        lemma_sum_scale(u, apply_term(a, w, i), inner_row(g, i), n);
    }
    lemma_sum_equal(dot_term(z, aw), row_sums(g, n), n);
    lemma_sum_exchange(g, n, n);
    assert forall|k: int| 0 <= k < n implies #[trigger] dot_term(az, w)(k) == column_sums(g, n)(
        k,
    ) by {
        let t = w[k];
        assert forall|i: int| 0 <= i < n implies #[trigger] inner_column(g, k)(i) == t
            * apply_term(a, z, k)(i) by {
            let u = z[i];
            let v = a[i][k];
            assert(a[k][i] == v);
            assert(u * v * t == t * (v * u)) by (nonlinear_arith);
        }
        lemma_sum_scale(t, apply_term(a, z, k), inner_column(g, k), n);
        let q = az[k];
        assert(q * t == t * q) by (nonlinear_arith);
    }
    lemma_sum_equal(dot_term(az, w), column_sums(g, n), n);
}

/// The quadratic form of a sum is the sum of the quadratic forms.
pub proof fn lemma_quadratic_form_of_sum(
    a: Seq<Seq<real>>,
    b: Seq<Seq<real>>,
    x: Seq<real>,
    n: nat,
)
    requires
        is_matrix(a, n),
        is_matrix(b, n),
        x.len() == n,
    ensures
        quadratic_form(matrix_sum(a, b), x) == quadratic_form(a, x) + quadratic_form(b, x),
{
    let s = matrix_sum(a, b);
    let ax = matrix_apply(a, x);
    let bx = matrix_apply(b, x);
    let sx = matrix_apply(s, x);
    assert forall|i: int| 0 <= i < n implies #[trigger] dot_term(x, sx)(i) == dot_term(x, ax)(i)
        + dot_term(x, bx)(i) by {
        assert forall|k: int| 0 <= k < n implies #[trigger] apply_term(s, x, i)(k) == apply_term(
            a,
            x,
            i,
        )(k) + apply_term(b, x, i)(k) by {
            let u = a[i][k];
            let v = b[i][k];
            let t = x[k];
            assert((u + v) * t == u * t + v * t) by (nonlinear_arith);
        }
        lemma_sum_add(apply_term(a, x, i), apply_term(b, x, i), apply_term(s, x, i), n);
        let u = ax[i];
        let v = bx[i];
        let t = x[i];
        assert(t * (u + v) == t * u + t * v) by (nonlinear_arith);
    }
    lemma_sum_add(dot_term(x, ax), dot_term(x, bx), dot_term(x, sx), n);
}

/// Every matrix sends the zero vector to itself.
pub proof fn lemma_apply_zero(a: Seq<Seq<real>>, n: nat)
    requires
        is_matrix(a, n),
    ensures
        matrix_apply(a, zero_vector(n)) == zero_vector(n),
{
    let z = zero_vector(n);
    assert forall|i: int| 0 <= i < n implies matrix_apply(a, z)[i] == 0 as real by {
        let f = apply_term(a, z, i);
        assert forall|k: int| 0 <= k < n implies #[trigger] f(k) == 0 as real by {
            let x = a[i][k];
            assert(x * (0 as real) == 0 as real) by (nonlinear_arith);
        }
        lemma_sum_zero(f, n);
    }
    assert(matrix_apply(a, z) =~= z);
}

/// The inner product with the zero vector is zero.
pub proof fn lemma_dot_zero(x: Seq<real>, n: nat)
    requires
        x.len() == n,
    ensures
        dot(x, zero_vector(n)) == 0 as real,
{
    let z = zero_vector(n);
    assert forall|k: int| 0 <= k < n implies #[trigger] dot_term(x, z)(k) == 0 as real by {
        let u = x[k];
        assert(u * (0 as real) == 0 as real) by (nonlinear_arith);
    }
    lemma_sum_zero(dot_term(x, z), n);
}

/// A positive definite matrix is positive semi-definite.
pub proof fn lemma_positive_definite_is_semidefinite(a: Seq<Seq<real>>, n: nat)
    requires
        is_matrix(a, n),
        positive_definite(a, n),
    ensures
        positive_semidefinite(a, n),
{
    assert forall|x: Seq<real>| x.len() == n implies #[trigger] quadratic_form(a, x)
        >= 0 as real by {
        if x == zero_vector(n) {
            lemma_apply_zero(a, n);
            lemma_dot_zero(x, n);
        }
    }
}

/// The sum of a positive definite and a positive semi-definite matrix is
/// positive definite.
pub proof fn lemma_positive_definite_sum(a: Seq<Seq<real>>, b: Seq<Seq<real>>, n: nat)
    requires
        is_matrix(a, n),
        is_matrix(b, n),
        positive_definite(a, n),
        positive_semidefinite(b, n),
    ensures
        positive_definite(matrix_sum(a, b), n),
{
    assert forall|x: Seq<real>| x.len() == n && x != zero_vector(n) implies #[trigger] quadratic_form(
        matrix_sum(a, b),
        x,
    ) > 0 as real by {
        lemma_quadratic_form_of_sum(a, b, x, n);
        assert(quadratic_form(a, x) > 0 as real);
        assert(quadratic_form(b, x) >= 0 as real);
    }
}

} // verus!
