//! Matrix inversion by Gauss-Jordan elimination.
//!
//! Elimination works on a pair of matrices `(a, b)` that starts as
//! `(s, identity)` and is changed by row operations only, each applied to both.
//! Every row operation is a product with an invertible matrix from the left,
//! so `b * s == a` holds throughout, and `b` stays invertible. When `a` has
//! become the identity, `b` is the inverse of `s`. When a column offers no
//! pivot, a vector other than zero is sent to zero by `s`, which then has no
//! inverse.
//!
//! The same elimination, carried out on real numbers, shows that every matrix
//! that sends no vector but zero to zero has an inverse; positive definite
//! matrices are of that kind.

use crate::algebra::{
    apply_term, identity, is_matrix, lemma_apply_product, lemma_apply_zero, lemma_dot_zero,
    lemma_identity_apply, lemma_identity_left, lemma_identity_right, lemma_matrix_equal,
    lemma_positive_definite_sum, lemma_product_associative, lemma_sum_add, lemma_sum_pick,
    lemma_sum_zero, matrix_apply, matrix_product, matrix_sum, positive_definite,
    positive_semidefinite, product_term, quadratic_form, row_combine, zero_vector,
};
use crate::checked::{checked_row_combine, diagonal_fractions};
use crate::error::FilterError;
use crate::matrix::{SimpleSquareMatrix, SimpleVector};
use crate::ratio::Ratio;
use vstd::prelude::*;

verus! {

/// Whether `t` is the inverse of `s`, from both sides.
pub open spec fn is_inverse(t: Seq<Seq<real>>, s: Seq<Seq<real>>, n: nat) -> bool {
    &&& is_matrix(t, n)
    &&& is_matrix(s, n)
    &&& matrix_product(s, t) == identity(n)
    &&& matrix_product(t, s) == identity(n)
}

/// Whether the `n` by `n` matrix `s` has an inverse.
pub open spec fn invertible(s: Seq<Seq<real>>, n: nat) -> bool {
    exists|t: Seq<Seq<real>>| is_inverse(t, s, n)
}

/// The inverse of `s`, where it has one.
pub open spec fn inverse(s: Seq<Seq<real>>, n: nat) -> Seq<Seq<real>> {
    choose|t: Seq<Seq<real>>| is_inverse(t, s, n)
}

/// A matrix has at most one inverse.
pub proof fn lemma_inverse_unique(s: Seq<Seq<real>>, t: Seq<Seq<real>>, u: Seq<Seq<real>>, n: nat)
    requires
        is_inverse(t, s, n),
        is_inverse(u, s, n),
    ensures
        t == u,
{
    lemma_product_associative(t, s, u, n);
    lemma_identity_left(u, n);
    lemma_identity_right(t, n);
}

/// The identity with row `i` replaced by `alpha * row i + beta * row p`.
pub open spec fn elementary(n: nat, i: int, alpha: real, p: int, beta: real) -> Seq<Seq<real>> {
    row_combine(identity(n), i, alpha, p, beta)
}

/// A row operation is a product with an elementary matrix from the left.
pub proof fn lemma_row_combine_is_product(
    m: Seq<Seq<real>>,
    n: nat,
    i: int,
    alpha: real,
    p: int,
    beta: real,
)
    requires
        is_matrix(m, n),
        0 <= i < n,
        0 <= p < n,
    ensures
        matrix_product(elementary(n, i, alpha, p, beta), m) == row_combine(m, i, alpha, p, beta),
{
    let e = elementary(n, i, alpha, p, beta);
    let t = row_combine(m, i, alpha, p, beta);
    let id = identity(n);
    assert forall|r: int, c: int| 0 <= r < n && 0 <= c < n implies matrix_product(e, m)[r][c]
        == t[r][c] by {
        let f = product_term(e, m, r, c);
        if r != i {
            assert forall|k: int| 0 <= k < n && k != r implies #[trigger] f(k) == 0 as real by {
                assert(e[r][k] == 0 as real);
            }
            lemma_sum_pick(f, n, r);
            assert(e[r][r] == 1 as real);
        } else {
            let x = m[i][c];
            let y = m[p][c];
            let f1 = |k: int|
                if k == i {
                    alpha * x
                } else {
                    0 as real
                };
            let f2 = |k: int|
                if k == p {
                    beta * y
                } else {
                    0 as real
                };
            assert forall|k: int| 0 <= k < n implies #[trigger] f(k) == f1(k) + f2(k) by {
                let di = id[i][k];
                let dp = id[p][k];
                let z = m[k][c];
                assert(e[i][k] == alpha * di + beta * dp);
                assert((alpha * di + beta * dp) * z == (if di == 1 as real {
                    alpha * z
                } else {
                    0 as real
                }) + (if dp == 1 as real {
                    beta * z
                } else {
                    0 as real
                })) by (nonlinear_arith)
                    requires
                        di == 0 as real || di == 1 as real,
                        dp == 0 as real || dp == 1 as real,
                ;
            }
            lemma_sum_add(f1, f2, f, n);
            lemma_sum_pick(f1, n, i);
            lemma_sum_pick(f2, n, p);
        }
    }
    lemma_matrix_equal(matrix_product(e, m), t, n);
}

/// A row operation with `alpha` other than zero is undone by another one.
pub proof fn lemma_elementary_undone(
    n: nat,
    i: int,
    alpha: real,
    p: int,
    beta: real,
    alpha_back: real,
    beta_back: real,
)
    requires
        0 <= i < n,
        0 <= p < n,
        p != i || beta == 0 as real,
        alpha * alpha_back == 1 as real,
        beta_back == -(beta * alpha_back),
    ensures
        matrix_product(
            elementary(n, i, alpha_back, p, beta_back),
            elementary(n, i, alpha, p, beta),
        ) == identity(n),
{
    let e = elementary(n, i, alpha, p, beta);
    let id = identity(n);
    lemma_row_combine_is_product(e, n, i, alpha_back, p, beta_back);
    let t = row_combine(e, i, alpha_back, p, beta_back);
    assert forall|r: int, c: int| 0 <= r < n && 0 <= c < n implies t[r][c] == id[r][c] by {
        if r == i {
            let x = id[i][c];
            let y = id[p][c];
            assert(e[i][c] == alpha * x + beta * y);
            if p != i {
                assert(e[p][c] == y);
                assert(alpha_back * (alpha * x + beta * y) + beta_back * y == x)
                    by (nonlinear_arith)
                    requires
                        alpha * alpha_back == 1 as real,
                        beta_back == -(beta * alpha_back),
                ;
            } else {
                assert(alpha_back * (alpha * x + beta * x) + beta_back * (alpha * x + beta * x)
                    == x) by (nonlinear_arith)
                    requires
                        alpha * alpha_back == 1 as real,
                        beta_back == -(beta * alpha_back),
                        beta == 0 as real,
                ;
            }
        }
    }
    lemma_matrix_equal(t, id, n);
}

/// The state of an elimination on `s`: `a` is `b * s`, and `d` is the
/// inverse of `b`.
pub open spec fn reduction(
    s: Seq<Seq<real>>,
    a: Seq<Seq<real>>,
    b: Seq<Seq<real>>,
    d: Seq<Seq<real>>,
    n: nat,
) -> bool {
    &&& is_matrix(s, n)
    &&& is_matrix(a, n)
    &&& is_matrix(b, n)
    &&& is_matrix(d, n)
    &&& matrix_product(b, s) == a
    &&& matrix_product(d, b) == identity(n)
    &&& matrix_product(b, d) == identity(n)
}

/// Whether `a` and `b` are what some row operations make of `s` and the
/// identity.
pub open spec fn reducing(s: Seq<Seq<real>>, a: Seq<Seq<real>>, b: Seq<Seq<real>>, n: nat) -> bool {
    exists|d: Seq<Seq<real>>| reduction(s, a, b, d, n)
}

/// Whether the first `k` columns of `a` are those of the identity.
pub open spec fn reduced_columns(a: Seq<Seq<real>>, n: nat, k: int) -> bool {
    forall|r: int, c: int|
        0 <= r < n && 0 <= c < k ==> #[trigger] a[r][c] == if r == c {
            1 as real
        } else {
            0 as real
        }
}

/// An elimination starts from the matrix itself and the identity.
pub proof fn lemma_reducing_start(s: Seq<Seq<real>>, n: nat)
    requires
        is_matrix(s, n),
    ensures
        reducing(s, s, identity(n), n),
{
    lemma_identity_left(s, n);
    lemma_identity_left(identity(n), n);
    assert(reduction(s, s, identity(n), identity(n), n));
}

/// One row operation, applied to both matrices, continues an elimination.
pub proof fn lemma_reducing_step(
    s: Seq<Seq<real>>,
    a: Seq<Seq<real>>,
    b: Seq<Seq<real>>,
    n: nat,
    i: int,
    alpha: real,
    p: int,
    beta: real,
)
    requires
        reducing(s, a, b, n),
        0 <= i < n,
        0 <= p < n,
        alpha != 0 as real,
        p != i || beta == 0 as real,
    ensures
        reducing(s, row_combine(a, i, alpha, p, beta), row_combine(b, i, alpha, p, beta), n),
{
    let d = choose|d: Seq<Seq<real>>| reduction(s, a, b, d, n);
    let alpha_back = (1 as real) / alpha;
    let beta_back = -(beta * alpha_back);
    assert(alpha * alpha_back == 1 as real && alpha_back * alpha == 1 as real) by (nonlinear_arith)
        requires
            alpha != 0 as real,
            alpha_back == (1 as real) / alpha,
    ;
    assert(beta == -(beta_back * alpha)) by (nonlinear_arith)
        requires
            alpha_back * alpha == 1 as real,
            beta_back == -(beta * alpha_back),
    ;
    let e = elementary(n, i, alpha, p, beta);
    let f = elementary(n, i, alpha_back, p, beta_back);
    let id = identity(n);
    lemma_elementary_undone(n, i, alpha, p, beta, alpha_back, beta_back);
    lemma_elementary_undone(n, i, alpha_back, p, beta_back, alpha, beta);
    lemma_row_combine_is_product(a, n, i, alpha, p, beta);
    lemma_row_combine_is_product(b, n, i, alpha, p, beta);
    let a2 = matrix_product(e, a);
    let b2 = matrix_product(e, b);
    let d2 = matrix_product(d, f);
    // b2 * s == a2
    lemma_product_associative(e, b, s, n);
    // d2 * b2 == d * (f * (e * b)) == d * b
    lemma_product_associative(d, f, b2, n);
    lemma_product_associative(f, e, b, n);
    lemma_identity_left(b, n);
    // b2 * d2 == e * (b * (d * f)) == e * f
    lemma_product_associative(e, b, d2, n);
    lemma_product_associative(b, d, f, n);
    lemma_identity_left(f, n);
    assert(reduction(s, a2, b2, d2, n));
}

/// When `a` has become the identity, `b` is the inverse.
pub proof fn lemma_reducing_done(s: Seq<Seq<real>>, a: Seq<Seq<real>>, b: Seq<Seq<real>>, n: nat)
    requires
        reducing(s, a, b, n),
        reduced_columns(a, n, n as int),
    ensures
        is_inverse(b, s, n),
{
    let d = choose|d: Seq<Seq<real>>| reduction(s, a, b, d, n);
    lemma_matrix_equal(a, identity(n), n);
    // d == d * (b * s) == (d * b) * s == s
    lemma_identity_right(d, n);
    lemma_product_associative(d, b, s, n);
    lemma_identity_left(s, n);
}

/// The vector that a matrix without a pivot in column `k` sends to zero.
pub open spec fn kernel_vector(a: Seq<Seq<real>>, n: nat, k: int) -> Seq<real> {
    Seq::new(
        n,
        |j: int|
            if j < k {
                a[j][k]
            } else if j == k {
                -(1 as real)
            } else {
                0 as real
            },
    )
}

/// A matrix whose first `k` columns are reduced and whose column `k` is zero
/// from row `k` on sends its kernel vector to zero.
pub proof fn lemma_kernel_vector(a: Seq<Seq<real>>, n: nat, k: int)
    requires
        is_matrix(a, n),
        0 <= k < n,
        reduced_columns(a, n, k),
        forall|r: int| k <= r < n ==> (#[trigger] a[r])[k] == 0 as real,
    ensures
        matrix_apply(a, kernel_vector(a, n, k)) == zero_vector(n),
{
    let v = kernel_vector(a, n, k);
    assert forall|r: int| 0 <= r < n implies matrix_apply(a, v)[r] == 0 as real by {
        let f = apply_term(a, v, r);
        let x = a[r][k];
        if r < k {
            let f1 = |j: int|
                if j == r {
                    x
                } else {
                    0 as real
                };
            let f2 = |j: int|
                if j == k {
                    -x
                } else {
                    0 as real
                };
            assert forall|j: int| 0 <= j < n implies #[trigger] f(j) == f1(j) + f2(j) by {
                let u = a[r][j];
                let w = v[j];
                if j < k {
                    assert(u == if r == j {
                        1 as real
                    } else {
                        0 as real
                    });
                    assert(u * w == if r == j {
                        w
                    } else {
                        0 as real
                    }) by (nonlinear_arith)
                        requires
                            u == if r == j {
                                1 as real
                            } else {
                                0 as real
                            },
                    ;
                } else if j == k {
                    assert(u * w == -u) by (nonlinear_arith)
                        requires
                            w == -(1 as real),
                    ;
                } else {
                    assert(u * w == 0 as real) by (nonlinear_arith)
                        requires
                            w == 0 as real,
                    ;
                }
            }
            lemma_sum_add(f1, f2, f, n);
            lemma_sum_pick(f1, n, r);
            lemma_sum_pick(f2, n, k);
        } else {
            assert(a[r][k] == 0 as real);
            assert forall|j: int| 0 <= j < n implies #[trigger] f(j) == 0 as real by {
                let u = a[r][j];
                let w = v[j];
                if j < k {
                    assert(u == 0 as real);
                    assert(u * w == 0 as real) by (nonlinear_arith)
                        requires
                            u == 0 as real,
                    ;
                } else if j == k {
                    assert(u * w == 0 as real) by (nonlinear_arith)
                        requires
                            u == 0 as real,
                    ;
                } else {
                    assert(u * w == 0 as real) by (nonlinear_arith)
                        requires
                            w == 0 as real,
                    ;
                }
            }
            lemma_sum_zero(f, n);
        }
    }
    assert(matrix_apply(a, v) =~= zero_vector(n));
}

/// When column `k` offers no pivot, the matrix sends the kernel vector of
/// the reduced matrix to zero.
pub proof fn lemma_stuck_kernel(
    s: Seq<Seq<real>>,
    a: Seq<Seq<real>>,
    b: Seq<Seq<real>>,
    n: nat,
    k: int,
)
    requires
        reducing(s, a, b, n),
        0 <= k < n,
        reduced_columns(a, n, k),
        forall|r: int| k <= r < n ==> (#[trigger] a[r])[k] == 0 as real,
    ensures
        matrix_apply(s, kernel_vector(a, n, k)) == zero_vector(n),
{
    let d = choose|d: Seq<Seq<real>>| reduction(s, a, b, d, n);
    let v = kernel_vector(a, n, k);
    lemma_kernel_vector(a, n, k);
    // d * a == s
    lemma_product_associative(d, b, s, n);
    lemma_identity_left(s, n);
    // s * v == d * (a * v) == 0
    lemma_apply_product(d, a, v, n);
    lemma_apply_zero(d, n);
}

/// Whether `s` sends no vector but zero to zero.
pub open spec fn injective(s: Seq<Seq<real>>, n: nat) -> bool {
    forall|v: Seq<real>|
        v.len() == n && #[trigger] matrix_apply(s, v) == zero_vector(n) ==> v == zero_vector(n)
}

/// A matrix with an inverse sends no vector but zero to zero.
pub proof fn lemma_invertible_injective(s: Seq<Seq<real>>, n: nat)
    requires
        invertible(s, n),
    ensures
        injective(s, n),
{
    let t = inverse(s, n);
    assert forall|v: Seq<real>| v.len() == n && #[trigger] matrix_apply(s, v) == zero_vector(
        n,
    ) implies v == zero_vector(n) by {
        lemma_apply_product(t, s, v, n);
        lemma_identity_apply(v, n);
        lemma_apply_zero(t, n);
    }
}

/// When column `k` offers no pivot, the matrix has no inverse.
pub proof fn lemma_reducing_stuck(
    s: Seq<Seq<real>>,
    a: Seq<Seq<real>>,
    b: Seq<Seq<real>>,
    n: nat,
    k: int,
)
    requires
        reducing(s, a, b, n),
        0 <= k < n,
        reduced_columns(a, n, k),
        forall|r: int| k <= r < n ==> (#[trigger] a[r])[k] == 0 as real,
    ensures
        !invertible(s, n),
{
    let v = kernel_vector(a, n, k);
    lemma_stuck_kernel(s, a, b, n, k);
    if invertible(s, n) {
        lemma_invertible_injective(s, n);
        assert(v == zero_vector(n));
        assert(v[k] == -(1 as real));
        assert(zero_vector(n)[k] == 0 as real);
    }
}

/// Adding a row with a pivot to row `k` gives row `k` a pivot and keeps the
/// reduced columns.
pub proof fn lemma_pivot_added(a: Seq<Seq<real>>, n: nat, k: int, q: int, one: real)
    requires
        is_matrix(a, n),
        0 <= k < q < n,
        reduced_columns(a, n, k),
        a[k][k] == 0 as real,
        a[q][k] != 0 as real,
        one == 1 as real,
    ensures
        reduced_columns(row_combine(a, k, one, q, one), n, k),
        row_combine(a, k, one, q, one)[k][k] != 0 as real,
{
    let t = row_combine(a, k, one, q, one);
    assert forall|c: int| 0 <= c < n implies #[trigger] t[k][c] == a[k][c] + a[q][c] by {
        let x = a[k][c];
        let y = a[q][c];
        assert(one * x + one * y == x + y) by (nonlinear_arith)
            requires
                one == 1 as real,
        ;
    }
    assert forall|r: int, c: int| 0 <= r < n && 0 <= c < k implies #[trigger] t[r][c] == if r
        == c {
        1 as real
    } else {
        0 as real
    } by {
        if r == k {
            assert(t[k][c] == a[k][c] + a[q][c]);
        }
    }
}

/// Dividing row `k` by its pivot makes the pivot one and keeps the reduced
/// columns.
pub proof fn lemma_pivot_scaled(a: Seq<Seq<real>>, n: nat, k: int, alpha: real, zero: real)
    requires
        is_matrix(a, n),
        0 <= k < n,
        reduced_columns(a, n, k),
        alpha * a[k][k] == 1 as real,
        zero == 0 as real,
    ensures
        reduced_columns(row_combine(a, k, alpha, k, zero), n, k),
        row_combine(a, k, alpha, k, zero)[k][k] == 1 as real,
{
    let t = row_combine(a, k, alpha, k, zero);
    assert forall|c: int| 0 <= c < n implies #[trigger] t[k][c] == alpha * a[k][c] by {
        let x = a[k][c];
        assert(alpha * x + zero * x == alpha * x) by (nonlinear_arith)
            requires
                zero == 0 as real,
        ;
    }
    assert forall|r: int, c: int| 0 <= r < n && 0 <= c < k implies #[trigger] t[r][c] == if r
        == c {
        1 as real
    } else {
        0 as real
    } by {
        if r == k {
            let x = a[k][c];
            assert(t[k][c] == alpha * x);
            assert(alpha * x == 0 as real) by (nonlinear_arith)
                requires
                    x == 0 as real,
            ;
        }
    }
    assert(t[k][k] == alpha * a[k][k]);
}

/// Subtracting the right multiple of the pivot row clears column `k` in row
/// `r` and changes nothing else in the first `k + 1` columns.
pub proof fn lemma_row_cleared(a: Seq<Seq<real>>, n: nat, r: int, k: int, one: real, beta: real)
    requires
        is_matrix(a, n),
        0 <= k < n,
        0 <= r < n,
        r != k,
        reduced_columns(a, n, k),
        a[k][k] == 1 as real,
        one == 1 as real,
        beta == -a[r][k],
    ensures
        reduced_columns(row_combine(a, r, one, k, beta), n, k),
        row_combine(a, r, one, k, beta)[r][k] == 0 as real,
        forall|w: int|
            0 <= w < n && w != r ==> #[trigger] row_combine(a, r, one, k, beta)[w] == a[w],
{
    let t = row_combine(a, r, one, k, beta);
    assert forall|c: int| 0 <= c < n implies #[trigger] t[r][c] == a[r][c] + beta * a[k][c] by {
        let x = a[r][c];
        let y = a[k][c];
        assert(one * x + beta * y == x + beta * y) by (nonlinear_arith)
            requires
                one == 1 as real,
        ;
    }
    assert forall|w: int, c: int| 0 <= w < n && 0 <= c < k implies #[trigger] t[w][c] == if w
        == c {
        1 as real
    } else {
        0 as real
    } by {
        if w == r {
            let y = a[k][c];
            assert(t[r][c] == a[r][c] + beta * y);
            assert(beta * y == 0 as real) by (nonlinear_arith)
                requires
                    y == 0 as real,
            ;
        }
    }
    let y = a[k][k];
    assert(t[r][k] == a[r][k] + beta * y);
    assert(beta * y == beta) by (nonlinear_arith)
        requires
            y == 1 as real,
    ;
}

/// Clears column `k` in the rows from `r` on: an elimination with a pivot
/// of one in row `k` can be continued until column `k` is reduced too.
proof fn lemma_clear_rows(
    s: Seq<Seq<real>>,
    a: Seq<Seq<real>>,
    b: Seq<Seq<real>>,
    n: nat,
    k: int,
    r: int,
) -> (res: (Seq<Seq<real>>, Seq<Seq<real>>))
    requires
        reducing(s, a, b, n),
        0 <= k < n,
        0 <= r <= n,
        reduced_columns(a, n, k),
        a[k][k] == 1 as real,
        forall|w: int| 0 <= w < r && w != k ==> (#[trigger] a[w])[k] == 0 as real,
    ensures
        reducing(s, res.0, res.1, n),
        reduced_columns(res.0, n, k + 1),
    decreases n - r,
{
    if r == n {
        assert forall|w: int, c: int| 0 <= w < n && 0 <= c < k + 1 implies #[trigger] a[w][c]
            == if w == c {
            1 as real
        } else {
            0 as real
        } by {
            if c == k && w != k {
                assert(a[w][k] == 0 as real);
            }
        }
        (a, b)
    } else if r == k {
        lemma_clear_rows(s, a, b, n, k, r + 1)
    } else {
        let one = 1 as real;
        let beta = -a[r][k];
        lemma_row_cleared(a, n, r, k, one, beta);
        lemma_reducing_step(s, a, b, n, r, one, k, beta);
        let a2 = row_combine(a, r, one, k, beta);
        let b2 = row_combine(b, r, one, k, beta);
        assert forall|w: int| 0 <= w < r + 1 && w != k implies (#[trigger] a2[w])[k]
            == 0 as real by {
            if w != r {
                assert(a2[w] == a[w]);
            }
        }
        assert(a2[k] == a[k]);
        lemma_clear_rows(s, a2, b2, n, k, r + 1)
    }
}

/// An elimination on a matrix that sends no vector but zero to zero never
/// gets stuck, and so ends with an inverse.
proof fn lemma_elimination_ends(
    s: Seq<Seq<real>>,
    a: Seq<Seq<real>>,
    b: Seq<Seq<real>>,
    n: nat,
    k: int,
)
    requires
        reducing(s, a, b, n),
        0 <= k <= n,
        reduced_columns(a, n, k),
        injective(s, n),
    ensures
        invertible(s, n),
    decreases n - k,
{
    if k == n {
        lemma_reducing_done(s, a, b, n);
    } else if forall|r: int| k <= r < n ==> (#[trigger] a[r])[k] == 0 as real {
        let v = kernel_vector(a, n, k);
        lemma_stuck_kernel(s, a, b, n, k);
        assert(v == zero_vector(n));
        assert(v[k] == -(1 as real));
        assert(zero_vector(n)[k] == 0 as real);
    } else {
        let one = 1 as real;
        let zero = 0 as real;
        let q = choose|r: int| k <= r < n && (#[trigger] a[r])[k] != 0 as real;
        let (a1, b1) = if a[k][k] == 0 as real {
            lemma_pivot_added(a, n, k, q, one);
            lemma_reducing_step(s, a, b, n, k, one, q, one);
            (row_combine(a, k, one, q, one), row_combine(b, k, one, q, one))
        } else {
            (a, b)
        };
        let x = a1[k][k];
        let alpha = one / x;
        assert(alpha * x == 1 as real && alpha != 0 as real) by (nonlinear_arith)
            requires
                x != 0 as real,
                alpha == (1 as real) / x,
        ;
        lemma_pivot_scaled(a1, n, k, alpha, zero);
        lemma_reducing_step(s, a1, b1, n, k, alpha, k, zero);
        let a2 = row_combine(a1, k, alpha, k, zero);
        let b2 = row_combine(b1, k, alpha, k, zero);
        let (a3, b3) = lemma_clear_rows(s, a2, b2, n, k, 0);
        lemma_elimination_ends(s, a3, b3, n, k + 1);
    }
}

/// A matrix that sends no vector but zero to zero has an inverse.
pub proof fn lemma_injective_invertible(s: Seq<Seq<real>>, n: nat)
    requires
        is_matrix(s, n),
        injective(s, n),
    ensures
        invertible(s, n),
{
    lemma_reducing_start(s, n);
    lemma_elimination_ends(s, s, identity(n), n, 0);
}

/// A positive definite matrix has an inverse.
pub proof fn lemma_positive_definite_invertible(a: Seq<Seq<real>>, n: nat)
    requires
        is_matrix(a, n),
        positive_definite(a, n),
    ensures
        invertible(a, n),
{
    assert forall|v: Seq<real>| v.len() == n && #[trigger] matrix_apply(a, v) == zero_vector(
        n,
    ) implies v == zero_vector(n) by {
        lemma_dot_zero(v, n);
        assert(quadratic_form(a, v) == 0 as real);
    }
    lemma_injective_invertible(a, n);
}

/// The sum of a positive definite and a positive semi-definite matrix has an
/// inverse. So two covariance matrices can be fused as soon as one of them is
/// positive definite.
pub proof fn lemma_positive_definite_sum_invertible(
    a: Seq<Seq<real>>,
    b: Seq<Seq<real>>,
    n: nat,
)
    requires
        is_matrix(a, n),
        is_matrix(b, n),
        positive_definite(a, n),
        positive_semidefinite(b, n),
    ensures
        invertible(matrix_sum(a, b), n),
{
    lemma_positive_definite_sum(a, b, n);
    lemma_positive_definite_invertible(matrix_sum(a, b), n);
}

/// The first row from `q` on with an entry other than zero in column `k`, or
/// `n` if there is none.
pub open spec fn pivot_from(a: Seq<Seq<Ratio>>, n: nat, k: int, q: int) -> int
    decreases n - q,
{
    if q >= n {
        n as int
    } else if a[q][k].value() != 0 as real {
        q
    } else {
        pivot_from(a, n, k, q + 1)
    }
}

/// One row operation on both matrices of an elimination.
pub open spec fn checked_combine_both(
    a: Seq<Seq<Ratio>>,
    b: Seq<Seq<Ratio>>,
    i: int,
    alpha: Ratio,
    p: int,
    beta: Ratio,
) -> Option<(Seq<Seq<Ratio>>, Seq<Seq<Ratio>>)> {
    match checked_row_combine(a, i, alpha, p, beta) {
        None => None,
        Some(a2) => match checked_row_combine(b, i, alpha, p, beta) {
            None => None,
            Some(b2) => Some((a2, b2)),
        },
    }
}

/// The elimination of column `k` from the rows from `r` on, but row `k`:
/// from each row with an entry `x` other than zero in that column, `x` times
/// row `k` is subtracted.
pub open spec fn cleared_from(a: Seq<Seq<Ratio>>, b: Seq<Seq<Ratio>>, n: nat, k: int, r: int)
    -> Option<(Seq<Seq<Ratio>>, Seq<Seq<Ratio>>)>
    decreases n - r,
{
    if r >= n {
        Some((a, b))
    } else if r == k || a[r][k].value() == 0 as real {
        cleared_from(a, b, n, k, r + 1)
    } else {
        match Ratio::integer(0).minus(a[r][k]) {
            None => None,
            Some(beta) => match checked_combine_both(a, b, r, Ratio::integer(1), k, beta) {
                None => None,
                Some((a2, b2)) => cleared_from(a2, b2, n, k, r + 1),
            },
        }
    }
}

/// Gives row `k` a pivot in column `k`: the first row from `k` on that has
/// one is added to row `k`, unless it is row `k` itself. Without such a row
/// the matrix is singular.
pub open spec fn pivot_brought(a: Seq<Seq<Ratio>>, b: Seq<Seq<Ratio>>, n: nat, k: int) -> Result<
    (Seq<Seq<Ratio>>, Seq<Seq<Ratio>>),
    FilterError,
> {
    let q = pivot_from(a, n, k, k);
    if q >= n {
        Err(FilterError::SingularCovariance)
    } else if q == k {
        Ok((a, b))
    } else {
        match checked_combine_both(a, b, k, Ratio::integer(1), q, Ratio::integer(1)) {
            None => Err(FilterError::Overflow),
            Some(both) => Ok(both),
        }
    }
}

/// Divides row `k` by its pivot.
pub open spec fn pivot_scaled(a: Seq<Seq<Ratio>>, b: Seq<Seq<Ratio>>, k: int) -> Option<
    (Seq<Seq<Ratio>>, Seq<Seq<Ratio>>),
> {
    match Ratio::integer(1).over(a[k][k]) {
        None => None,
        Some(alpha) => checked_combine_both(a, b, k, alpha, k, Ratio::integer(0)),
    }
}

/// The elimination of column `k`: row `k` gets a pivot, is divided by it, and
/// the column is cleared in the other rows.
pub open spec fn column_eliminated(a: Seq<Seq<Ratio>>, b: Seq<Seq<Ratio>>, n: nat, k: int)
    -> Result<(Seq<Seq<Ratio>>, Seq<Seq<Ratio>>), FilterError> {
    match pivot_brought(a, b, n, k) {
        Err(e) => Err(e),
        Ok((a1, b1)) => match pivot_scaled(a1, b1, k) {
            None => Err(FilterError::Overflow),
            Some((a2, b2)) => match cleared_from(a2, b2, n, k, 0) {
                None => Err(FilterError::Overflow),
                Some(both) => Ok(both),
            },
        },
    }
}

/// The elimination from column `k` on, one column after the other. At the end
/// `b` is the answer.
pub open spec fn eliminated_from(a: Seq<Seq<Ratio>>, b: Seq<Seq<Ratio>>, n: nat, k: int) -> Result<
    Seq<Seq<Ratio>>,
    FilterError,
>
    decreases n - k,
{
    if k >= n {
        Ok(b)
    } else {
        match column_eliminated(a, b, n, k) {
            Err(e) => Err(e),
            Ok((a2, b2)) => eliminated_from(a2, b2, n, k + 1),
        }
    }
}

/// The identity matrix in fractions.
pub open spec fn identity_fractions(n: nat) -> Seq<Seq<Ratio>> {
    diagonal_fractions(Seq::new(n, |i: int| Ratio::integer(1)), Ratio::integer(0))
}

/// What [`SimpleSquareMatrix::try_inverse`] gives: the inverse by Gauss-Jordan
/// elimination, or why there is none.
pub open spec fn checked_inverse(s: Seq<Seq<Ratio>>, n: nat) -> Result<
    Seq<Seq<Ratio>>,
    FilterError,
> {
    eliminated_from(s, identity_fractions(n), n, 0)
}

impl<const SIZE: usize> SimpleSquareMatrix<SIZE> {
    /// The first row from `k` on with an entry other than zero in column `k`,
    /// or `SIZE` if there is none.
    fn pivot_row(&self, k: usize) -> (q: usize)
        requires
            k < SIZE,
        ensures
            q == pivot_from(self.fractions(), SIZE as nat, k as int, k as int),
            k <= q <= SIZE,
            forall|r: int| k <= r < q ==> (#[trigger] self@[r])[k as int] == 0 as real,
            q < SIZE ==> self@[q as int][k as int] != 0 as real,
    {
        let ghost a = self.fractions();
        let mut q: usize = k;
        while q < SIZE
            invariant
                k <= q <= SIZE,
                a == self.fractions(),
                pivot_from(a, SIZE as nat, k as int, q as int) == pivot_from(
                    a,
                    SIZE as nat,
                    k as int,
                    k as int,
                ),
                forall|r: int| k <= r < q ==> (#[trigger] self@[r])[k as int] == 0 as real,
            decreases SIZE - q,
        {
            if !self.at(q, k).is_zero() {
                return q;
            }
            q += 1;
        }
        q
    }

    /// One row operation on both matrices of an elimination on `self`.
    fn combine_rows(&self, a: &Self, b: &Self, i: usize, alpha: Ratio, p: usize, beta: Ratio) -> (r:
        Option<(Self, Self)>)
        requires
            reducing(self@, a@, b@, SIZE as nat),
            i < SIZE,
            p < SIZE,
            alpha.value() != 0 as real,
            p != i || beta.value() == 0 as real,
        ensures
            match r {
                Some((a2, b2)) => checked_combine_both(
                    a.fractions(),
                    b.fractions(),
                    i as int,
                    alpha,
                    p as int,
                    beta,
                ) == Some((a2.fractions(), b2.fractions())),
                None => checked_combine_both(
                    a.fractions(),
                    b.fractions(),
                    i as int,
                    alpha,
                    p as int,
                    beta,
                ) is None,
            },
            r matches Some((a2, b2)) ==> {
                &&& reducing(self@, a2@, b2@, SIZE as nat)
                &&& a2@ == row_combine(a@, i as int, alpha.value(), p as int, beta.value())
            },
    {
        let a2 = match a.row_combined(i, alpha, p, beta) {
            Some(m) => m,
            None => {
                return None;
            },
        };
        let b2 = match b.row_combined(i, alpha, p, beta) {
            Some(m) => m,
            None => {
                return None;
            },
        };
        proof {
            lemma_reducing_step(
                self@,
                a@,
                b@,
                SIZE as nat,
                i as int,
                alpha.value(),
                p as int,
                beta.value(),
            );
        }
        Some((a2, b2))
    }

    /// Clears column `k` in every row but row `k`, whose pivot is one.
    fn clear_column(&self, a: Self, b: Self, k: usize) -> (r: Option<(Self, Self)>)
        requires
            reducing(self@, a@, b@, SIZE as nat),
            k < SIZE,
            reduced_columns(a@, SIZE as nat, k as int),
            a@[k as int][k as int] == 1 as real,
        ensures
            match r {
                Some((a2, b2)) => cleared_from(
                    a.fractions(),
                    b.fractions(),
                    SIZE as nat,
                    k as int,
                    0,
                ) == Some((a2.fractions(), b2.fractions())),
                None => cleared_from(a.fractions(), b.fractions(), SIZE as nat, k as int, 0)
                    is None,
            },
            r matches Some((a2, b2)) ==> {
                &&& reducing(self@, a2@, b2@, SIZE as nat)
                &&& reduced_columns(a2@, SIZE as nat, k + 1)
            },
    {
        let one = Ratio::from_integer(1);
        let zero = Ratio::from_integer(0);
        let mut left: Self = a;
        let mut right: Self = b;
        let mut r: usize = 0;
        while r < SIZE
            invariant
                r <= SIZE,
                k < SIZE,
                one == Ratio::integer(1),
                zero == Ratio::integer(0),
                one.value() == 1 as real,
                zero.value() == 0 as real,
                cleared_from(
                    left.fractions(),
                    right.fractions(),
                    SIZE as nat,
                    k as int,
                    r as int,
                ) == cleared_from(a.fractions(), b.fractions(), SIZE as nat, k as int, 0),
                reducing(self@, left@, right@, SIZE as nat),
                reduced_columns(left@, SIZE as nat, k as int),
                left@[k as int][k as int] == 1 as real,
                forall|w: int|
                    0 <= w < r && w != k ==> (#[trigger] left@[w])[k as int] == 0 as real,
            decreases SIZE - r,
        {
            if r != k {
                let f = left.at(r, k);
                if !f.is_zero() {
                    let beta = match zero.checked_sub(f) {
                        Some(x) => x,
                        None => {
                            return None;
                        },
                    };
                    let ghost before = left@;
                    proof {
                        left.lemma_shape();
                        lemma_row_cleared(
                            before,
                            SIZE as nat,
                            r as int,
                            k as int,
                            one.value(),
                            beta.value(),
                        );
                    }
                    match self.combine_rows(&left, &right, r, one, k, beta) {
                        Some((a2, b2)) => {
                            left = a2;
                            right = b2;
                        },
                        None => {
                            return None;
                        },
                    }
                    assert forall|w: int| 0 <= w < r + 1 && w != k implies (#[trigger] left@[w])[k as int]
                        == 0 as real by {
                        if w != r {
                            assert(left@[w] == before[w]);
                        }
                    }
                }
            }
            r += 1;
        }
        proof {
            assert forall|w: int, c: int| 0 <= w < SIZE && 0 <= c < k + 1 implies #[trigger] left@[w][c]
                == if w == c {
                1 as real
            } else {
                0 as real
            } by {
                if c == k && w != k {
                    assert(left@[w][k as int] == 0 as real);
                }
            }
        }
        Some((left, right))
    }

    /// Gives row `k` a pivot in column `k`, if there is one at or below it.
    fn bring_pivot(&self, a: Self, b: Self, k: usize) -> (r: Result<(Self, Self), FilterError>)
        requires
            reducing(self@, a@, b@, SIZE as nat),
            k < SIZE,
            reduced_columns(a@, SIZE as nat, k as int),
        ensures
            match r {
                Ok((a2, b2)) => pivot_brought(a.fractions(), b.fractions(), SIZE as nat, k as int)
                    == Ok::<(Seq<Seq<Ratio>>, Seq<Seq<Ratio>>), FilterError>(
                    (a2.fractions(), b2.fractions()),
                ),
                Err(e) => pivot_brought(a.fractions(), b.fractions(), SIZE as nat, k as int)
                    == Err::<(Seq<Seq<Ratio>>, Seq<Seq<Ratio>>), FilterError>(e),
            },
            r matches Ok((a2, b2)) ==> {
                &&& reducing(self@, a2@, b2@, SIZE as nat)
                &&& reduced_columns(a2@, SIZE as nat, k as int)
                &&& a2@[k as int][k as int] != 0 as real
            },
            r matches Err(FilterError::SingularCovariance) ==> !invertible(self@, SIZE as nat),
    {
        let one = Ratio::from_integer(1);
        proof {
            a.lemma_shape();
        }
        let q: usize = a.pivot_row(k);
        if q == SIZE {
            proof {
                lemma_reducing_stuck(self@, a@, b@, SIZE as nat, k as int);
            }
            return Err(FilterError::SingularCovariance);
        }
        if q == k {
            return Ok((a, b));
        }
        proof {
            lemma_pivot_added(a@, SIZE as nat, k as int, q as int, one.value());
        }
        match self.combine_rows(&a, &b, k, one, q, one) {
            Some(both) => Ok(both),
            None => Err(FilterError::Overflow),
        }
    }

    /// Divides row `k` by its pivot.
    fn scale_pivot(&self, a: Self, b: Self, k: usize) -> (r: Option<(Self, Self)>)
        requires
            reducing(self@, a@, b@, SIZE as nat),
            k < SIZE,
            reduced_columns(a@, SIZE as nat, k as int),
            a@[k as int][k as int] != 0 as real,
        ensures
            match r {
                Some((a2, b2)) => pivot_scaled(a.fractions(), b.fractions(), k as int) == Some(
                    (a2.fractions(), b2.fractions()),
                ),
                None => pivot_scaled(a.fractions(), b.fractions(), k as int) is None,
            },
            r matches Some((a2, b2)) ==> {
                &&& reducing(self@, a2@, b2@, SIZE as nat)
                &&& reduced_columns(a2@, SIZE as nat, k as int)
                &&& a2@[k as int][k as int] == 1 as real
            },
    {
        let one = Ratio::from_integer(1);
        let zero = Ratio::from_integer(0);
        let pivot = a.at(k, k);
        let alpha = match one.checked_div(pivot) {
            Some(x) => x,
            None => {
                return None;
            },
        };
        proof {
            let x = pivot.value();
            let y = alpha.value();
            assert(y * x == 1 as real && y != 0 as real) by (nonlinear_arith)
                requires
                    x != 0 as real,
                    y == (1 as real) / x,
            ;
            a.lemma_shape();
            lemma_pivot_scaled(a@, SIZE as nat, k as int, y, zero.value());
        }
        self.combine_rows(&a, &b, k, alpha, k, zero)
    }

    /// Eliminates column `k`.
    fn eliminate_column(&self, a: Self, b: Self, k: usize) -> (r: Result<(Self, Self), FilterError>)
        requires
            reducing(self@, a@, b@, SIZE as nat),
            k < SIZE,
            reduced_columns(a@, SIZE as nat, k as int),
        ensures
            match r {
                Ok((a2, b2)) => column_eliminated(
                    a.fractions(),
                    b.fractions(),
                    SIZE as nat,
                    k as int,
                ) == Ok::<(Seq<Seq<Ratio>>, Seq<Seq<Ratio>>), FilterError>(
                    (a2.fractions(), b2.fractions()),
                ),
                Err(e) => column_eliminated(a.fractions(), b.fractions(), SIZE as nat, k as int)
                    == Err::<(Seq<Seq<Ratio>>, Seq<Seq<Ratio>>), FilterError>(e),
            },
            r matches Ok((a2, b2)) ==> {
                &&& reducing(self@, a2@, b2@, SIZE as nat)
                &&& reduced_columns(a2@, SIZE as nat, k + 1)
            },
            r matches Err(FilterError::SingularCovariance) ==> !invertible(self@, SIZE as nat),
    {
        let (a1, b1) = match self.bring_pivot(a, b, k) {
            Ok(both) => both,
            Err(e) => {
                return Err(e);
            },
        };
        let (a2, b2) = match self.scale_pivot(a1, b1, k) {
            Some(both) => both,
            None => {
                return Err(FilterError::Overflow);
            },
        };
        match self.clear_column(a2, b2, k) {
            Some(both) => Ok(both),
            None => Err(FilterError::Overflow),
        }
    }

    /// The inverse of this matrix.
    ///
    /// The inverse is exact. There is none when the matrix is singular, and
    /// the attempt is given up when a step of the elimination does not fit.
    pub fn try_inverse(&self) -> (r: Result<Self, FilterError>)
        ensures
            match r {
                Ok(t) => checked_inverse(self.fractions(), SIZE as nat) == Ok::<
                    Seq<Seq<Ratio>>,
                    FilterError,
                >(t.fractions()),
                Err(e) => checked_inverse(self.fractions(), SIZE as nat) == Err::<
                    Seq<Seq<Ratio>>,
                    FilterError,
                >(e),
            },
            r matches Ok(t) ==> is_inverse(t@, self@, SIZE as nat),
            r matches Err(FilterError::SingularCovariance) ==> !invertible(self@, SIZE as nat),
    {
        let one = Ratio::from_integer(1);
        let zero = Ratio::from_integer(0);
        let ones = SimpleVector::new([one; SIZE]);
        let mut a: Self = *self;
        let mut b: Self = Self::diagonal(&ones, zero);
        proof {
            self.lemma_shape();
            ones.lemma_length();
            assert(ones.fractions() =~= Seq::new(SIZE as nat, |i: int| Ratio::integer(1)));
            b.lemma_shape();
            lemma_matrix_equal(b@, identity(SIZE as nat), SIZE as nat);
            lemma_reducing_start(self@, SIZE as nat);
        }
        let mut k: usize = 0;
        while k < SIZE
            invariant
                k <= SIZE,
                eliminated_from(a.fractions(), b.fractions(), SIZE as nat, k as int)
                    == checked_inverse(self.fractions(), SIZE as nat),
                reducing(self@, a@, b@, SIZE as nat),
                reduced_columns(a@, SIZE as nat, k as int),
            decreases SIZE - k,
        {
            match self.eliminate_column(a, b, k) {
                Ok((a2, b2)) => {
                    a = a2;
                    b = b2;
                },
                Err(e) => {
                    return Err(e);
                },
            }
            k += 1;
        }
        proof {
            a.lemma_shape();
            b.lemma_shape();
            lemma_reducing_done(self@, a@, b@, SIZE as nat);
        }
        Ok(b)
    }
}

} // verus!
