//! Fusion of two Gaussian estimates of one quantity.
//!
//! Two independent estimates `(m1, c1)` and `(m2, c2)`, each a mean with its
//! covariance, are fused into
//!
//! ```text
//! t          = inverse(c1 + c2)
//! mean       = c2 * t * m1 + c1 * t * m2
//! covariance = c1 * t * c2
//! ```

use crate::algebra::{
    apply_term, dot, identity, is_matrix, lemma_apply_product, lemma_dot_commutes,
    lemma_identity_apply, lemma_identity_left, lemma_identity_right, lemma_matrix_equal,
    lemma_product_associative, lemma_product_distributes_left, lemma_product_distributes_right,
    lemma_quadratic_form_of_sum, lemma_sum_commutes, lemma_sum_equal, lemma_sum_pick,
    lemma_sum_scale, lemma_symmetric_moves, loewner_le, matrix_apply, matrix_difference,
    matrix_product, matrix_sum, positive_semidefinite, product_term, quadratic_form, symmetric,
    vector_sum,
};
use crate::checked::{
    checked_matrix_apply, checked_matrix_product, checked_matrix_sum, checked_vector_sum,
};
use crate::error::FilterError;
use crate::inverse::{checked_inverse, inverse, invertible, is_inverse, lemma_inverse_unique};
use crate::matrix::{SimpleSquareMatrix, SimpleVector};
use crate::ratio::Ratio;
use vstd::prelude::*;

verus! {

/// The mean of the fusion of `(m1, c1)` with `(m2, c2)`.
pub open spec fn fused_mean(
    m1: Seq<real>,
    c1: Seq<Seq<real>>,
    m2: Seq<real>,
    c2: Seq<Seq<real>>,
) -> Seq<real> {
    let t = inverse(matrix_sum(c1, c2), c1.len());
    vector_sum(matrix_apply(matrix_product(c2, t), m1), matrix_apply(matrix_product(c1, t), m2))
}

/// The covariance of the fusion of an estimate of covariance `c1` with one of
/// covariance `c2`.
pub open spec fn fused_covariance(c1: Seq<Seq<real>>, c2: Seq<Seq<real>>) -> Seq<Seq<real>> {
    let t = inverse(matrix_sum(c1, c2), c1.len());
    matrix_product(matrix_product(c1, t), c2)
}

/// Half of every entry of a vector.
pub open spec fn vector_halved(x: Seq<real>) -> Seq<real> {
    Seq::new(x.len(), |i: int| x[i] / (2 as real))
}

/// Half of every entry of a matrix.
pub open spec fn matrix_halved(a: Seq<Seq<real>>) -> Seq<Seq<real>> {
    Seq::new(a.len(), |i: int| Seq::new(a.len(), |j: int| a[i][j] / (2 as real)))
}

/// The two weighted means `c2 * t * m1` and `c1 * t * m2` and their sum, the
/// fused mean, in fractions.
pub open spec fn checked_fused_mean(
    m1: Seq<Ratio>,
    weight_1: Seq<Seq<Ratio>>,
    m2: Seq<Ratio>,
    weight_2: Seq<Seq<Ratio>>,
) -> Option<Seq<Ratio>> {
    match checked_matrix_apply(weight_1, m1) {
        None => None,
        Some(part_1) => match checked_matrix_apply(weight_2, m2) {
            None => None,
            Some(part_2) => checked_vector_sum(part_1, part_2),
        },
    }
}

/// The fusion with a given inverse `t` of `c1 + c2`, in fractions.
pub open spec fn checked_fusion_with(
    m1: Seq<Ratio>,
    c1: Seq<Seq<Ratio>>,
    m2: Seq<Ratio>,
    c2: Seq<Seq<Ratio>>,
    t: Seq<Seq<Ratio>>,
) -> Option<(Seq<Ratio>, Seq<Seq<Ratio>>)> {
    match checked_matrix_product(c2, t) {
        None => None,
        Some(weight_1) => match checked_matrix_product(c1, t) {
            None => None,
            Some(weight_2) => match checked_fused_mean(m1, weight_1, m2, weight_2) {
                None => None,
                Some(mean) => match checked_matrix_product(weight_2, c2) {
                    None => None,
                    Some(covariance) => Some((mean, covariance)),
                },
            },
        },
    }
}

/// What [`combine_measurements`] gives, in fractions: the fused mean and
/// covariance, [`FilterError::SingularCovariance`] when the elimination finds
/// no inverse of `c1 + c2`, and [`FilterError::Overflow`] when a step on the
/// way does not fit.
pub open spec fn checked_fusion(
    m1: Seq<Ratio>,
    c1: Seq<Seq<Ratio>>,
    m2: Seq<Ratio>,
    c2: Seq<Seq<Ratio>>,
    n: nat,
) -> Result<(Seq<Ratio>, Seq<Seq<Ratio>>), FilterError> {
    match checked_matrix_sum(c1, c2) {
        None => Err(FilterError::Overflow),
        Some(total) => match checked_inverse(total, n) {
            Err(e) => Err(e),
            Ok(t) => match checked_fusion_with(m1, c1, m2, c2, t) {
                None => Err(FilterError::Overflow),
                Some(fused) => Ok(fused),
            },
        },
    }
}

/// Fuses the estimate `(mean_1, covariance_1)` with `(mean_2, covariance_2)`.
///
/// The result is exact. The fusion fails with
/// [`FilterError::SingularCovariance`] only if the sum of the two covariances
/// has no inverse, and it never succeeds then. It fails with
/// [`FilterError::Overflow`] when a sum or product on the way does not fit a
/// fraction of 64-bit integers; [`checked_fusion`] says which inputs these
/// are.
pub fn combine_measurements<const SIZE: usize>(
    mean_1: &SimpleVector<SIZE>,
    covariance_1: &SimpleSquareMatrix<SIZE>,
    mean_2: &SimpleVector<SIZE>,
    covariance_2: &SimpleSquareMatrix<SIZE>,
) -> (r: Result<(SimpleVector<SIZE>, SimpleSquareMatrix<SIZE>), FilterError>)
    ensures
        match r {
            Ok((mean, covariance)) => checked_fusion(
                mean_1.fractions(),
                covariance_1.fractions(),
                mean_2.fractions(),
                covariance_2.fractions(),
                SIZE as nat,
            ) == Ok::<(Seq<Ratio>, Seq<Seq<Ratio>>), FilterError>(
                (mean.fractions(), covariance.fractions()),
            ),
            Err(e) => checked_fusion(
                mean_1.fractions(),
                covariance_1.fractions(),
                mean_2.fractions(),
                covariance_2.fractions(),
                SIZE as nat,
            ) == Err::<(Seq<Ratio>, Seq<Seq<Ratio>>), FilterError>(e),
        },
        r matches Ok((mean, covariance)) ==> {
            &&& invertible(matrix_sum(covariance_1@, covariance_2@), SIZE as nat)
            &&& mean@ == fused_mean(mean_1@, covariance_1@, mean_2@, covariance_2@)
            &&& covariance@ == fused_covariance(covariance_1@, covariance_2@)
        },
        r matches Err(FilterError::SingularCovariance) ==> !invertible(
            matrix_sum(covariance_1@, covariance_2@),
            SIZE as nat,
        ),
{
    let total = match covariance_1.checked_add(covariance_2) {
        Some(m) => m,
        None => {
            return Err(FilterError::Overflow);
        },
    };
    let inverse_sum = match total.try_inverse() {
        Ok(m) => m,
        Err(e) => {
            return Err(e);
        },
    };
    proof {
        covariance_1.lemma_shape();
        lemma_inverse_unique(
            total@,
            inverse_sum@,
            inverse(total@, SIZE as nat),
            SIZE as nat,
        );
    }
    let weight_1 = match covariance_2.checked_mul(&inverse_sum) {
        Some(m) => m,
        None => {
            return Err(FilterError::Overflow);
        },
    };
    let weight_2 = match covariance_1.checked_mul(&inverse_sum) {
        Some(m) => m,
        None => {
            return Err(FilterError::Overflow);
        },
    };
    let part_1 = match weight_1.checked_apply(mean_1) {
        Some(v) => v,
        None => {
            return Err(FilterError::Overflow);
        },
    };
    let part_2 = match weight_2.checked_apply(mean_2) {
        Some(v) => v,
        None => {
            return Err(FilterError::Overflow);
        },
    };
    let mean = match part_1.checked_add(&part_2) {
        Some(v) => v,
        None => {
            return Err(FilterError::Overflow);
        },
    };
    let covariance = match weight_2.checked_mul(covariance_2) {
        Some(m) => m,
        None => {
            return Err(FilterError::Overflow);
        },
    };
    Ok((mean, covariance))
}

/// With `t` the inverse of `c1 + c2`: `c1 * t * c1 + c1 * t * c2` is `c1`, and
/// so is `c1 * t * c1 + c2 * t * c1`.
proof fn lemma_fusion_split(c1: Seq<Seq<real>>, c2: Seq<Seq<real>>, n: nat)
    requires
        is_matrix(c1, n),
        is_matrix(c2, n),
        invertible(matrix_sum(c1, c2), n),
    ensures
        ({
            let t = inverse(matrix_sum(c1, c2), n);
            let x = matrix_product(c1, t);
            let y = matrix_product(c2, t);
            &&& matrix_sum(matrix_product(x, c1), matrix_product(x, c2)) == c1
            &&& matrix_sum(matrix_product(x, c1), matrix_product(y, c1)) == c1
        }),
{
    let s = matrix_sum(c1, c2);
    let t = inverse(s, n);
    let x = matrix_product(c1, t);
    let y = matrix_product(c2, t);
    // x * s == x * c1 + x * c2, and x * s == c1 * (t * s) == c1
    lemma_product_distributes_left(x, c1, c2, n);
    lemma_product_associative(c1, t, s, n);
    lemma_identity_right(c1, n);
    // (x + y) * c1 == x * c1 + y * c1, and x + y == s * t == identity
    lemma_product_distributes_right(c1, c2, t, n);
    lemma_product_distributes_right(x, y, c1, n);
    lemma_identity_left(c1, n);
}

/// The fused covariance does not depend on the order of the two estimates.
proof fn lemma_fused_covariance_commutes(c1: Seq<Seq<real>>, c2: Seq<Seq<real>>, n: nat)
    requires
        is_matrix(c1, n),
        is_matrix(c2, n),
        invertible(matrix_sum(c1, c2), n),
    ensures
        fused_covariance(c1, c2) == fused_covariance(c2, c1),
{
    let t = inverse(matrix_sum(c1, c2), n);
    lemma_sum_commutes(c1, c2, n);
    let x = matrix_product(c1, t);
    let y = matrix_product(c2, t);
    lemma_fusion_split(c1, c2, n);
    let xc1 = matrix_product(x, c1);
    let xc2 = matrix_product(x, c2);
    let yc1 = matrix_product(y, c1);
    assert forall|i: int, j: int| 0 <= i < n && 0 <= j < n implies xc2[i][j] == yc1[i][j] by {
        assert(matrix_sum(xc1, xc2)[i][j] == xc1[i][j] + xc2[i][j]);
        assert(matrix_sum(xc1, yc1)[i][j] == xc1[i][j] + yc1[i][j]);
    }
    lemma_matrix_equal(xc2, yc1, n);
}

/// Fusion is commutative: fusing `(m1, c1)` with `(m2, c2)` gives the mean and
/// the covariance that fusing `(m2, c2)` with `(m1, c1)` gives, whenever the
/// sum of the covariances has an inverse. It has one when the covariances are
/// positive definite, by
/// [`lemma_positive_definite_sum_invertible`](crate::inverse::lemma_positive_definite_sum_invertible).
pub proof fn lemma_fusion_commutes(
    m1: Seq<real>,
    c1: Seq<Seq<real>>,
    m2: Seq<real>,
    c2: Seq<Seq<real>>,
    n: nat,
)
    requires
        m1.len() == n,
        m2.len() == n,
        is_matrix(c1, n),
        is_matrix(c2, n),
        invertible(matrix_sum(c1, c2), n),
    ensures
        fused_mean(m1, c1, m2, c2) == fused_mean(m2, c2, m1, c1),
        fused_covariance(c1, c2) == fused_covariance(c2, c1),
{
    lemma_sum_commutes(c1, c2, n);
    assert(fused_mean(m1, c1, m2, c2) =~= fused_mean(m2, c2, m1, c1));
    lemma_fused_covariance_commutes(c1, c2, n);
}

/// The quadratic form of `c1` minus the fused covariance is negative nowhere.
proof fn lemma_fusion_reduces_first(c1: Seq<Seq<real>>, c2: Seq<Seq<real>>, n: nat, z: Seq<real>)
    requires
        is_matrix(c1, n),
        is_matrix(c2, n),
        symmetric(c1, n),
        positive_semidefinite(c1, n),
        positive_semidefinite(c2, n),
        invertible(matrix_sum(c1, c2), n),
        z.len() == n,
    ensures
        quadratic_form(matrix_difference(c1, fused_covariance(c1, c2)), z) >= 0 as real,
{
    let s = matrix_sum(c1, c2);
    let t = inverse(s, n);
    let x = matrix_product(c1, t);
    let xc1 = matrix_product(x, c1);
    let xc2 = matrix_product(x, c2);
    let difference = matrix_difference(c1, xc2);
    lemma_fusion_split(c1, c2, n);
    assert forall|i: int, j: int| 0 <= i < n && 0 <= j < n implies difference[i][j]
        == xc1[i][j] by {
        assert(matrix_sum(xc1, xc2)[i][j] == xc1[i][j] + xc2[i][j]);
    }
    lemma_matrix_equal(difference, xc1, n);
    // (c1 * t * c1) * z == c1 * u, where y == c1 * z and u == t * y
    let y = matrix_apply(c1, z);
    let u = matrix_apply(t, y);
    lemma_apply_product(x, c1, z, n);
    lemma_apply_product(c1, t, y, n);
    // z . (c1 * u) == (c1 * z) . u == y . u
    lemma_symmetric_moves(c1, z, u, n);
    // y == (s * t) * y == s * u
    lemma_apply_product(s, t, y, n);
    lemma_identity_apply(y, n);
    let su = matrix_apply(s, u);
    assert(su == y);
    // y . u == u . (s * u) == u . (c1 * u) + u . (c2 * u)
    lemma_dot_commutes(su, u);
    lemma_quadratic_form_of_sum(c1, c2, u, n);
    assert(quadratic_form(c1, u) >= 0 as real);
    assert(quadratic_form(c2, u) >= 0 as real);
    assert(quadratic_form(difference, z) == dot(z, matrix_apply(c1, u)));
    assert(dot(y, u) == quadratic_form(s, u));
}

/// Fusion never increases uncertainty: for symmetric and positive
/// semi-definite covariances `c1` and `c2` whose sum has an inverse, the fused
/// covariance is at most `c1` and at most `c2` in the Loewner order. Without
/// an inverse of the sum there is no fused covariance.
pub proof fn lemma_fusion_reduces_uncertainty(c1: Seq<Seq<real>>, c2: Seq<Seq<real>>, n: nat)
    requires
        is_matrix(c1, n),
        is_matrix(c2, n),
        symmetric(c1, n),
        symmetric(c2, n),
        positive_semidefinite(c1, n),
        positive_semidefinite(c2, n),
        invertible(matrix_sum(c1, c2), n),
    ensures
        loewner_le(fused_covariance(c1, c2), c1, n),
        loewner_le(fused_covariance(c1, c2), c2, n),
{
    let fused = fused_covariance(c1, c2);
    assert forall|z: Seq<real>| z.len() == n implies #[trigger] quadratic_form(
        matrix_difference(c1, fused),
        z,
    ) >= 0 as real by {
        lemma_fusion_reduces_first(c1, c2, n, z);
    }
    lemma_sum_commutes(c1, c2, n);
    lemma_fused_covariance_commutes(c1, c2, n);
    assert forall|z: Seq<real>| z.len() == n implies #[trigger] quadratic_form(
        matrix_difference(c2, fused),
        z,
    ) >= 0 as real by {
        lemma_fusion_reduces_first(c2, c1, n, z);
    }
}

/// Half the inverse of `c` is the inverse of `c + c`.
proof fn lemma_inverse_of_double(c: Seq<Seq<real>>, n: nat)
    requires
        is_matrix(c, n),
        invertible(c, n),
    ensures
        is_inverse(matrix_halved(inverse(c, n)), matrix_sum(c, c), n),
{
    let t = inverse(c, n);
    let u = matrix_halved(t);
    let s = matrix_sum(c, c);
    let id = identity(n);
    assert forall|i: int, j: int| 0 <= i < n && 0 <= j < n implies matrix_product(s, u)[i][j]
        == id[i][j] by {
        assert forall|k: int| 0 <= k < n implies #[trigger] product_term(s, u, i, j)(k)
            == product_term(c, t, i, j)(k) by {
            let x = c[i][k];
            let y = t[k][j];
            assert((x + x) * (y / (2 as real)) == x * y) by (nonlinear_arith);
        }
        lemma_sum_equal(product_term(s, u, i, j), product_term(c, t, i, j), n);
        assert(matrix_product(c, t)[i][j] == id[i][j]);
    }
    lemma_matrix_equal(matrix_product(s, u), id, n);
    assert forall|i: int, j: int| 0 <= i < n && 0 <= j < n implies matrix_product(u, s)[i][j]
        == id[i][j] by {
        assert forall|k: int| 0 <= k < n implies #[trigger] product_term(u, s, i, j)(k)
            == product_term(t, c, i, j)(k) by {
            let x = c[k][j];
            let y = t[i][k];
            assert((y / (2 as real)) * (x + x) == y * x) by (nonlinear_arith);
        }
        lemma_sum_equal(product_term(u, s, i, j), product_term(t, c, i, j), n);
        assert(matrix_product(t, c)[i][j] == id[i][j]);
    }
    lemma_matrix_equal(matrix_product(u, s), id, n);
}

/// Two estimates of equal covariance fuse into the arithmetic mean of their
/// means, with half that covariance: for an invertible `c`, the fusion of
/// `(m1, c)` with `(m2, c)` has mean `(m1 + m2) / 2` and covariance `c / 2`.
pub proof fn lemma_fusion_of_equal_covariances(
    m1: Seq<real>,
    m2: Seq<real>,
    c: Seq<Seq<real>>,
    n: nat,
)
    requires
        m1.len() == n,
        m2.len() == n,
        is_matrix(c, n),
        invertible(c, n),
    ensures
        invertible(matrix_sum(c, c), n),
        fused_mean(m1, c, m2, c) == vector_halved(vector_sum(m1, m2)),
        fused_covariance(c, c) == matrix_halved(c),
{
    let t = inverse(c, n);
    let u = matrix_halved(t);
    let s = matrix_sum(c, c);
    let id = identity(n);
    let half = (1 as real) / (2 as real);
    lemma_inverse_of_double(c, n);
    lemma_inverse_unique(s, inverse(s, n), u, n);
    let h = matrix_product(c, u);
    assert forall|i: int, j: int| 0 <= i < n && 0 <= j < n implies #[trigger] h[i][j] == id[i][j]
        / (2 as real) by {
        assert forall|k: int| 0 <= k < n implies #[trigger] product_term(c, u, i, j)(k) == half
            * product_term(c, t, i, j)(k) by {
            let x = c[i][k];
            let y = t[k][j];
            assert(x * (y / (2 as real)) == half * (x * y)) by (nonlinear_arith)
                requires
                    half == (1 as real) / (2 as real),
            ;
        }
        lemma_sum_scale(half, product_term(c, t, i, j), product_term(c, u, i, j), n);
        assert(matrix_product(c, t)[i][j] == id[i][j]);
    }
    let hc = matrix_product(h, c);
    assert forall|i: int, j: int| 0 <= i < n && 0 <= j < n implies hc[i][j] == matrix_halved(
        c,
    )[i][j] by {
        let f = product_term(h, c, i, j);
        assert forall|k: int| 0 <= k < n && k != i implies #[trigger] f(k) == 0 as real by {
            let w = h[i][k];
            let y = c[k][j];
            assert(w == id[i][k] / (2 as real));
            assert(w * y == 0 as real) by (nonlinear_arith)
                requires
                    w == 0 as real,
            ;
        }
        lemma_sum_pick(f, n, i);
        let w = h[i][i];
        let y = c[i][j];
        assert(w == id[i][i] / (2 as real));
        assert(w * y == y / (2 as real)) by (nonlinear_arith)
            requires
                w == (1 as real) / (2 as real),
        ;
    }
    lemma_matrix_equal(hc, matrix_halved(c), n);
    assert forall|x: Seq<real>, i: int| x.len() == n && 0 <= i < n implies #[trigger] matrix_apply(
        h,
        x,
    )[i] == x[i] / (2 as real) by {
        let f = apply_term(h, x, i);
        assert forall|k: int| 0 <= k < n && k != i implies #[trigger] f(k) == 0 as real by {
            let w = h[i][k];
            let y = x[k];
            assert(w == id[i][k] / (2 as real));
            assert(w * y == 0 as real) by (nonlinear_arith)
                requires
                    w == 0 as real,
            ;
        }
        lemma_sum_pick(f, n, i);
        let w = h[i][i];
        let y = x[i];
        assert(w == id[i][i] / (2 as real));
        assert(w * y == y / (2 as real)) by (nonlinear_arith)
            requires
                w == (1 as real) / (2 as real),
        ;
    }
    assert(fused_mean(m1, c, m2, c) =~= vector_halved(vector_sum(m1, m2)));
}

} // verus!
