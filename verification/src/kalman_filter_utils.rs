//! Covariance matrices of independent variables.

use crate::checked::diagonal_fractions;
use crate::matrix::{SimpleSquareMatrix, SimpleVector};
use crate::ratio::Ratio;
use vstd::prelude::*;

verus! {

/// The matrix with `diagonal` on its diagonal and zero everywhere else.
pub open spec fn diagonal_matrix(diagonal: Seq<real>) -> Seq<Seq<real>> {
    Seq::new(
        diagonal.len(),
        |i: int|
            Seq::new(
                diagonal.len(),
                |j: int|
                    if i == j {
                        diagonal[i]
                    } else {
                        0 as real
                    },
            ),
    )
}

/// The vector of `n` entries that all equal `x`.
pub open spec fn constant_vector(n: nat, x: real) -> Seq<real> {
    Seq::new(n, |i: int| x)
}

/// The covariance matrix of independent variables with the given variances:
/// each variance on the diagonal, zero everywhere else.
pub fn covariance_matrix_from_variance_vector<const SIZE: usize>(
    variances: &SimpleVector<SIZE>,
) -> (m: SimpleSquareMatrix<SIZE>)
    ensures
        m.fractions() == diagonal_fractions(variances.fractions(), Ratio::integer(0)),
        m@ == diagonal_matrix(variances@),
{
    let m = SimpleSquareMatrix::diagonal(variances, Ratio::from_integer(0));
    proof {
        variances.lemma_length();
        assert forall|i: int| 0 <= i < SIZE implies #[trigger] m@[i] == diagonal_matrix(
            variances@,
        )[i] by {
            assert(m@[i] =~= diagonal_matrix(variances@)[i]);
        }
        assert(m@ =~= diagonal_matrix(variances@));
    }
    m
}

/// The covariance matrix of `SIZE` independent variables that all have the
/// same variance: that variance on the diagonal, zero everywhere else.
pub fn covariance_matrix_from_variance<const SIZE: usize>(variance: Ratio) -> (m:
    SimpleSquareMatrix<SIZE>)
    ensures
        m.fractions() == diagonal_fractions(
            Seq::new(SIZE as nat, |i: int| variance),
            Ratio::integer(0),
        ),
        m@ == diagonal_matrix(constant_vector(SIZE as nat, variance.value())),
{
    let variances = SimpleVector::new([variance; SIZE]);
    let m = covariance_matrix_from_variance_vector(&variances);
    proof {
        variances.lemma_length();
        assert(variances.fractions() =~= Seq::new(SIZE as nat, |i: int| variance));
        assert(variances@ =~= constant_vector(SIZE as nat, variance.value()));
    }
    m
}

} // verus!
