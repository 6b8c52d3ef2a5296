//! The filter: an estimate of a system's state, moved through time by an
//! evolution function and sharpened by measurements.

use crate::algebra::matrix_sum;
use crate::error::FilterError;
use crate::fusion::{checked_fusion, combine_measurements, fused_covariance, fused_mean};
use crate::inverse::invertible;
use crate::matrix::{SimpleSquareMatrix, SimpleVector};
use crate::ratio::Ratio;
use vstd::prelude::*;

verus! {

/// A Kalman filter over `STATE_FACTORS` variables.
///
/// The filter holds the current estimate of the state with the covariance of
/// that estimate, and the evolution function that it was made with. The
/// evolution function takes a state, its covariance and a time step, and gives
/// the state and covariance expected after that time; how the covariance grows
/// with time is up to it alone.
pub struct KalmanFilter<const STATE_FACTORS: usize, F> {
    current_state: SimpleVector<STATE_FACTORS>,
    current_covariance: SimpleSquareMatrix<STATE_FACTORS>,
    evolution_function: F,
}

impl<
    const STATE_FACTORS: usize,
    F: Fn(SimpleVector<STATE_FACTORS>, SimpleSquareMatrix<STATE_FACTORS>, Ratio) -> (
        SimpleVector<STATE_FACTORS>,
        SimpleSquareMatrix<STATE_FACTORS>,
    ),
> KalmanFilter<STATE_FACTORS, F> {
    /// The current estimate of the state.
    pub closed spec fn state(self) -> SimpleVector<STATE_FACTORS> {
        self.current_state
    }

    /// The covariance of the current estimate.
    pub closed spec fn covariance(self) -> SimpleSquareMatrix<STATE_FACTORS> {
        self.current_covariance
    }

    /// The evolution function.
    pub closed spec fn evolution(self) -> F {
        self.evolution_function
    }

    /// Whether `post` is what the evolution function makes of `pre` over the
    /// time `dt`.
    pub open spec fn advanced(pre: Self, dt: Ratio, post: Self) -> bool {
        &&& post.evolution() == pre.evolution()
        &&& call_ensures(
            pre.evolution(),
            (pre.state(), pre.covariance(), dt),
            (post.state(), post.covariance()),
        )
    }

    /// Whether `post` and `outcome` are what applying the measurement to `pre`
    /// gives: on success the fusion of the measurement with the estimate of
    /// `pre`, on failure the error and `pre` itself.
    pub open spec fn measured(
        pre: Self,
        measurement: SimpleVector<STATE_FACTORS>,
        measurement_covariance: SimpleSquareMatrix<STATE_FACTORS>,
        outcome: Result<(), FilterError>,
        post: Self,
    ) -> bool {
        let total = matrix_sum(measurement_covariance@, pre.covariance()@);
        &&& post.evolution() == pre.evolution()
        &&& match checked_fusion(
            measurement.fractions(),
            measurement_covariance.fractions(),
            pre.state().fractions(),
            pre.covariance().fractions(),
            STATE_FACTORS as nat,
        ) {
            Ok((state, covariance)) => {
                &&& outcome == Ok::<(), FilterError>(())
                &&& post.state().fractions() == state
                &&& post.covariance().fractions() == covariance
            },
            Err(e) => {
                &&& outcome == Err::<(), FilterError>(e)
                &&& post.state() == pre.state()
                &&& post.covariance() == pre.covariance()
            },
        }
        &&& outcome is Ok ==> {
            &&& invertible(total, STATE_FACTORS as nat)
            &&& post.state()@ == fused_mean(
                measurement@,
                measurement_covariance@,
                pre.state()@,
                pre.covariance()@,
            )
            &&& post.covariance()@ == fused_covariance(measurement_covariance@, pre.covariance()@)
        }
        &&& outcome == Err::<(), FilterError>(FilterError::SingularCovariance) ==> !invertible(
            total,
            STATE_FACTORS as nat,
        )
    }

    /// Whether `post` and `outcome` are what a step in time by `dt` followed
    /// by the measurement makes of `pre`.
    pub open spec fn stepped(
        pre: Self,
        dt: Ratio,
        measurement: SimpleVector<STATE_FACTORS>,
        measurement_covariance: SimpleSquareMatrix<STATE_FACTORS>,
        outcome: Result<(), FilterError>,
        post: Self,
    ) -> bool {
        exists|between: Self| #[trigger]
            Self::advanced(pre, dt, between) && Self::measured(
                between,
                measurement,
                measurement_covariance,
                outcome,
                post,
            )
    }

    /// Whether the evolution function `f` gives one result for each input.
    pub open spec fn deterministic(f: F) -> bool {
        forall|
            input: (SimpleVector<STATE_FACTORS>, SimpleSquareMatrix<STATE_FACTORS>, Ratio),
            one: (SimpleVector<STATE_FACTORS>, SimpleSquareMatrix<STATE_FACTORS>),
            other: (SimpleVector<STATE_FACTORS>, SimpleSquareMatrix<STATE_FACTORS>),
        |
            call_ensures(f, input, one) && call_ensures(f, input, other) ==> one == other
    }

    /// Applying a measurement has one result: the outcome and the estimate
    /// afterwards are determined by the estimate before and the measurement.
    pub proof fn lemma_measured_once(
        pre: Self,
        measurement: SimpleVector<STATE_FACTORS>,
        measurement_covariance: SimpleSquareMatrix<STATE_FACTORS>,
        outcome_1: Result<(), FilterError>,
        post_1: Self,
        outcome_2: Result<(), FilterError>,
        post_2: Self,
    )
        requires
            Self::measured(pre, measurement, measurement_covariance, outcome_1, post_1),
            Self::measured(pre, measurement, measurement_covariance, outcome_2, post_2),
        ensures
            outcome_1 == outcome_2,
            post_1 == post_2,
    {
        post_1.current_state.lemma_fractions_determine(post_2.current_state);
        post_1.current_covariance.lemma_fractions_determine(post_2.current_covariance);
    }

    /// A step with a measurement gives what a step in time followed by the
    /// measurement gives: with an evolution function that gives one result for
    /// each input, whatever `step_with_measurement` makes of `pre` is what
    /// `apply_measurement` makes of what `step_time` makes of `pre`.
    pub proof fn lemma_step_is_time_then_measurement(
        pre: Self,
        dt: Ratio,
        measurement: SimpleVector<STATE_FACTORS>,
        measurement_covariance: SimpleSquareMatrix<STATE_FACTORS>,
        outcome_step: Result<(), FilterError>,
        post_step: Self,
        between: Self,
        outcome: Result<(), FilterError>,
        post: Self,
    )
        requires
            Self::deterministic(pre.evolution()),
            Self::stepped(pre, dt, measurement, measurement_covariance, outcome_step, post_step),
            Self::advanced(pre, dt, between),
            Self::measured(between, measurement, measurement_covariance, outcome, post),
        ensures
            outcome_step == outcome,
            post_step == post,
    {
        let other = choose|other: Self| #[trigger]
            Self::advanced(pre, dt, other) && Self::measured(
                other,
                measurement,
                measurement_covariance,
                outcome_step,
                post_step,
            );
        let input = (pre.state(), pre.covariance(), dt);
        assert(call_ensures(pre.evolution(), input, (other.state(), other.covariance())));
        assert(call_ensures(pre.evolution(), input, (between.state(), between.covariance())));
        assert((other.state(), other.covariance()) == (between.state(), between.covariance()));
        assert(other == between);
        Self::lemma_measured_once(
            between,
            measurement,
            measurement_covariance,
            outcome_step,
            post_step,
            outcome,
            post,
        );
    }

    /// A filter that starts from the given estimate.
    pub fn new(
        current_state: SimpleVector<STATE_FACTORS>,
        current_covariance: SimpleSquareMatrix<STATE_FACTORS>,
        evolution_function: F,
    ) -> (filter: Self)
        ensures
            filter.state() == current_state,
            filter.covariance() == current_covariance,
            filter.evolution() == evolution_function,
    {
        KalmanFilter { current_state, current_covariance, evolution_function }
    }

    /// Moves time forward by `dt` and then applies a measurement.
    ///
    /// This is [`Self::step_time`] followed by [`Self::apply_measurement`]:
    /// when the measurement cannot be applied, the time has still moved.
    pub fn step_with_measurement(
        &mut self,
        dt: Ratio,
        measurement: &SimpleVector<STATE_FACTORS>,
        measurement_covariance: &SimpleSquareMatrix<STATE_FACTORS>,
    ) -> (r: Result<(), FilterError>)
        requires
            call_requires(
                old(self).evolution(),
                (old(self).state(), old(self).covariance(), dt),
            ),
        ensures
            Self::stepped(*old(self), dt, *measurement, *measurement_covariance, r, *final(self)),
    {
        self.step_time(dt);
        let ghost between = *self;
        let r = self.apply_measurement(measurement, measurement_covariance);
        assert(Self::advanced(*old(self), dt, between) && Self::measured(
            between,
            *measurement,
            *measurement_covariance,
            r,
            *self,
        ));
        r
    }

    /// Moves time forward by `dt`: the estimate becomes what the evolution
    /// function makes of it.
    pub fn step_time(&mut self, dt: Ratio)
        requires
            call_requires(
                old(self).evolution(),
                (old(self).state(), old(self).covariance(), dt),
            ),
        ensures
            Self::advanced(*old(self), dt, *final(self)),
    {
        let (state, covariance) = (self.evolution_function)(
            self.current_state,
            self.current_covariance,
            dt,
        );
        self.current_state = state;
        self.current_covariance = covariance;
    }

    /// Fuses a measurement and its covariance into the estimate. No time
    /// passes.
    ///
    /// When this fails, the estimate is left as it was.
    pub fn apply_measurement(
        &mut self,
        measurement: &SimpleVector<STATE_FACTORS>,
        measurement_covariance: &SimpleSquareMatrix<STATE_FACTORS>,
    ) -> (r: Result<(), FilterError>)
        ensures
            Self::measured(*old(self), *measurement, *measurement_covariance, r, *final(self)),
    {
        match combine_measurements(
            measurement,
            measurement_covariance,
            &self.current_state,
            &self.current_covariance,
        ) {
            Ok((state, covariance)) => {
                self.current_state = state;
                self.current_covariance = covariance;
                Ok(())
            },
            Err(e) => Err(e),
        }
    }

    /// The current estimate of the state.
    pub fn get_current_state(&self) -> (state: SimpleVector<STATE_FACTORS>)
        ensures
            state == self.state(),
    {
        self.current_state
    }

    /// The covariance of the current estimate of the state.
    pub fn get_current_covariance(&self) -> (covariance: SimpleSquareMatrix<STATE_FACTORS>)
        ensures
            covariance == self.covariance(),
    {
        self.current_covariance
    }
}

} // verus!
