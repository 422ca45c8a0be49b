//! Arithmetic on whole degrees in the half-open turn (-180, 180].

use vstd::prelude::*;
use crate::consts::Config;
use crate::slope::{direction, direction_degree, lemma_direction_degree_bounds, MAX_COMPONENT};

verus! {

/// Whether `a` is an angle in normal form.
pub open spec fn is_angle(a: int) -> bool {
    -180 < a <= 180
}

/// The angle in (-180, 180] that differs from `deg` by whole turns.
pub open spec fn spec_normalize_angle(deg: int) -> int {
    let r = deg % 360;
    if r > 180 {
        r - 360
    } else {
        r
    }
}

/// Brings an angle into normal form.
pub fn normalize_angle(deg: i32) -> (r: i32)
    ensures
        r == spec_normalize_angle(deg as int),
        is_angle(r as int),
        (r - deg) % 360 == 0,
{
    let m: i32 = if deg >= 0 {
        deg % 360
    } else {
        359 - ((-(deg + 1)) % 360)
    };
    if m > 180 {
        m - 360
    } else {
        m
    }
}

/// The same on a wider integer, for sums and differences of angles.
pub fn normalize_wide(deg: i64) -> (r: i32)
    ensures
        r == spec_normalize_angle(deg as int),
        is_angle(r as int),
{
    let m: i64 = if deg >= 0 {
        deg % 360
    } else {
        359 - ((-(deg + 1)) % 360)
    };
    if m > 180 {
        (m - 360) as i32
    } else {
        m as i32
    }
}

/// Whether `a` and `b` point in opposite directions: they differ by exactly
/// half a turn.
pub open spec fn spec_are_angles_opposite(a: int, b: int) -> bool {
    a == b + 180 || a == b - 180
}

/// Tells whether two angles differ by exactly half a turn.
pub fn are_angles_opposite(a: i32, b: i32) -> (opposite: bool)
    ensures
        opposite == spec_are_angles_opposite(a as int, b as int),
{
    let difference: i64 = a as i64 - b as i64;
    difference == 180 || difference == -180
}

/// Whether `a` and `b` are equal up to the angle tolerance: their distance is
/// not strictly between the lower and the upper bound, so angles that are
/// close across the seam at 180 degrees are equal too.
pub open spec fn spec_are_angles_equal_with_tolerance(config: Config, a: int, b: int) -> bool {
    let difference = if a >= b { a - b } else { b - a };
    !(config.angle_lower_bound < difference && difference < config.angle_upper_bound)
}

/// Tells whether two angles are equal up to the angle tolerance.
pub fn are_angles_equal_with_tolerance(config: &Config, a: i32, b: i32) -> (equal: bool)
    ensures
        equal == spec_are_angles_equal_with_tolerance(*config, a as int, b as int),
{
    let wide_a: i64 = a as i64;
    let wide_b: i64 = b as i64;
    let difference: i64 = if wide_a >= wide_b { wide_a - wide_b } else { wide_b - wide_a };
    !(difference > config.angle_lower_bound as i64 && difference < config.angle_upper_bound as i64)
}

/// Every integer is brought into normal form, and an angle in normal form
/// stays as it is.
pub proof fn lemma_normalize_angle(deg: int)
    ensures
        is_angle(spec_normalize_angle(deg)),
        (spec_normalize_angle(deg) - deg) % 360 == 0,
        is_angle(deg) ==> spec_normalize_angle(deg) == deg,
{
}

/// Equality up to the tolerance does not depend on the order of the two
/// angles. Every angle is equal to itself, unless the bounds have zero
/// strictly between them, as they have with a lower bound below zero.
pub proof fn lemma_tolerant_equality_symmetric_reflexive(config: Config, a: int, b: int)
    ensures
        spec_are_angles_equal_with_tolerance(config, a, b) == spec_are_angles_equal_with_tolerance(
            config,
            b,
            a,
        ),
        spec_are_angles_equal_with_tolerance(config, a, a) == (config.angle_lower_bound >= 0
            || config.angle_upper_bound <= 0),
{
}

/// Of two angles in normal form, the first is opposite to the second exactly
/// when the second is opposite to the first, and exactly when the first is
/// the second plus half a turn, up to whole turns.
pub proof fn lemma_opposite_angles(a: int, b: int)
    requires
        is_angle(a),
        is_angle(b),
    ensures
        spec_are_angles_opposite(a, b) == spec_are_angles_opposite(b, a),
        spec_are_angles_opposite(a, b) == ((a - (b + 180)) % 360 == 0),
{
}

/// The nearest whole degree of the direction of `(dx, dy)`, from -180 to 180;
/// 90 for every vector with `dx == 0`.
pub open spec fn spec_atan2_round_degree(dx: int, dy: int) -> int {
    if dx == 0 {
        90
    } else {
        direction_degree(dx, dy)
    }
}

/// The direction of `(dx, dy)` in whole degrees.
pub fn atan2_round_degree(dx: i32, dy: i32) -> (degree: i32)
    ensures
        degree == spec_atan2_round_degree(dx as int, dy as int),
        -180 <= degree <= 180,
        dx > 0 ==> -90 <= degree <= 90,
{
    proof {
        lemma_direction_degree_bounds(dx as int, dy as int);
    }
    if dx == 0 {
        90
    } else {
        direction(dx as i64, dy as i64)
    }
}

/// The slope of the line through the origin and `(dx, dy)` as an angle in
/// normal form: the nearest whole degree of its direction, with -180 turned
/// into 180; for `dx == 0` it is -90 where `dy <= 0` and 90 otherwise.
pub open spec fn spec_slope_in_degrees(dx: int, dy: int) -> int {
    if dx == 0 {
        if dy <= 0 {
            -90
        } else {
            90
        }
    } else {
        let d = direction_degree(dx, dy);
        if d <= -180 {
            d + 360
        } else {
            d
        }
    }
}

/// The slope of a vector whose components may be differences of coordinates.
pub fn slope_in_degrees_wide(dx: i64, dy: i64) -> (degree: i32)
    requires
        -MAX_COMPONENT <= dx <= MAX_COMPONENT,
        -MAX_COMPONENT <= dy <= MAX_COMPONENT,
    ensures
        degree == spec_slope_in_degrees(dx as int, dy as int),
        is_angle(degree as int),
{
    if dx != 0 {
        let d: i32 = direction(dx, dy);
        if d <= -180 {
            d + 360
        } else {
            d
        }
    } else if dy <= 0 {
        -90
    } else {
        90
    }
}

/// The slope of the line through the origin and `(dx, dy)` in whole degrees.
pub fn calculate_slope_in_degrees(dx: i32, dy: i32) -> (degree: i32)
    ensures
        degree == spec_slope_in_degrees(dx as int, dy as int),
        is_angle(degree as int),
{
    slope_in_degrees_wide(dx as i64, dy as i64)
}

/// What an average over angles needs of them: the sum and the number of the
/// negative ones, and the same of the others.
pub struct AngleTally {
    pub sum_of_negative: int,
    pub number_of_negative: int,
    pub sum_of_positive: int,
    pub number_of_positive: int,
}

impl AngleTally {
    /// The tally of no angles.
    pub open spec fn empty() -> AngleTally {
        AngleTally {
            sum_of_negative: 0,
            number_of_negative: 0,
            sum_of_positive: 0,
            number_of_positive: 0,
        }
    }

    /// The tally with one more angle counted.
    pub open spec fn push(self, value: int) -> AngleTally {
        if value < 0 {
            AngleTally {
                sum_of_negative: self.sum_of_negative + value,
                number_of_negative: self.number_of_negative + 1,
                ..self
            }
        } else {
            AngleTally {
                sum_of_positive: self.sum_of_positive + value,
                number_of_positive: self.number_of_positive + 1,
                ..self
            }
        }
    }

    /// The tally of all angles of `angles`.
    pub open spec fn of(angles: Seq<int>) -> AngleTally
        decreases angles.len(),
    {
        if angles.len() == 0 {
            AngleTally::empty()
        } else {
            AngleTally::of(angles.drop_last()).push(angles.last())
        }
    }

    /// How many angles were counted.
    pub open spec fn count(self) -> int {
        self.number_of_negative + self.number_of_positive
    }

    /// The sums are those of as many angles in normal form as were counted.
    pub open spec fn wf(self) -> bool {
        &&& 0 <= self.number_of_negative
        &&& 0 <= self.number_of_positive
        &&& -179 * self.number_of_negative <= self.sum_of_negative <= -self.number_of_negative
        &&& 0 <= self.sum_of_positive <= 180 * self.number_of_positive
    }

    /// The circular mean of the angles counted, as an angle in normal form.
    ///
    /// With `p` the mean of the non-negative angles and `n` that of the
    /// negative ones (each zero where there is none): where `p - n` exceeds
    /// half a turn, the negative angles are taken a full turn higher before
    /// all are averaged, and a mean beyond 180 is taken a turn lower again;
    /// otherwise all are averaged as they are. The mean is rounded to the
    /// nearest whole degree, halves away from zero, and -180 becomes 180. Of
    /// no angles at all the mean is zero.
    pub open spec fn circular_mean(self) -> int {
        let negatives = if self.number_of_negative > 1 { self.number_of_negative } else { 1 };
        let positives = if self.number_of_positive > 1 { self.number_of_positive } else { 1 };
        let all = self.count();
        let sum = self.sum_of_positive + self.sum_of_negative;
        if all <= 0 {
            0
        } else {
            let numerator = if self.sum_of_positive * negatives - self.sum_of_negative * positives
                > 180 * positives * negatives {
                let lifted = sum + 360 * self.number_of_negative;
                if lifted > 180 * all {
                    lifted - 360 * all
                } else {
                    lifted
                }
            } else {
                sum
            };
            let rounded = round_quotient(numerator, all);
            if rounded <= -180 {
                rounded + 360
            } else {
                rounded
            }
        }
    }
}

/// `numerator / denominator` rounded to the nearest integer, halves away from
/// zero, for a positive denominator.
pub open spec fn round_quotient(numerator: int, denominator: int) -> int {
    if numerator >= 0 {
        (2 * numerator + denominator) / (2 * denominator)
    } else {
        -((-2 * numerator + denominator) / (2 * denominator))
    }
}

/// A quotient of size up to 180 rounds to an integer of size up to 180.
pub proof fn lemma_round_quotient_bounds(numerator: int, denominator: int)
    requires
        denominator > 0,
        -180 * denominator <= numerator <= 180 * denominator,
    ensures
        -180 <= round_quotient(numerator, denominator) <= 180,
{
    let d = 2 * denominator;
    if numerator >= 0 {
        let x = 2 * numerator + denominator;
        assert(0 <= x / d <= 180) by (nonlinear_arith)
            requires
                d > 0,
                0 <= x < 181 * d,
        ;
    } else {
        let x = -2 * numerator + denominator;
        assert(0 <= x / d <= 180) by (nonlinear_arith)
            requires
                d > 0,
                0 <= x < 181 * d,
        ;
    }
}

/// The circular mean of angles in normal form is an angle in normal form.
pub proof fn lemma_circular_mean_is_angle(tally: AngleTally)
    requires
        tally.wf(),
    ensures
        is_angle(tally.circular_mean()),
{
    let all = tally.count();
    if all > 0 {
        let negatives = if tally.number_of_negative > 1 { tally.number_of_negative } else { 1 };
        let positives = if tally.number_of_positive > 1 { tally.number_of_positive } else { 1 };
        let sum = tally.sum_of_positive + tally.sum_of_negative;
        let numerator = if tally.sum_of_positive * negatives - tally.sum_of_negative * positives
            > 180 * positives * negatives {
            let lifted = sum + 360 * tally.number_of_negative;
            if lifted > 180 * all {
                lifted - 360 * all
            } else {
                lifted
            }
        } else {
            sum
        };
        assert(-180 * all < numerator <= 180 * all);
        lemma_round_quotient_bounds(numerator, all);
    }
}

/// The tally of angles in normal form is well formed, and counts them all.
pub proof fn lemma_tally_of_angles(angles: Seq<int>)
    requires
        forall|i: int| 0 <= i < angles.len() ==> is_angle(#[trigger] angles[i]),
    ensures
        AngleTally::of(angles).wf(),
        AngleTally::of(angles).count() == angles.len(),
    decreases angles.len(),
{
    if angles.len() > 0 {
        lemma_tally_of_angles(angles.drop_last());
        assert(is_angle(angles[angles.len() - 1]));
    }
}

/// Most angles that an averager counts.
pub const MAX_AVERAGED: usize = 0x7fff_ffff;

/// Averages angles across the seam between 180 and -180 degrees.
pub struct Averager {
    pub sum_of_negative: i64,
    pub number_of_negative: usize,
    pub sum_of_positive: i64,
    pub number_of_positive: usize,
}

impl View for Averager {
    type V = AngleTally;

    open spec fn view(&self) -> AngleTally {
        AngleTally {
            sum_of_negative: self.sum_of_negative as int,
            number_of_negative: self.number_of_negative as int,
            sum_of_positive: self.sum_of_positive as int,
            number_of_positive: self.number_of_positive as int,
        }
    }
}

impl Averager {
    /// The tally is that of angles in normal form, no more than `MAX_AVERAGED`.
    pub open spec fn wf(&self) -> bool {
        &&& self@.wf()
        &&& self@.count() <= MAX_AVERAGED
    }

    /// An averager that has counted nothing.
    pub fn new() -> (averager: Averager)
        ensures
            averager@ == AngleTally::empty(),
            averager.wf(),
    {
        Averager {
            sum_of_negative: 0,
            number_of_negative: 0,
            sum_of_positive: 0,
            number_of_positive: 0,
        }
    }

    /// Counts one more angle.
    pub fn push(&mut self, value: i32)
        requires
            old(self).wf(),
            old(self)@.count() < MAX_AVERAGED,
            is_angle(value as int),
        ensures
            final(self)@ == old(self)@.push(value as int),
            final(self).wf(),
    {
        if value < 0 {
            self.sum_of_negative = self.sum_of_negative + value as i64;
            self.number_of_negative = self.number_of_negative + 1;
        } else {
            self.sum_of_positive = self.sum_of_positive + value as i64;
            self.number_of_positive = self.number_of_positive + 1;
        }
    }

    /// The circular mean of the angles counted.
    pub fn average(self) -> (mean: i32)
        requires
            self.wf(),
        ensures
            mean == self@.circular_mean(),
            is_angle(mean as int),
    {
        proof {
            lemma_circular_mean_is_angle(self@);
        }
        let negatives: i128 = if self.number_of_negative > 1 {
            self.number_of_negative as i128
        } else {
            1
        };
        let positives: i128 = if self.number_of_positive > 1 {
            self.number_of_positive as i128
        } else {
            1
        };
        let all: i128 = self.number_of_positive as i128 + self.number_of_negative as i128;
        if all == 0 {
            return 0;
        }
        let sum_of_positive: i128 = self.sum_of_positive as i128;
        let sum_of_negative: i128 = self.sum_of_negative as i128;
        let sum: i128 = sum_of_positive + sum_of_negative;
        assert(0 <= sum_of_positive * negatives <= 0x100_0000_0000 * 0x8000_0000)
            by (nonlinear_arith)
            requires
                0 <= sum_of_positive <= 0x100_0000_0000,
                0 < negatives <= 0x8000_0000,
        ;
        assert(-0x100_0000_0000 * 0x8000_0000 <= sum_of_negative * positives <= 0)
            by (nonlinear_arith)
            requires
                -0x100_0000_0000 <= sum_of_negative <= 0,
                0 < positives <= 0x8000_0000,
        ;
        assert(0 <= positives * negatives <= 0x8000_0000 * 0x8000_0000) by (nonlinear_arith)
            requires
                0 < positives <= 0x8000_0000,
                0 < negatives <= 0x8000_0000,
        ;
        let numerator: i128 = if sum_of_positive * negatives - sum_of_negative * positives > 180
            * (positives * negatives) {
            let lifted: i128 = sum + 360 * (self.number_of_negative as i128);
            if lifted > 180 * all {
                lifted - 360 * all
            } else {
                lifted
            }
        } else {
            sum
        };
        assert(180 * (positives * negatives) == 180 * positives * negatives) by (nonlinear_arith);
        let rounded: i128 = if numerator >= 0 {
            (2 * numerator + all) / (2 * all)
        } else {
            -((-2 * numerator + all) / (2 * all))
        };
        proof {
            lemma_round_quotient_bounds(numerator as int, all as int);
        }
        if rounded <= -180 {
            (rounded + 360) as i32
        } else {
            rounded as i32
        }
    }
}

/// The circular mean of two angles.
pub open spec fn spec_average_angles(a: int, b: int) -> int {
    AngleTally::empty().push(a).push(b).circular_mean()
}

/// The circular mean of two angles in normal form.
pub fn average_angles(a: i32, b: i32) -> (mean: i32)
    requires
        is_angle(a as int),
        is_angle(b as int),
    ensures
        mean == spec_average_angles(a as int, b as int),
        is_angle(mean as int),
{
    let mut averager = Averager::new();
    averager.push(a);
    averager.push(b);
    averager.average()
}

} // verus!
