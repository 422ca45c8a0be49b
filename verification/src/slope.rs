//! Whole-degree directions of integer vectors, by exact integer arithmetic.
//!
//! The direction of a vector changes its nearest whole degree where its slope
//! passes the tangent of a half degree. Those tangents are irrational, so a
//! vector with integer components never lies on such a boundary, and a table
//! of the tangents in fixed point decides on which side it lies.

use vstd::prelude::*;

verus! {

/// Scale of the fixed-point tangents: two to the power of eighty.
pub const TANGENT_SCALE: u128 = 0x1_0000_0000_0000_0000_0000;

/// Greatest size of a vector component that the directions below accept.
pub const MAX_COMPONENT: i64 = 0x1_0000_0000;

/// The tangent of `k + 1/2` degrees, times `TANGENT_SCALE`, rounded down, for
/// `0 <= k < 45`. No fraction with a denominator up to two to the power of
/// thirty-three lies between an entry over the scale and the tangent itself,
/// so for components up to `MAX_COMPONENT` a comparison with an entry decides
/// as the comparison with the tangent would.
pub open spec fn half_degree_tangent(k: int) -> int {
    if k == 0 {
        10550135796611577575706
    } else if k == 1 {
        31656836695393704534658
    } else if k == 2 {
        52782841190820475856974
    } else if k == 3 {
        73941070695202473858498
    } else if k == 4 {
        95144525428022111800353
    } else if k == 5 {
        116406316512121904123124
    } else if k == 6 {
        137739698649358126373569
    } else if k == 7 {
        159158103550155522175417
    } else if k == 8 {
        180675174298221364324984
    } else if k == 9 {
        202304800840205621919258
    } else if k == 10 {
        224061156800447776538979
    } else if k == 11 {
        245958737833276699466687
    } else if k == 12 {
        268012401739804832619253
    } else if k == 13 {
        290237410592992378933290
    } else if k == 14 {
        312649475134200158929459
    } else if k == 15 {
        335264801726793556689581
    } else if k == 16 {
        358100142177946689162026
    } else if k == 17 {
        381172846769025075389793
    } else if k == 18 {
        404500920868262519436605
    } else if k == 19 {
        428103085537436641190958
    } else if k == 20 {
        451998842587520435602213
    } else if k == 21 {
        476208544587582630137351
    } else if k == 22 {
        500753470387389255430907
    } else if k == 23 {
        525655906778230104059839
    } else if k == 24 {
        550939236989635878358262
    } else if k == 25 {
        576628036803247657103895
    } else if k == 26 {
        602748179160774479446901
    } else if k == 27 {
        629326948252639980819555
    } else if k == 28 {
        656393164199831721402018
    } else if k == 29 {
        683977319586295732578172
    } else if k == 30 {
        712111729266127408339367
    } else if k == 31 {
        740830695062558018319777
    } else if k == 32 {
        770170687198804242840762
    } else if k == 33 {
        800170544559590163793815
    } else if k == 34 {
        830871696182983282026057
    } else if k == 35 {
        862318406732820606361514
    } else if k == 36 {
        894558049111736547599519
    } else if k == 37 {
        927641407854889340688043
    } else if k == 38 {
        961623017508568411343128
    } else if k == 39 {
        996561540862577222802090
    } else if k == 40 {
        1032520192690945706185396
    } else if k == 41 {
        1069567215587063951123659
    } else if k == 42 {
        1107776415587448958454126
    } else if k == 43 {
        1147227766601027476933465
    } else if k == 44 {
        1188008094245188529121941
    } else {
        0
    }
}

/// Whether the slope `b / a` lies above the tangent of `k + 1/2` degrees.
pub open spec fn slope_exceeds(a: int, b: int, k: int) -> bool {
    b * TANGENT_SCALE as int > half_degree_tangent(k) * a
}

/// How many of the first `n` half-degree tangents the slope `b / a` exceeds.
pub open spec fn thresholds_below(a: int, b: int, n: int) -> int
    decreases n,
{
    if n <= 0 {
        0
    } else {
        thresholds_below(a, b, n - 1) + if slope_exceeds(a, b, n - 1) {
            1int
        } else {
            0int
        }
    }
}

/// Nearest whole degree, from 0 to 90, of the direction of `(a, b)` in the
/// first quadrant. Up to the diagonal it is the number of half-degree
/// tangents below the slope; beyond, the mirror image of that.
pub open spec fn quadrant_degree(a: int, b: int) -> int {
    if b <= a {
        thresholds_below(a, b, 45)
    } else {
        90 - thresholds_below(b, a, 45)
    }
}

/// Nearest whole degree, from -180 to 180, of the direction of `(dx, dy)`
/// with `dx != 0`, counted from the positive x axis towards positive y.
pub open spec fn direction_degree(dx: int, dy: int) -> int {
    if dx > 0 {
        if dy >= 0 {
            quadrant_degree(dx, dy)
        } else {
            -quadrant_degree(dx, -dy)
        }
    } else {
        if dy >= 0 {
            180 - quadrant_degree(-dx, dy)
        } else {
            quadrant_degree(-dx, -dy) - 180
        }
    }
}

/// Of `n` tangents no more than `n` lie below a slope.
proof fn lemma_thresholds_below_bounds(a: int, b: int, n: int)
    requires
        0 <= n,
    ensures
        0 <= thresholds_below(a, b, n) <= n,
    decreases n,
{
    if n > 0 {
        lemma_thresholds_below_bounds(a, b, n - 1);
    }
}

/// Every direction lies between -180 and 180 degrees.
pub proof fn lemma_direction_degree_bounds(dx: int, dy: int)
    ensures
        -180 <= direction_degree(dx, dy) <= 180,
        dx > 0 ==> -90 <= direction_degree(dx, dy) <= 90,
{
    let a = if dx > 0 { dx } else { -dx };
    let b = if dy >= 0 { dy } else { -dy };
    lemma_thresholds_below_bounds(a, b, 45);
    lemma_thresholds_below_bounds(b, a, 45);
}

/// The entry of the table of tangents at `k`.
fn tangent_entry(k: usize) -> (t: u128)
    requires
        k < 45,
    ensures
        t == half_degree_tangent(k as int),
        t < TANGENT_SCALE,
{
    match k {
        0 => 10550135796611577575706,
        1 => 31656836695393704534658,
        2 => 52782841190820475856974,
        3 => 73941070695202473858498,
        4 => 95144525428022111800353,
        5 => 116406316512121904123124,
        6 => 137739698649358126373569,
        7 => 159158103550155522175417,
        8 => 180675174298221364324984,
        9 => 202304800840205621919258,
        10 => 224061156800447776538979,
        11 => 245958737833276699466687,
        12 => 268012401739804832619253,
        13 => 290237410592992378933290,
        14 => 312649475134200158929459,
        15 => 335264801726793556689581,
        16 => 358100142177946689162026,
        17 => 381172846769025075389793,
        18 => 404500920868262519436605,
        19 => 428103085537436641190958,
        20 => 451998842587520435602213,
        21 => 476208544587582630137351,
        22 => 500753470387389255430907,
        23 => 525655906778230104059839,
        24 => 550939236989635878358262,
        25 => 576628036803247657103895,
        26 => 602748179160774479446901,
        27 => 629326948252639980819555,
        28 => 656393164199831721402018,
        29 => 683977319586295732578172,
        30 => 712111729266127408339367,
        31 => 740830695062558018319777,
        32 => 770170687198804242840762,
        33 => 800170544559590163793815,
        34 => 830871696182983282026057,
        35 => 862318406732820606361514,
        36 => 894558049111736547599519,
        37 => 927641407854889340688043,
        38 => 961623017508568411343128,
        39 => 996561540862577222802090,
        40 => 1032520192690945706185396,
        41 => 1069567215587063951123659,
        42 => 1107776415587448958454126,
        43 => 1147227766601027476933465,
        44 => 1188008094245188529121941,
        _ => 0,
    }
}

/// Counts the half-degree tangents below the slope `b / a`.
fn count_thresholds(a: u64, b: u64) -> (n: i32)
    requires
        a <= MAX_COMPONENT,
        b <= MAX_COMPONENT,
    ensures
        n == thresholds_below(a as int, b as int, 45),
        0 <= n <= 45,
{
    let scaled: u128 = (b as u128) * TANGENT_SCALE;
    let mut n: i32 = 0;
    let mut k: usize = 0;
    while k < 45
        invariant
            k <= 45,
            a <= MAX_COMPONENT,
            scaled == b * TANGENT_SCALE,
            n == thresholds_below(a as int, b as int, k as int),
            0 <= n <= k,
        decreases 45 - k,
    {
        let t: u128 = tangent_entry(k);
        assert(t * a <= TANGENT_SCALE * MAX_COMPONENT) by (nonlinear_arith)
            requires
                t < TANGENT_SCALE,
                a <= MAX_COMPONENT,
        ;
        if scaled > t * (a as u128) {
            n = n + 1;
        }
        k = k + 1;
    }
    n
}

/// Nearest whole degree of a direction in the first quadrant.
fn quadrant(a: u64, b: u64) -> (d: i32)
    requires
        a <= MAX_COMPONENT,
        b <= MAX_COMPONENT,
    ensures
        d == quadrant_degree(a as int, b as int),
        0 <= d <= 90,
{
    if b <= a {
        count_thresholds(a, b)
    } else {
        90 - count_thresholds(b, a)
    }
}

/// Nearest whole degree of the direction of `(dx, dy)`.
pub fn direction(dx: i64, dy: i64) -> (d: i32)
    requires
        dx != 0,
        -MAX_COMPONENT <= dx <= MAX_COMPONENT,
        -MAX_COMPONENT <= dy <= MAX_COMPONENT,
    ensures
        d == direction_degree(dx as int, dy as int),
        -180 <= d <= 180,
{
    if dx > 0 {
        if dy >= 0 {
            quadrant(dx as u64, dy as u64)
        } else {
            -quadrant(dx as u64, (-dy) as u64)
        }
    } else {
        if dy >= 0 {
            180 - quadrant((-dx) as u64, dy as u64)
        } else {
            quadrant((-dx) as u64, (-dy) as u64) - 180
        }
    }
}

} // verus!
