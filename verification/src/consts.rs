//! The matcher's tunable limits and its fixed capacities.

use vstd::prelude::*;

verus! {

/// Most minutiae that a raw minutiae list may hold before pruning.
pub const MAX_FILE_MINUTIAE: usize = 1000;

/// Most pairs that a pair index holds.
pub const MAX_NUMBER_OF_PAIRS: usize = 20000;

/// One more than the greatest endpoint: prints hold at most this many minutiae.
pub const MAX_NUMBER_OF_MINUTIAE: usize = 200;

/// Fewest edges that `limit_edges` keeps when that many exist.
pub const MIN_NUMBER_OF_EDGES: usize = 500;

/// One more than the most edges that one print yields.
pub const MAX_NUMBER_OF_EDGES: usize = 20000;

/// Greatest distance limit whose square still fits in an `i32`.
pub const MAX_DISTANCE_LIMIT: i32 = 46340;

/// A full turn, in degrees.
pub const FULL_TURN: i32 = 360;

/// The values that steer one comparison.
///
/// The length tolerance `factor` is the fraction
/// `factor_numerator / factor_denominator`.
#[derive(Clone, Copy, Debug)]
pub struct Config {
    pub max_minutia_distance: i32,
    pub max_minutia_distance_squared: i32,
    pub min_number_of_pairs_to_build_cluster: usize,
    pub max_number_of_clusters: usize,
    pub score_threshold: u32,
    pub angle_lower_bound: i32,
    pub angle_upper_bound: i32,
    pub max_number_of_groups: usize,
    pub factor_numerator: u32,
    pub factor_denominator: u32,
    pub strict_mode: bool,
}

impl Config {
    /// The values out of the box.
    pub open spec fn spec_default() -> Config {
        Config {
            max_minutia_distance: 125,
            max_minutia_distance_squared: 5625,
            min_number_of_pairs_to_build_cluster: 3,
            max_number_of_clusters: 2000,
            score_threshold: 8,
            angle_lower_bound: 11,
            angle_upper_bound: 349,
            max_number_of_groups: 10,
            factor_numerator: 1,
            factor_denominator: 20,
            strict_mode: true,
        }
    }

    /// A configuration that the matcher can work with: the distance limit can
    /// be squared, a cluster has at least one pair, at least one cluster may
    /// be built and every cluster number fits beside the two markers, the
    /// angle bounds add up to a full turn, and the factor is a fraction.
    pub open spec fn wf(&self) -> bool {
        &&& 0 <= self.max_minutia_distance <= MAX_DISTANCE_LIMIT
        &&& 1 <= self.min_number_of_pairs_to_build_cluster
        &&& 1 <= self.max_number_of_clusters <= 0x7fff_ffff
        &&& self.angle_upper_bound == FULL_TURN - self.angle_lower_bound
        &&& self.factor_denominator > 0
    }

    /// The configuration with the values out of the box.
    pub fn new() -> (config: Config)
        ensures
            config == Config::spec_default(),
            config.wf(),
    {
        Config {
            max_minutia_distance: 125,
            max_minutia_distance_squared: 5625,
            min_number_of_pairs_to_build_cluster: 3,
            max_number_of_clusters: 2000,
            score_threshold: 8,
            angle_lower_bound: 11,
            angle_upper_bound: 349,
            max_number_of_groups: 10,
            factor_numerator: 1,
            factor_denominator: 20,
            strict_mode: true,
        }
    }
}

impl Default for Config {
    /// The configuration with the values out of the box.
    fn default() -> (config: Config)
        ensures
            config == Config::spec_default(),
            config.wf(),
    {
        Config::new()
    }
}

/// Greatest distance between the two minutiae of an edge.
pub fn max_minutia_distance(config: &Config) -> (n: i32)
    ensures
        n == config.max_minutia_distance,
{
    config.max_minutia_distance
}

/// Sets the greatest distance between the two minutiae of an edge.
pub fn set_max_minutia_distance(config: &mut Config, n: i32)
    requires
        0 <= n <= MAX_DISTANCE_LIMIT,
    ensures
        *final(config) == (Config { max_minutia_distance: n, ..*old(config) }),
{
    config.max_minutia_distance = n;
}

/// Squared length up to which `limit_edges` counts edges.
pub fn max_minutia_distance_squared(config: &Config) -> (n: i32)
    ensures
        n == config.max_minutia_distance_squared,
{
    config.max_minutia_distance_squared
}

/// Fewest pairs that make a cluster.
pub fn min_number_of_pairs_to_build_cluster(config: &Config) -> (n: usize)
    ensures
        n == config.min_number_of_pairs_to_build_cluster,
{
    config.min_number_of_pairs_to_build_cluster
}

/// Sets the fewest pairs that make a cluster.
pub fn set_min_number_of_pairs_to_build_cluster(config: &mut Config, n: usize)
    requires
        1 <= n,
    ensures
        *final(config) == (Config { min_number_of_pairs_to_build_cluster: n, ..*old(config) }),
{
    config.min_number_of_pairs_to_build_cluster = n;
}

/// Most clusters that one comparison builds.
pub fn max_number_of_clusters(config: &Config) -> (n: usize)
    ensures
        n == config.max_number_of_clusters,
{
    config.max_number_of_clusters
}

/// Sets the most clusters that one comparison builds.
pub fn set_max_number_of_clusters(config: &mut Config, n: usize)
    requires
        1 <= n <= 0x7fff_ffff,
    ensures
        *final(config) == (Config { max_number_of_clusters: n, ..*old(config) }),
{
    config.max_number_of_clusters = n;
}

/// Score from which on the contributing clusters are collected.
pub fn score_threshold(config: &Config) -> (n: u32)
    ensures
        n == config.score_threshold,
{
    config.score_threshold
}

/// Two angles differ when their distance lies strictly between this bound
/// and `angle_upper_bound`.
pub fn angle_lower_bound(config: &Config) -> (n: i32)
    ensures
        n == config.angle_lower_bound,
{
    config.angle_lower_bound
}

/// A full turn less the lower angle bound.
pub fn angle_upper_bound(config: &Config) -> (n: i32)
    ensures
        n == config.angle_upper_bound,
{
    config.angle_upper_bound
}

/// Sets the lower angle bound to `n` and the upper one to `360 - n`.
pub fn set_angle_diff(config: &mut Config, n: i32)
    requires
        FULL_TURN - n <= i32::MAX,
    ensures
        *final(config) == (Config {
            angle_lower_bound: n,
            angle_upper_bound: (FULL_TURN - n) as i32,
            ..*old(config)
        }),
{
    config.angle_lower_bound = n;
    config.angle_upper_bound = FULL_TURN - n;
}

/// Most groups of rival partners that cluster growth keeps.
pub fn max_number_of_groups(config: &Config) -> (n: usize)
    ensures
        n == config.max_number_of_groups,
{
    config.max_number_of_groups
}

/// Sets the most groups of rival partners that cluster growth keeps.
pub fn set_max_number_of_groups(config: &mut Config, n: usize)
    ensures
        *final(config) == (Config { max_number_of_groups: n, ..*old(config) }),
{
    config.max_number_of_groups = n;
}

/// The length tolerance as numerator and denominator.
pub fn factor_fraction(config: &Config) -> (f: (u32, u32))
    ensures
        f == (config.factor_numerator, config.factor_denominator),
{
    (config.factor_numerator, config.factor_denominator)
}

/// Sets the length tolerance to `numerator / denominator`.
pub fn set_factor_fraction(config: &mut Config, numerator: u32, denominator: u32)
    requires
        denominator > 0,
    ensures
        *final(config) == (Config {
            factor_numerator: numerator,
            factor_denominator: denominator,
            ..*old(config)
        }),
{
    config.factor_numerator = numerator;
    config.factor_denominator = denominator;
}

} // verus!
