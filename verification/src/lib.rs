//! Fingerprint matching on minutiae: edges inside one print, pairs of edges
//! across two prints, clusters of consistent pairs, and the best compatible
//! combination of clusters, whose total is the match score.

pub mod assigner;
pub mod associations;
pub mod bozorth;
pub mod clusters;
pub mod combine;
pub mod consts;
pub mod endpoint_set;
pub mod find_edges;
pub mod groups;
pub mod growth;
pub mod isoparser;
pub mod match_edges;
pub mod math;
pub mod pair_holder;
pub mod parsing;
pub mod prof;
pub mod set_intersection;
pub mod slope;
pub mod sorting;
pub mod text;
pub mod types;
pub mod utils;
pub mod weird_sort;

use vstd::prelude::*;

pub use crate::bozorth::{match_score, BozorthState};
pub use crate::consts::Config;
pub use crate::find_edges::find_edges;
pub use crate::match_edges::match_edges_into_pairs;
pub use crate::pair_holder::PairHolder;
pub use crate::parsing::parse;
pub use crate::prof::timeit;
pub use crate::types::{BetaOrder, Edge, Format, Minutia, Pair};
pub use crate::utils::{limit_edges, prune};

verus! {

/// Whether the matcher reproduces the legacy algorithm in every detail.
pub fn is_strict_mode(config: &Config) -> (strict: bool)
    ensures
        strict == config.strict_mode,
{
    config.strict_mode
}

/// Chooses between the legacy behaviour (`true`) and the relaxed one.
pub fn set_mode(config: &mut Config, strict: bool)
    ensures
        *final(config) == (Config { strict_mode: strict, ..*old(config) }),
{
    config.strict_mode = strict;
}

} // verus!
