//! The values that the matcher works on: minutiae, edges and pairs.

use vstd::prelude::*;
use crate::consts::MAX_NUMBER_OF_MINUTIAE;

verus! {

/// The two kinds of ridge feature that a score function may tell apart.
#[derive(Clone, Copy, Debug, PartialEq, Eq, Structural)]
pub enum MinutiaKind {
    Type0,
    Type1,
}

/// Represents a single minutia.
#[derive(Clone, Copy, Debug)]
pub struct Minutia {
    /// X coordinate.
    pub x: i32,
    /// Y coordinate.
    pub y: i32,
    /// Orientation in degrees.
    pub theta: i32,
    /// Type of the minutia.
    pub kind: MinutiaKind,
}

/// Represents a type-safe index of a minutia in the list of minutiae.
#[derive(Clone, Copy, Debug, PartialEq, Eq, Structural, PartialOrd, Ord)]
pub struct Endpoint(pub u32);

impl Endpoint {
    /// Whether the endpoint can index a print of the greatest size.
    pub open spec fn wf(&self) -> bool {
        self.0 < MAX_NUMBER_OF_MINUTIAE
    }

    /// The endpoint as a place in a list of minutiae.
    pub open spec fn index(&self) -> int {
        self.0 as int
    }

    /// The endpoint with the given number.
    pub fn new(index: u32) -> (endpoint: Endpoint)
        ensures
            endpoint.0 == index,
    {
        Endpoint(index)
    }

    /// The endpoint as a place in a list of minutiae.
    pub fn as_usize(self) -> (index: usize)
        ensures
            index == self.0,
    {
        self.0 as usize
    }
}

/// Pair of corresponding minutiae on two fingerprints (Probe and Gallery).
#[derive(Clone, Copy, Debug)]
pub struct Pair {
    /// Difference between theta angles on both fingerprints.
    pub delta_theta: i32,
    /// Endpoint K on the Probe fingerprint.
    pub probe_k: Endpoint,
    /// Corresponding endpoint K the Gallery fingerprint.
    pub gallery_k: Endpoint,
    /// Endpoint J on the Probe fingerprint.
    pub probe_j: Endpoint,
    /// Corresponding endpoint J on the Gallery fingerprint.
    pub gallery_j: Endpoint,
    /// Points that should be added to the cluster's score for inclusion of this pair to this cluster.
    pub points: u32,
}

impl Pair {
    /// All four endpoints are indices and the rotation is an angle in normal
    /// form.
    pub open spec fn wf(&self) -> bool {
        &&& self.probe_k.wf()
        &&& self.probe_j.wf()
        &&& self.gallery_k.wf()
        &&& self.gallery_j.wf()
        &&& -180 < self.delta_theta <= 180
    }
}

/// Denotes order of minutiae from which `min_beta` and `max_beta` was taken.
#[derive(Clone, Copy, Debug, PartialEq, Eq, Structural)]
pub enum BetaOrder {
    /// `min_beta` contains `beta` from minutia K, `max_beta` from minutia J
    KJ,
    /// `min_beta` contains `beta` from minutia J, `max_beta` from minutia K
    JK,
}

/// Represents a pair of minutiae on a single fingerprint.
#[derive(Clone, Copy, Debug)]
pub struct Edge {
    /// Distance between the minutiae squared.
    pub distance_squared: i32,
    /// The smallest of the `beta` angles of the minutia.
    pub min_beta: i32,
    /// The greatest of the `beta` angles of the minutia.
    pub max_beta: i32,
    /// The leftmost endpoint (with smallest `x` coordinate).
    pub endpoint_k: Endpoint,
    /// The rightmost endpoint (with greatest `x` coordinate).
    pub endpoint_j: Endpoint,
    /// The slope (in degrees) of a line passing through both endpoints.
    pub theta_kj: i32,
    /// Order of endpoints the `min_beta` and `max_beta` were taken from.
    pub beta_order: BetaOrder,
}

impl Edge {
    /// The edge's sort key: length first, then the two angles.
    pub open spec fn key(&self) -> (int, int, int) {
        (self.distance_squared as int, self.min_beta as int, self.max_beta as int)
    }

    /// The two angles are in normal form and in order.
    pub open spec fn betas_ordered(&self) -> bool {
        &&& -180 < self.min_beta <= self.max_beta <= 180
    }
}

/// How the y axis of a minutiae list runs.
#[derive(Clone, Copy, Debug, PartialEq, Eq, Structural)]
pub enum Format {
    NistInternal,
    Ansi,
}

/// Which of the two prints a minutia belongs to.
#[derive(Clone, Copy, Debug, PartialEq, Eq, Structural)]
pub enum FingerprintKind {
    Probe,
    Gallery,
}

} // verus!
