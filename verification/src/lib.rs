//! Synthetic 2-D point clouds clustered around configurable Gaussian
//! centers. Coordinates are fixed-point hundredths throughout, so the
//! two-decimal text format is exact. The core is a rejection sampler
//! that draws each coordinate from a bounded domain against a dyadic
//! Gaussian acceptance kernel; around it stand the cluster table, the
//! point generator, and a strict text codec for the one-line-per-point
//! output format.

pub mod density;
pub mod sampler;
pub mod generator;
pub mod codec;

use vstd::prelude::*;

verus! {

/// Inclusive lower bound of the sampling domain, in fixed-point
/// hundredths: -300.00.
pub const DOMAIN_LO: i64 = -30000;

/// Exclusive upper bound of the sampling domain, in fixed-point
/// hundredths: 300.00.
pub const DOMAIN_HI: i64 = 30000;

/// True of a coordinate that lies inside the sampling domain.
pub open spec fn in_domain(c: int) -> bool {
    DOMAIN_LO <= c < DOMAIN_HI
}

} // verus!
