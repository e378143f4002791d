use vstd::prelude::*;
use rand::Rng;
use crate::density::{acceptance_weight, weight_of, WEIGHT_ONE, COORD_LIMIT};

verus! {

/// rand's `rand::rngs::ThreadRng`, the thread-local generator, carried
/// opaquely through the library; every draw goes through it.
#[verifier::external_type_specification]
#[verifier::external_body]
pub struct ExThreadRng(rand::rngs::ThreadRng);

/// Relies on rand's `Rng::gen_range` over a half-open `i64` range: it
/// panics on an empty range and otherwise returns a value drawn from
/// the range.
#[verifier::external_body]
pub(crate) fn gen_range_i64(rng: &mut rand::rngs::ThreadRng, lo: i64, hi: i64) -> (r: i64)
    requires
        lo < hi,
    ensures
        lo <= r < hi,
{
    rng.gen_range(lo..hi)
}

/// Cap on rejection attempts per coordinate. The rejection loop of the
/// source distribution is unbounded in principle; bounding it is a
/// deliberate hardening choice, with a deterministic fallback to the
/// domain point nearest the center once the cap is reached.
pub const MAX_ATTEMPTS: u64 = 10000;

/// The point of `[lo, hi)` nearest to `c`.
pub open spec fn clamp_spec(c: int, lo: int, hi: int) -> int
    recommends
        lo < hi,
{
    if c < lo {
        lo
    } else if c >= hi {
        hi - 1
    } else {
        c
    }
}

/// Clamp a value into the half-open range `[lo, hi)`.
pub fn clamp_to_range(c: i64, lo: i64, hi: i64) -> (r: i64)
    requires
        lo < hi,
    ensures
        r == clamp_spec(c as int, lo as int, hi as int),
{
    if c < lo {
        lo
    } else if c >= hi {
        hi - 1
    } else {
        c
    }
}

/// Draw one coordinate from the half-open domain `[lo, hi)` by rejection
/// sampling against the dyadic Gaussian kernel centered at `center` with
/// the given `spread`: propose a uniform candidate, draw a uniform
/// threshold below `WEIGHT_ONE`, and accept the candidate when the
/// threshold falls under its acceptance weight.
///
/// Returns the accepted coordinate and the number of attempts made.
/// When no candidate is accepted within `MAX_ATTEMPTS` attempts, the
/// result falls back to the domain point nearest the center.
pub fn sample_counted(rng: &mut rand::rngs::ThreadRng, center: i64, spread: i64, lo: i64, hi: i64) -> (r: (i64, u64))
    requires
        -COORD_LIMIT <= lo,
        lo < hi,
        hi <= COORD_LIMIT,
        -COORD_LIMIT <= center <= COORD_LIMIT,
        1 <= spread <= COORD_LIMIT,
    ensures
        lo <= r.0 < hi,
        1 <= r.1 <= MAX_ATTEMPTS,
        weight_of(r.0 as int, center as int, spread as int) >= 1
            || r.0 == clamp_spec(center as int, lo as int, hi as int),
{
    let mut attempts: u64 = 0;
    while attempts < MAX_ATTEMPTS
        invariant
            attempts <= MAX_ATTEMPTS,
            -COORD_LIMIT <= lo,
            lo < hi,
            hi <= COORD_LIMIT,
            -COORD_LIMIT <= center <= COORD_LIMIT,
            1 <= spread <= COORD_LIMIT,
        ensures
            attempts == MAX_ATTEMPTS,
        decreases MAX_ATTEMPTS - attempts,
    {
        attempts = attempts + 1;
        let candidate = gen_range_i64(rng, lo, hi);
        let threshold = gen_range_i64(rng, 0, WEIGHT_ONE);
        let weight = acceptance_weight(candidate, center, spread);
        if threshold < weight {
            return (candidate, attempts);
        }
    }
    (clamp_to_range(center, lo, hi), MAX_ATTEMPTS)
}

/// Draw one coordinate from `[lo, hi)` under the density centered at
/// `center` with the given `spread`; see `sample_counted`.
pub fn sample(rng: &mut rand::rngs::ThreadRng, center: i64, spread: i64, lo: i64, hi: i64) -> (c: i64)
    requires
        -COORD_LIMIT <= lo,
        lo < hi,
        hi <= COORD_LIMIT,
        -COORD_LIMIT <= center <= COORD_LIMIT,
        1 <= spread <= COORD_LIMIT,
    ensures
        lo <= c < hi,
        weight_of(c as int, center as int, spread as int) >= 1
            || c == clamp_spec(center as int, lo as int, hi as int),
{
    let (c, _) = sample_counted(rng, center, spread, lo, hi);
    c
}

} // verus!
