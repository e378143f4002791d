use vstd::prelude::*;
use vstd::arithmetic::power2::{pow2, lemma_pow2_unfold, lemma_pow2_strictly_increases, lemma2_to64};
use vstd::arithmetic::div_mod::{lemma_div_is_ordered, lemma_div_pos_is_pos, lemma_div_multiples_vanish, lemma_fundamental_div_mod};
use vstd::arithmetic::mul::lemma_mul_inequality;

verus! {

/// Fixed-point unit for acceptance weights: a weight of `WEIGHT_ONE`
/// stands for an acceptance probability of one. It is 2^20.
pub const WEIGHT_ONE: i64 = 1048576;

/// Bound on the magnitude of values, centers and spreads accepted by
/// `acceptance_weight`; wide enough for any sampling domain in use and
/// small enough that every intermediate product fits in an `i64`.
pub const COORD_LIMIT: i64 = 1000000;

/// The dyadic Gaussian kernel at squared distance `d2` from the center,
/// where `den == 2 * spread * spread`: a fixed-point rendering of
/// `2^(-d2 / den)`, scaled by `WEIGHT_ONE`. With `k` and `r` the
/// quotient and remainder of `d2 / den`, the weight interpolates
/// linearly between the neighbouring powers of two `2^(20-k)` and
/// `2^(19-k)`; past an exponent of 20 the weight rounds to zero.
pub open spec fn dyadic_weight(d2: int, den: int) -> int
    recommends
        d2 >= 0,
        den >= 1,
{
    let k = d2 / den;
    let r = d2 % den;
    if k >= 20 {
        0
    } else {
        let hi = pow2((20 - k) as nat) as int;
        let lo = pow2((19 - k) as nat) as int;
        hi - ((hi - lo) * r) / den
    }
}

/// Acceptance weight of `value` for a cluster centered at `center` with
/// spread `spread`: the dyadic Gaussian kernel of the squared distance,
/// peaked at `value == center` and decaying symmetrically.
pub open spec fn weight_of(value: int, center: int, spread: int) -> int
    recommends
        spread >= 1,
{
    dyadic_weight((value - center) * (value - center), 2 * spread * spread)
}

/// Compute the acceptance weight of `value` under the density with the
/// given `center` and `spread`. The result is the fixed-point kernel
/// `weight_of`, always within `[0, WEIGHT_ONE]`.
pub fn acceptance_weight(value: i64, center: i64, spread: i64) -> (w: i64)
    requires
        -COORD_LIMIT <= value <= COORD_LIMIT,
        -COORD_LIMIT <= center <= COORD_LIMIT,
        1 <= spread <= COORD_LIMIT,
    ensures
        w == weight_of(value as int, center as int, spread as int),
        0 <= w <= WEIGHT_ONE,
{
    let d = if value >= center { value - center } else { center - value };
    proof {
        assert(d * d == (value - center) * (value - center)) by (nonlinear_arith)
            requires d == value - center || d == center - value;
        assert(0 <= d * d <= 4000000000000) by (nonlinear_arith)
            requires 0 <= d <= 2000000;
        assert(2 <= 2 * spread * spread <= 2000000000000) by (nonlinear_arith)
            requires 1 <= spread <= 1000000;
    }
    let num = d * d;
    let den = 2 * spread * spread;
    let k = num / den;
    let r = num % den;
    proof {
        lemma_div_pos_is_pos(num as int, den as int);
        lemma_fundamental_div_mod(num as int, den as int);
    }
    if k >= 20 {
        0
    } else {
        let mut hi: i64 = WEIGHT_ONE;
        let mut i: i64 = 0;
        proof {
            lemma2_to64();
        }
        while i < k
            invariant
                0 <= i <= k < 20,
                hi == pow2((20 - i) as nat),
                hi <= WEIGHT_ONE,
            decreases k - i,
        {
            proof {
                lemma_pow2_unfold((20 - i) as nat);
            }
            hi = hi / 2;
            i = i + 1;
            proof {
                if 20 - i < 20 {
                    lemma_pow2_strictly_increases((20 - i) as nat, 20nat);
                    lemma2_to64();
                }
            }
        }
        let lo = hi / 2;
        proof {
            lemma_pow2_unfold((20 - k) as nat);
            assert(lo == pow2((19 - k) as nat));
            assert(hi - lo == lo);
            // the interpolation term is at most hi - lo and at least 0
            lemma_mul_inequality(r as int, den as int, (hi - lo) as int);
            assert((hi - lo) * r <= (hi - lo) * den) by (nonlinear_arith)
                requires 0 <= r <= den, 0 <= hi - lo;
            assert(0 <= (hi - lo) * r) by (nonlinear_arith)
                requires 0 <= r, 0 <= hi - lo;
            lemma_div_is_ordered((hi - lo) * r, (hi - lo) * den, den as int);
            lemma_div_multiples_vanish((hi - lo) as int, den as int);
            lemma_div_pos_is_pos((hi - lo) * r, den as int);
            assert((hi - lo) * r <= 1100000000000000000) by (nonlinear_arith)
                requires 0 <= hi - lo <= 524288, 0 <= r < den <= 2000000000000;
        }
        hi - ((hi - lo) * r) / den
    }
}

/// The density peaks at the center: a value equal to the center has the
/// maximal acceptance weight `WEIGHT_ONE`, for any positive spread.
pub proof fn lemma_weight_peak(center: int, spread: int)
    requires
        spread >= 1,
    ensures
        weight_of(center, center, spread) == WEIGHT_ONE,
{
    let den = 2 * spread * spread;
    assert(2 * spread * spread >= 2) by (nonlinear_arith)
        requires spread >= 1;
    assert(0int / den == 0);
    assert(0int % den == 0);
    lemma2_to64();
    assert((pow2(20) - pow2(19)) * 0 == 0) by (nonlinear_arith);
    assert(0int / den == 0);
}

/// The density is symmetric about the center: values at equal offsets on
/// either side of the center have equal acceptance weights.
pub proof fn lemma_weight_symmetric(center: int, spread: int, offset: int)
    requires
        spread >= 1,
    ensures
        weight_of(center - offset, center, spread) == weight_of(center + offset, center, spread),
{
    assert((center - offset - center) * (center - offset - center)
        == (center + offset - center) * (center + offset - center)) by (nonlinear_arith);
}

/// The weight stays within its slot: zero past twenty halvings, and
/// otherwise between the two neighbouring powers of two the slot
/// interpolates across; in all cases within `[0, WEIGHT_ONE]`.
proof fn lemma_dyadic_slot_bounds(d2: int, den: int)
    requires
        d2 >= 0,
        den >= 1,
    ensures
        0 <= dyadic_weight(d2, den) <= WEIGHT_ONE,
        d2 / den < 20 ==> pow2((19 - d2 / den) as nat) <= dyadic_weight(d2, den)
            <= pow2((20 - d2 / den) as nat),
{
    let k = d2 / den;
    let r = d2 % den;
    lemma_div_pos_is_pos(d2, den);
    vstd::arithmetic::div_mod::lemma_mod_division_less_than_divisor(d2, den);
    if k < 20 {
        let hi = pow2((20 - k) as nat) as int;
        let lo = pow2((19 - k) as nat) as int;
        lemma_pow2_unfold((20 - k) as nat);
        vstd::arithmetic::power2::lemma_pow2_pos((19 - k) as nat);
        assert(hi == 2 * lo);
        assert(0 <= (hi - lo) * r) by (nonlinear_arith)
            requires 0 <= r, 0 <= hi - lo;
        assert((hi - lo) * r <= (hi - lo) * den) by (nonlinear_arith)
            requires 0 <= r <= den, 0 <= hi - lo;
        lemma_div_pos_is_pos((hi - lo) * r, den);
        lemma_div_is_ordered((hi - lo) * r, (hi - lo) * den, den);
        lemma_div_multiples_vanish(hi - lo, den);
        if k > 0 {
            lemma_pow2_strictly_increases((20 - k) as nat, 20nat);
        }
        lemma2_to64();
        assert(dyadic_weight(d2, den) == hi - ((hi - lo) * r) / den);
        assert(0 <= ((hi - lo) * r) / den <= hi - lo);
        assert(lo <= dyadic_weight(d2, den) <= hi);
        assert(hi <= WEIGHT_ONE);
    }
}

/// The kernel never rises as the squared distance grows.
proof fn lemma_dyadic_monotone(d2a: int, d2b: int, den: int)
    requires
        0 <= d2a <= d2b,
        den >= 1,
    ensures
        dyadic_weight(d2a, den) >= dyadic_weight(d2b, den),
{
    let ka = d2a / den;
    let kb = d2b / den;
    lemma_div_pos_is_pos(d2a, den);
    lemma_div_is_ordered(d2a, d2b, den);
    lemma_dyadic_slot_bounds(d2a, den);
    lemma_dyadic_slot_bounds(d2b, den);
    if ka < 20 && kb < 20 {
        if ka == kb {
            let hi = pow2((20 - ka) as nat) as int;
            let lo = pow2((19 - ka) as nat) as int;
            let ra = d2a % den;
            let rb = d2b % den;
            lemma_fundamental_div_mod(d2a, den);
            lemma_fundamental_div_mod(d2b, den);
            assert(ra <= rb);
            assert((hi - lo) * ra <= (hi - lo) * rb) by (nonlinear_arith)
                requires 0 <= hi - lo, ra <= rb;
            lemma_div_is_ordered((hi - lo) * ra, (hi - lo) * rb, den);
        } else {
            if 20 - kb < 19 - ka {
                lemma_pow2_strictly_increases((20 - kb) as nat, (19 - ka) as nat);
            }
            assert(pow2((20 - kb) as nat) <= pow2((19 - ka) as nat));
        }
    }
}

/// The density never rises away from the center: of two values on the
/// same side of the center, the one farther out has no larger an
/// acceptance weight. With the symmetry law this pins the kernel's
/// single-peak shape.
pub proof fn lemma_weight_monotone(center: int, spread: int, near: int, far: int)
    requires
        spread >= 1,
        0 <= near <= far,
    ensures
        weight_of(center + near, center, spread) >= weight_of(center + far, center, spread),
{
    assert(2 * spread * spread >= 2) by (nonlinear_arith)
        requires spread >= 1;
    assert((center + near - center) * (center + near - center) == near * near) by (nonlinear_arith);
    assert((center + far - center) * (center + far - center) == far * far) by (nonlinear_arith);
    assert(0 <= near * near <= far * far) by (nonlinear_arith)
        requires 0 <= near <= far;
    lemma_dyadic_monotone(near * near, far * far, 2 * spread * spread);
}

} // verus!

