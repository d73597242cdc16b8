pub mod config;
pub mod descriptor;
pub mod mask;
pub mod mosaic;
pub mod palette;
pub mod score;
pub mod select;
pub mod img;

use vstd::prelude::*;

verus! {

use vstd::math::max;

/// The first dimension of a pair scaled so that the larger one becomes m,
/// under truncating division.
pub open spec fn scaled_w(w: int, h: int, m: int) -> int {
    w * m / max(w, h)
}

/// The second dimension of a pair scaled so that the larger one becomes m,
/// under truncating division.
pub open spec fn scaled_h(w: int, h: int, m: int) -> int {
    h * m / max(w, h)
}

/// Scale a pair of dimensions so that the larger one becomes exactly
/// `max_size`, preserving the aspect ratio under truncating division.
pub fn resize_dims(dims: (usize, usize), max_size: u32) -> (r: (usize, usize))
    requires
        dims.0 >= 1,
        dims.1 >= 1,
    ensures
        r.0 == scaled_w(dims.0 as int, dims.1 as int, max_size as int),
        r.1 == scaled_h(dims.0 as int, dims.1 as int, max_size as int),
        r.0 <= max_size,
        r.1 <= max_size,
{
    let (w, h) = dims;
    let md: u128 = if w >= h { w as u128 } else { h as u128 };
    proof {
        assert((w as u128) * (max_size as u128) < u128::MAX) by (nonlinear_arith)
            requires w <= u64::MAX, max_size <= u32::MAX;
        assert((h as u128) * (max_size as u128) < u128::MAX) by (nonlinear_arith)
            requires h <= u64::MAX, max_size <= u32::MAX;
    }
    let rw: u128 = w as u128 * max_size as u128 / md;
    let rh: u128 = h as u128 * max_size as u128 / md;
    proof {
        lemma_scaled_fits(w as int, h as int, max_size as int);
        lemma_scaled_fits(h as int, w as int, max_size as int);
    }
    (rw as usize, rh as usize)
}

/// Scaling a pair of positive dimensions makes the larger one exactly the
/// target size, keeps the other within it, and keeps the aspect ratio up to
/// the truncation of one unit: each scaled dimension times the larger source
/// dimension falls within one denominator of the exact product.
pub proof fn lemma_resize_dims_shape(w: int, h: int, m: int)
    requires
        1 <= w,
        1 <= h,
        1 <= m,
    ensures
        max(scaled_w(w, h, m), scaled_h(w, h, m)) == m,
        scaled_w(w, h, m) <= m,
        scaled_h(w, h, m) <= m,
        scaled_w(w, h, m) * max(w, h) <= w * m < (scaled_w(w, h, m) + 1) * max(w, h),
        scaled_h(w, h, m) * max(w, h) <= h * m < (scaled_h(w, h, m) + 1) * max(w, h),
{
    let d = max(w, h);
    lemma_scaled_fits(w, h, m);
    lemma_scaled_fits(h, w, m);
    assert(max(h, w) == d);
    assert(d * m / d == m) by (nonlinear_arith)
        requires 1 <= d;
    assert(w == d || h == d);
    assert(scaled_w(w, h, m) * d <= w * m < (scaled_w(w, h, m) + 1) * d) by (nonlinear_arith)
        requires scaled_w(w, h, m) == w * m / d, 1 <= d, 0 <= w * m;
    assert(scaled_h(w, h, m) * d <= h * m < (scaled_h(w, h, m) + 1) * d) by (nonlinear_arith)
        requires scaled_h(w, h, m) == h * m / d, 1 <= d, 0 <= h * m;
}

/// A dimension scaled against the larger of the pair never exceeds `m`.
proof fn lemma_scaled_fits(a: int, b: int, m: int)
    requires
        1 <= a,
        0 <= b,
        0 <= m,
    ensures
        a * m / max(a, b) <= m,
{
    let d = max(a, b);
    assert(a * m <= d * m) by (nonlinear_arith)
        requires a <= d, 0 <= m;
    assert(a * m / d <= d * m / d) by (nonlinear_arith)
        requires a * m <= d * m, 1 <= d;
    assert(d * m / d == m) by (nonlinear_arith)
        requires 1 <= d;
}

} // verus!
