use vstd::prelude::*;
use crate::img::{Img, ImgView, lemma_index_in_range};

verus! {

/// The integer square root: the largest r with r * r <= n.
pub open spec fn isqrt_s(n: nat) -> nat
    decreases n,
{
    if n == 0 {
        0
    } else {
        let p = isqrt_s((n - 1) as nat);
        if (p + 1) * (p + 1) <= n {
            p + 1
        } else {
            p
        }
    }
}

/// The integer square root is sandwiched by consecutive squares.
pub proof fn lemma_isqrt_bounds(n: nat)
    ensures
        isqrt_s(n) * isqrt_s(n) <= n,
        n < (isqrt_s(n) + 1) * (isqrt_s(n) + 1),
        isqrt_s(n) <= n,
    decreases n,
{
    if n > 0 {
        lemma_isqrt_bounds((n - 1) as nat);
        let p = isqrt_s((n - 1) as nat);
        assert(isqrt_s(n) == if (p + 1) * (p + 1) <= n { p + 1 } else { p });
        assert(p <= n - 1);
        if (p + 1) * (p + 1) <= n {
            assert(isqrt_s(n) == p + 1);
            assert(isqrt_s(n) * isqrt_s(n) <= n);
            assert(n < (p + 2) * (p + 2)) by (nonlinear_arith)
                requires n - 1 < (p + 1) * (p + 1), p >= 0;
            assert(n < (isqrt_s(n) + 1) * (isqrt_s(n) + 1));
            assert(p + 1 <= n) by (nonlinear_arith)
                requires (p + 1) * (p + 1) <= n, p >= 0;
        } else {
            assert(isqrt_s(n) == p);
            assert(p * p <= n - 1);
            assert(isqrt_s(n) * isqrt_s(n) <= n);
            assert(n < (p + 1) * (p + 1));
            assert(n < (isqrt_s(n) + 1) * (isqrt_s(n) + 1)) by (nonlinear_arith)
                requires isqrt_s(n) == p, n < (p + 1) * (p + 1);
        }
    } else {
        assert(isqrt_s(0nat) == 0);
        assert(isqrt_s(n) * isqrt_s(n) <= n) by (nonlinear_arith)
            requires isqrt_s(n) == 0, n == 0;
        assert(n < (isqrt_s(n) + 1) * (isqrt_s(n) + 1)) by (nonlinear_arith)
            requires isqrt_s(n) == 0, n == 0;
    }
}

/// Any r sandwiched by consecutive squares is the integer square root.
pub proof fn lemma_isqrt_unique(n: nat, r: nat)
    requires
        r * r <= n,
        n < (r + 1) * (r + 1),
    ensures
        isqrt_s(n) == r,
{
    lemma_isqrt_bounds(n);
    let q = isqrt_s(n);
    if q < r {
        assert((q + 1) * (q + 1) <= r * r) by (nonlinear_arith)
            requires q + 1 <= r;
    }
    if r < q {
        assert((r + 1) * (r + 1) <= q * q) by (nonlinear_arith)
            requires r + 1 <= q;
    }
}

/// The integer square root of a perfect square.
pub proof fn lemma_isqrt_square(r: nat)
    ensures
        isqrt_s(r * r) == r,
{
    assert(r * r < (r + 1) * (r + 1)) by (nonlinear_arith);
    lemma_isqrt_unique(r * r, r);
}

/// The integer square root grows with its argument.
pub proof fn lemma_isqrt_monotone(m: nat, n: nat)
    requires
        m <= n,
    ensures
        isqrt_s(m) <= isqrt_s(n),
{
    lemma_isqrt_bounds(m);
    lemma_isqrt_bounds(n);
    if isqrt_s(n) < isqrt_s(m) {
        assert((isqrt_s(n) + 1) * (isqrt_s(n) + 1) <= isqrt_s(m) * isqrt_s(m)) by (nonlinear_arith)
            requires isqrt_s(n) + 1 <= isqrt_s(m);
    }
}

/// The integer square root, by counting up from zero.
pub fn isqrt(n: u64) -> (r: u64)
    requires
        n <= 0x4000_0000_0000_0000,
    ensures
        r == isqrt_s(n as nat),
{
    let mut r: u64 = 0;
    loop
        invariant_except_break
            n <= 0x4000_0000_0000_0000,
            r * r <= n,
        ensures
            r * r <= n < (r + 1) * (r + 1),
        decreases n - r,
    {
        proof {
            assert(r <= 0x8000_0000) by (nonlinear_arith)
                requires r * r <= 0x4000_0000_0000_0000, r >= 0;
        }
        let rp: u64 = r + 1;
        proof {
            assert((rp as int) * (rp as int) <= 0x4100_0000_0000_0000) by (nonlinear_arith)
                requires rp <= 0x8000_0001;
        }
        if rp * rp > n {
            break;
        }
        proof {
            assert(r + 1 <= n) by (nonlinear_arith)
                requires (r + 1) * (r + 1) <= n, r >= 0;
        }
        r = rp;
    }
    proof {
        lemma_isqrt_unique(n as nat, r as nat);
    }
    r
}

/// The squared distance of pixel (x, y) from the window center (w/2, h/2).
pub open spec fn dist2(w: int, h: int, x: int, y: int) -> int {
    (x - w / 2) * (x - w / 2) + (y - h / 2) * (y - h / 2)
}

/// The diagonal length of a w-by-h window, truncated to an integer.
pub open spec fn hyp(w: int, h: int) -> int {
    isqrt_s((w * w + h * h) as nat) as int
}

/// The inner radial mask: the distance of the pixel from the window center,
/// so weight grows toward the periphery's complement, the center staying at
/// zero.
pub open spec fn inner_mask_at(w: int, h: int, x: int, y: int) -> int {
    isqrt_s(dist2(w, h, x, y) as nat) as int
}

/// The outer radial mask: the window diagonal minus the distance from the
/// center, so weight grows toward the center's complement, the periphery
/// staying low.
pub open spec fn outer_mask_at(w: int, h: int, x: int, y: int) -> int {
    hyp(w, h) - inner_mask_at(w, h, x, y)
}

/// The two radial masks are complementary: at every pixel of a w-by-h window
/// they sum to the window diagonal, and each lies between zero and the
/// diagonal.
pub proof fn lemma_masks_complementary(w: int, h: int, x: int, y: int)
    requires
        0 <= x < w,
        0 <= y < h,
    ensures
        inner_mask_at(w, h, x, y) + outer_mask_at(w, h, x, y) == hyp(w, h),
        0 <= inner_mask_at(w, h, x, y) <= hyp(w, h),
        0 <= outer_mask_at(w, h, x, y) <= hyp(w, h),
{
    let d2 = dist2(w, h, x, y);
    let cx = w / 2;
    let cy = h / 2;
    assert(0 <= cx <= w && 0 <= cy <= h);
    assert(0 <= (x - cx) * (x - cx) <= w * w) by (nonlinear_arith)
        requires 0 <= x < w, 0 <= cx <= w;
    assert(0 <= (y - cy) * (y - cy) <= h * h) by (nonlinear_arith)
        requires 0 <= y < h, 0 <= cy <= h;
    lemma_isqrt_monotone(d2 as nat, (w * w + h * h) as nat);
}

/// The distance from the center is at most the diagonal, in value bound form.
pub proof fn lemma_mask_value_bound(w: int, h: int, x: int, y: int, wb: int)
    requires
        0 <= x < w <= wb,
        0 <= y < h <= wb,
        0 <= wb,
    ensures
        0 <= inner_mask_at(w, h, x, y) <= 2 * wb,
        0 <= outer_mask_at(w, h, x, y) <= 2 * wb,
        0 <= hyp(w, h) <= 2 * wb,
{
    lemma_masks_complementary(w, h, x, y);
    assert(w * w + h * h <= (2 * wb) * (2 * wb)) by (nonlinear_arith)
        requires 0 < w <= wb, 0 < h <= wb;
    lemma_isqrt_monotone((w * w + h * h) as nat, ((2 * wb) * (2 * wb)) as nat);
    lemma_isqrt_square((2 * wb) as nat);
}

/// An image weighted pointwise by one of the radial masks of its own size.
pub open spec fn mask_view(v: ImgView, inner: bool) -> ImgView {
    ImgView {
        width: v.width,
        height: v.height,
        data: Seq::new(
            v.data.len(),
            |i: int|
                v.data[i] * if inner {
                    inner_mask_at(v.width, v.height, (i / 4) % v.width, (i / 4) / v.width)
                } else {
                    outer_mask_at(v.width, v.height, (i / 4) % v.width, (i / 4) / v.width)
                },
        ),
    }
}

/// The masked image, sample by sample.
pub proof fn lemma_mask_view_at(v: ImgView, inner: bool, x: int, y: int, c: int)
    requires
        v.wf(),
        0 <= x < v.width,
        0 <= y < v.height,
        0 <= c < 4,
    ensures
        mask_view(v, inner).at(x, y, c) == v.at(x, y, c) * if inner {
            inner_mask_at(v.width, v.height, x, y)
        } else {
            outer_mask_at(v.width, v.height, x, y)
        },
{
    let i = (y * v.width + x) * 4 + c;
    lemma_index_in_range(v.width, v.height, x, y, c);
    assert((i / 4) % v.width == x && (i / 4) / v.width == y) by (nonlinear_arith)
        requires
            i == (y * v.width + x) * 4 + c,
            0 <= x < v.width,
            0 <= y < v.height,
            0 <= c < 4;
}

/// A masked image of a window no larger than wb on a side keeps its samples
/// within twice wb times the source image's bound.
pub proof fn lemma_mask_view_bounded(v: ImgView, inner: bool, b: int, wb: int)
    requires
        v.wf(),
        v.bounded(b),
        1 <= v.width <= wb,
        1 <= v.height <= wb,
        b >= 0,
    ensures
        mask_view(v, inner).wf(),
        mask_view(v, inner).width == v.width,
        mask_view(v, inner).height == v.height,
        mask_view(v, inner).bounded(b * (2 * wb)),
{
    let m = mask_view(v, inner);
    assert forall|x: int, y: int, c: int|
        0 <= x < m.width && 0 <= y < m.height && 0 <= c < 4 implies
            -(b * (2 * wb)) <= #[trigger] m.at(x, y, c) <= b * (2 * wb) by {
        lemma_mask_view_at(v, inner, x, y, c);
        lemma_mask_value_bound(v.width, v.height, x, y, wb);
        let mk = if inner { inner_mask_at(v.width, v.height, x, y) } else { outer_mask_at(v.width, v.height, x, y) };
        assert(-(b * (2 * wb)) <= v.at(x, y, c) * mk <= b * (2 * wb)) by (nonlinear_arith)
            requires -b <= v.at(x, y, c) <= b, 0 <= mk <= 2 * wb, b >= 0;
    }
}

/// Weight an image pointwise by one of the radial masks of its own size.
pub fn apply_mask(img: &Img, inner: bool) -> (r: Img)
    requires
        img.wf(),
        1 <= img.width <= 0x8000,
        1 <= img.height <= 0x8000,
        img@.bounded(0x1000_0000),
    ensures
        r.wf(),
        r.width == img.width,
        r.height == img.height,
        r@ == mask_view(img@, inner),
        r@.bounded(0x1000_0000_0000),
{
    let _len: usize = img.data.len();
    let w = img.width;
    let h = img.height;
    proof {
        assert((w as u64) * (w as u64) + (h as u64) * (h as u64) <= 0x4000_0000_0000_0000) by (nonlinear_arith)
            requires 1 <= w <= 0x8000, 1 <= h <= 0x8000;
    }
    let hyu: u64 = isqrt((w as u64) * (w as u64) + (h as u64) * (h as u64));
    proof {
        lemma_mask_value_bound(w as int, h as int, 0, 0, 0x8000);
    }
    let hy: i64 = hyu as i64;
    let mut out = Img::zero(w, h);
    let mut y: usize = 0;
    while y < h
        invariant
            y <= h,
            out.wf(),
            out.width == w,
            out.height == h,
            img.wf(),
            img.width == w,
            img.height == h,
            img@.bounded(0x1000_0000),
            1 <= w <= 0x8000,
            1 <= h <= 0x8000,
            hy == hyp(w as int, h as int),
            0 <= hy <= 0x1_0000,
            forall|x2: int, y2: int, c2: int|
                0 <= x2 < w && 0 <= y2 < y && 0 <= c2 < 4 ==>
                    #[trigger] out@.at(x2, y2, c2) == mask_view(img@, inner).at(x2, y2, c2)
                    && -0x1000_0000_0000 <= out@.at(x2, y2, c2) <= 0x1000_0000_0000,
        decreases h - y,
    {
        let mut x: usize = 0;
        while x < w
            invariant
                y < h,
                x <= w,
                out.wf(),
                out.width == w,
                out.height == h,
                img.wf(),
                img.width == w,
                img.height == h,
                img@.bounded(0x1000_0000),
                1 <= w <= 0x8000,
                1 <= h <= 0x8000,
                hy == hyp(w as int, h as int),
                0 <= hy <= 0x1_0000,
                forall|x2: int, y2: int, c2: int|
                    0 <= x2 < w && 0 <= y2 < y && 0 <= c2 < 4 ==>
                        #[trigger] out@.at(x2, y2, c2) == mask_view(img@, inner).at(x2, y2, c2)
                        && -0x1000_0000_0000 <= out@.at(x2, y2, c2) <= 0x1000_0000_0000,
                forall|x2: int, c2: int|
                    0 <= x2 < x && 0 <= c2 < 4 ==>
                        #[trigger] out@.at(x2, y as int, c2) == mask_view(img@, inner).at(x2, y as int, c2)
                        && -0x1000_0000_0000 <= out@.at(x2, y as int, c2) <= 0x1000_0000_0000,
            decreases w - x,
        {
            let dx: i64 = x as i64 - (w / 2) as i64;
            let dy: i64 = y as i64 - (h / 2) as i64;
            proof {
                assert(dx * dx + dy * dy <= 0x4000_0000_0000_0000) by (nonlinear_arith)
                    requires -0x8000 <= dx <= 0x8000, -0x8000 <= dy <= 0x8000;
                assert(dx * dx == (dx as int) * (dx as int) && dy * dy == (dy as int) * (dy as int));
                assert(dx * dx >= 0 && dy * dy >= 0) by (nonlinear_arith);
            }
            let d2: u64 = (dx * dx + dy * dy) as u64;
            let du: u64 = isqrt(d2);
            proof {
                lemma_masks_complementary(w as int, h as int, x as int, y as int);
                lemma_mask_value_bound(w as int, h as int, x as int, y as int, 0x8000);
            }
            let di: i64 = du as i64;
            let m: i64 = if inner { di } else { hy - di };
            let mut c: usize = 0;
            while c < 4
                invariant
                    y < h,
                    x < w,
                    c <= 4,
                    out.wf(),
                    out.width == w,
                    out.height == h,
                    img.wf(),
                    img.width == w,
                    img.height == h,
                    img@.bounded(0x1000_0000),
                    1 <= w <= 0x8000,
                    1 <= h <= 0x8000,
                    0 <= m <= 0x1_0000,
                    m == if inner {
                        inner_mask_at(w as int, h as int, x as int, y as int)
                    } else {
                        outer_mask_at(w as int, h as int, x as int, y as int)
                    },
                    forall|x2: int, y2: int, c2: int|
                        0 <= x2 < w && 0 <= y2 < y && 0 <= c2 < 4 ==>
                            #[trigger] out@.at(x2, y2, c2) == mask_view(img@, inner).at(x2, y2, c2)
                            && -0x1000_0000_0000 <= out@.at(x2, y2, c2) <= 0x1000_0000_0000,
                    forall|x2: int, c2: int|
                        0 <= x2 < x && 0 <= c2 < 4 ==>
                            #[trigger] out@.at(x2, y as int, c2) == mask_view(img@, inner).at(x2, y as int, c2)
                            && -0x1000_0000_0000 <= out@.at(x2, y as int, c2) <= 0x1000_0000_0000,
                    forall|c2: int|
                        0 <= c2 < c ==>
                            #[trigger] out@.at(x as int, y as int, c2) == mask_view(img@, inner).at(x as int, y as int, c2)
                            && -0x1000_0000_0000 <= out@.at(x as int, y as int, c2) <= 0x1000_0000_0000,
                decreases 4 - c,
            {
                let s = img.get(x, y, c);
                proof {
                    assert(-0x1000_0000_0000 <= s * m <= 0x1000_0000_0000) by (nonlinear_arith)
                        requires -0x1000_0000 <= s <= 0x1000_0000, 0 <= m <= 0x1_0000;
                    lemma_mask_view_at(img@, inner, x as int, y as int, c as int);
                }
                out.put(x, y, c, s * m);
                c = c + 1;
            }
            x = x + 1;
        }
        y = y + 1;
    }
    proof {
        assert forall|x2: int, y2: int, c2: int|
            0 <= x2 < w && 0 <= y2 < h && 0 <= c2 < 4 implies
                #[trigger] mask_view(img@, inner).at(x2, y2, c2) == out@.at(x2, y2, c2) by {
        }
        crate::img::lemma_pointwise_eq(out@, mask_view(img@, inner));
    }
    out
}

} // verus!
