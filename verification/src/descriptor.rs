use vstd::prelude::*;
use crate::img::{Img, ImgView};

verus! {

/// The discrete Laplacian of channel `c` at (x, y): four times the sample
/// minus its four neighbours, a missing neighbour at the border standing for
/// the sample itself.
pub open spec fn edge_at(v: ImgView, x: int, y: int, c: int) -> int {
    4 * v.at(x, y, c)
        - v.at(if x > 0 { x - 1 } else { x }, y, c)
        - v.at(if x + 1 < v.width { x + 1 } else { x }, y, c)
        - v.at(x, if y > 0 { y - 1 } else { y }, c)
        - v.at(x, if y + 1 < v.height { y + 1 } else { y }, c)
}

/// The fixed-point value standing for 1.0: samples of decoded images are
/// 256ths of the unit.
pub open spec fn unit_fp() -> int {
    256
}

/// The pseudo-angle of the gradient (dv, dh), in 256ths of a quarter turn,
/// in [0, 1024): an exact integer quantity that grows monotonically with the
/// two-argument arctangent of (dv, dh), with the exact same value at every
/// quadrant boundary. The zero gradient maps to zero.
pub open spec fn diamond(dv: int, dh: int) -> int {
    if dv == 0 && dh == 0 {
        0
    } else if dv >= 0 && dh >= 0 {
        256 * dv / (dv + dh)
    } else if dv >= 0 {
        256 + 256 * (-dh) / (dv - dh)
    } else if dh < 0 {
        512 + 256 * (-dv) / (-dv - dh)
    } else {
        768 + 256 * dh / (-dv + dh)
    }
}

/// The orientation sample for a gradient: unit white minus the normalized
/// direction, wrapped so that directions past a half turn count as negative,
/// the way a signed arctangent ranges. A zero gradient maps to the unit
/// value.
pub open spec fn orient_of(dv: int, dh: int) -> int {
    if diamond(dv, dh) < 512 {
        256 - diamond(dv, dh)
    } else {
        1280 - diamond(dv, dh)
    }
}

/// The pseudo-angle stays within a full turn.
proof fn lemma_diamond_range(dv: int, dh: int)
    ensures
        0 <= diamond(dv, dh) < 1024,
{
    if dv == 0 && dh == 0 {
    } else if dv >= 0 && dh >= 0 {
        assert(0 <= 256 * dv / (dv + dh) <= 256) by (nonlinear_arith)
            requires dv >= 0, dh >= 0, dv + dh >= 1;
    } else if dv >= 0 {
        assert(0 <= 256 * (-dh) / (dv - dh) <= 256) by (nonlinear_arith)
            requires dv >= 0, dh <= -1;
    } else if dh < 0 {
        assert(0 <= 256 * (-dv) / (-dv - dh) < 256) by (nonlinear_arith)
            requires dv <= -1, dh <= -1;
    } else {
        assert(0 <= 256 * dh / (-dv + dh) < 256) by (nonlinear_arith)
            requires dv <= -1, dh >= 0;
    }
}

/// The orientation sample for an integer gradient.
pub fn orient_value(dv: i64, dh: i64) -> (r: i64)
    requires
        -0x2000_0000 <= dv <= 0x2000_0000,
        -0x2000_0000 <= dh <= 0x2000_0000,
    ensures
        r == orient_of(dv as int, dh as int),
        -256 <= r <= 768,
        dv == 0 && dh == 0 ==> r == unit_fp(),
{
    proof {
        lemma_diamond_range(dv as int, dh as int);
    }
    let d: i64 = if dv == 0 && dh == 0 {
        0
    } else if dv >= 0 && dh >= 0 {
        256 * dv / (dv + dh)
    } else if dv >= 0 {
        256 + 256 * (-dh) / (dv - dh)
    } else if dh < 0 {
        512 + 256 * (-dv) / (-dv - dh)
    } else {
        768 + 256 * dh / (-dv + dh)
    };
    if d < 512 {
        256 - d
    } else {
        1280 - d
    }
}

/// The vertical delta of channel `c` at (x, y): below minus above, clamped at
/// the border.
pub open spec fn delta_v(v: ImgView, x: int, y: int, c: int) -> int {
    v.at(x, if y + 1 < v.height { y + 1 } else { y }, c)
        - v.at(x, if y > 0 { y - 1 } else { y }, c)
}

/// The horizontal delta of channel `c` at (x, y): right minus left, clamped
/// at the border.
pub open spec fn delta_h(v: ImgView, x: int, y: int, c: int) -> int {
    v.at(if x + 1 < v.width { x + 1 } else { x }, y, c)
        - v.at(if x > 0 { x - 1 } else { x }, y, c)
}

/// The orientation descriptor: unit white minus the normalized gradient
/// angle, so a flat region maps to all ones.
pub open spec fn orient_at(v: ImgView, x: int, y: int, c: int) -> int {
    orient_of(delta_v(v, x, y, c), delta_h(v, x, y, c))
}

/// The whole edge map of an image, as a model image.
pub open spec fn edge_view(v: ImgView) -> ImgView {
    ImgView {
        width: v.width,
        height: v.height,
        data: Seq::new(v.data.len(), |i: int| edge_at(v, (i / 4) % v.width, (i / 4) / v.width, i % 4)),
    }
}

/// The whole orientation map of an image, as a model image.
pub open spec fn orient_view(v: ImgView) -> ImgView {
    ImgView {
        width: v.width,
        height: v.height,
        data: Seq::new(v.data.len(), |i: int| orient_at(v, (i / 4) % v.width, (i / 4) / v.width, i % 4)),
    }
}

/// The derived maps, sample by sample.
pub proof fn lemma_derived_at(v: ImgView, x: int, y: int, c: int)
    requires
        v.wf(),
        0 <= x < v.width,
        0 <= y < v.height,
        0 <= c < 4,
    ensures
        edge_view(v).at(x, y, c) == edge_at(v, x, y, c),
        orient_view(v).at(x, y, c) == orient_at(v, x, y, c),
{
    let w = v.width;
    let i = (y * w + x) * 4 + c;
    crate::img::lemma_index_in_range(w, v.height, x, y, c);
    assert((i / 4) % w == x && (i / 4) / w == y && i % 4 == c) by (nonlinear_arith)
        requires
            i == (y * w + x) * 4 + c,
            0 <= x < w,
            0 <= y < v.height,
            0 <= c < 4;
}

/// The orientation map of any image keeps its samples within the unit range.
pub proof fn lemma_orient_view_bounded(v: ImgView)
    requires
        v.wf(),
    ensures
        orient_view(v).wf(),
        orient_view(v).width == v.width,
        orient_view(v).height == v.height,
        orient_view(v).bounded(1024),
{
    let m = orient_view(v);
    assert forall|x: int, y: int, c: int|
        0 <= x < m.width && 0 <= y < m.height && 0 <= c < 4 implies
            -1024 <= #[trigger] m.at(x, y, c) <= 1024 by {
        lemma_derived_at(v, x, y, c);
        lemma_diamond_range(delta_v(v, x, y, c), delta_h(v, x, y, c));
    }
}

/// The edge map of a bounded image stays within eight times the bound.
pub proof fn lemma_edge_view_bounded(v: ImgView, b: int)
    requires
        v.wf(),
        v.bounded(b),
        b >= 0,
    ensures
        edge_view(v).wf(),
        edge_view(v).width == v.width,
        edge_view(v).height == v.height,
        edge_view(v).bounded(8 * b),
{
    let m = edge_view(v);
    assert forall|x: int, y: int, c: int|
        0 <= x < m.width && 0 <= y < m.height && 0 <= c < 4 implies
            -(8 * b) <= #[trigger] m.at(x, y, c) <= 8 * b by {
        lemma_derived_at(v, x, y, c);
        lemma_edge_at_bounded(v, b, x, y, c);
    }
}

/// Edge samples of a bounded image stay within eight times its bound.
pub proof fn lemma_edge_at_bounded(v: ImgView, b: int, x: int, y: int, c: int)
    requires
        v.wf(),
        v.bounded(b),
        0 <= x < v.width,
        0 <= y < v.height,
        0 <= c < 4,
        b >= 0,
    ensures
        -(8 * b) <= edge_at(v, x, y, c) <= 8 * b,
{
    assert(-b <= v.at(x, y, c) <= b);
}

/// Per-channel edge magnitude map of an image: the discrete Laplacian with
/// border samples clamped. A uniform image yields the zero map.
pub fn edge_map(img: &Img) -> (r: Img)
    requires
        img.wf(),
        img@.bounded(0x1000_0000),
        img.width >= 1,
        img.height >= 1,
    ensures
        r.wf(),
        r.width == img.width,
        r.height == img.height,
        forall|x: int, y: int, c: int|
            0 <= x < img.width && 0 <= y < img.height && 0 <= c < 4 ==>
                #[trigger] r@.at(x, y, c) == edge_at(img@, x, y, c),
        r@ == edge_view(img@),
        r@.bounded(0x8000_0000),
{
    let _len: usize = img.data.len();
    let mut out = Img::zero(img.width, img.height);
    let w = img.width;
    let h = img.height;
    let mut y: usize = 0;
    while y < h
        invariant
            y <= h,
            out.wf(),
            out.width == w,
            out.height == h,
            img.wf(),
            img.width == w,
            img.height == h,
            img@.bounded(0x1000_0000),
            w >= 1,
            h >= 1,
            forall|x2: int, y2: int, c2: int|
                0 <= x2 < w && 0 <= y2 < y && 0 <= c2 < 4 ==>
                    #[trigger] out@.at(x2, y2, c2) == edge_at(img@, x2, y2, c2),
            forall|x2: int, y2: int, c2: int|
                0 <= x2 < w && 0 <= y2 < y && 0 <= c2 < 4 ==>
                    -0x8000_0000 <= #[trigger] out@.at(x2, y2, c2) <= 0x8000_0000,
            forall|x2: int, y2: int, c2: int|
                0 <= x2 < w && y <= y2 < h && 0 <= c2 < 4 ==>
                    #[trigger] out@.at(x2, y2, c2) == 0,
        decreases h - y,
    {
        let mut x: usize = 0;
        while x < w
            invariant
                y < h,
                x <= w,
                out.wf(),
                out.width == w,
                out.height == h,
                img.wf(),
                img.width == w,
                img.height == h,
                img@.bounded(0x1000_0000),
                w >= 1,
                h >= 1,
                forall|x2: int, y2: int, c2: int|
                    0 <= x2 < w && 0 <= y2 < y && 0 <= c2 < 4 ==>
                        #[trigger] out@.at(x2, y2, c2) == edge_at(img@, x2, y2, c2),
                forall|x2: int, y2: int, c2: int|
                    0 <= x2 < w && 0 <= y2 < y && 0 <= c2 < 4 ==>
                        -0x8000_0000 <= #[trigger] out@.at(x2, y2, c2) <= 0x8000_0000,
                forall|x2: int, c2: int|
                    0 <= x2 < x && 0 <= c2 < 4 ==>
                        #[trigger] out@.at(x2, y as int, c2) == edge_at(img@, x2, y as int, c2)
                        && -0x8000_0000 <= out@.at(x2, y as int, c2) <= 0x8000_0000,
                forall|x2: int, y2: int, c2: int|
                    0 <= x2 < w && y < y2 < h && 0 <= c2 < 4 ==>
                        #[trigger] out@.at(x2, y2, c2) == 0,
                forall|x2: int, c2: int|
                    x <= x2 < w && 0 <= c2 < 4 ==>
                        #[trigger] out@.at(x2, y as int, c2) == 0,
            decreases w - x,
        {
            let xl = if x > 0 { x - 1 } else { x };
            let xr = if x + 1 < w { x + 1 } else { x };
            let yu = if y > 0 { y - 1 } else { y };
            let yd = if y + 1 < h { y + 1 } else { y };
            let mut c: usize = 0;
            while c < 4
                invariant
                    y < h,
                    x < w,
                    c <= 4,
                    out.wf(),
                    out.width == w,
                    out.height == h,
                    img.wf(),
                    img.width == w,
                    img.height == h,
                    img@.bounded(0x1000_0000),
                    w >= 1,
                    h >= 1,
                    xl == if x > 0 { x - 1 } else { x as int },
                    xr == if x + 1 < w { x + 1 } else { x as int },
                    yu == if y > 0 { y - 1 } else { y as int },
                    yd == if y + 1 < h { y + 1 } else { y as int },
                    forall|x2: int, y2: int, c2: int|
                        0 <= x2 < w && 0 <= y2 < y && 0 <= c2 < 4 ==>
                            #[trigger] out@.at(x2, y2, c2) == edge_at(img@, x2, y2, c2),
                    forall|x2: int, y2: int, c2: int|
                        0 <= x2 < w && 0 <= y2 < y && 0 <= c2 < 4 ==>
                            -0x8000_0000 <= #[trigger] out@.at(x2, y2, c2) <= 0x8000_0000,
                    forall|x2: int, c2: int|
                        0 <= x2 < x && 0 <= c2 < 4 ==>
                            #[trigger] out@.at(x2, y as int, c2) == edge_at(img@, x2, y as int, c2)
                            && -0x8000_0000 <= out@.at(x2, y as int, c2) <= 0x8000_0000,
                    forall|c2: int|
                        0 <= c2 < c ==>
                            #[trigger] out@.at(x as int, y as int, c2) == edge_at(img@, x as int, y as int, c2)
                            && -0x8000_0000 <= out@.at(x as int, y as int, c2) <= 0x8000_0000,
                    forall|x2: int, y2: int, c2: int|
                        0 <= x2 < w && y < y2 < h && 0 <= c2 < 4 ==>
                            #[trigger] out@.at(x2, y2, c2) == 0,
                    forall|x2: int, c2: int|
                        x < x2 < w && 0 <= c2 < 4 ==>
                            #[trigger] out@.at(x2, y as int, c2) == 0,
                decreases 4 - c,
            {
                let v = 4 * img.get(x, y, c)
                    - img.get(xl, y, c)
                    - img.get(xr, y, c)
                    - img.get(x, yu, c)
                    - img.get(x, yd, c);
                out.put(x, y, c, v);
                c = c + 1;
            }
            x = x + 1;
        }
        y = y + 1;
    }
    proof {
        lemma_view_map_eq(out@, img@, true);
    }
    out
}

/// A derived map equal pointwise to the edge or orientation formula is that
/// whole map.
proof fn lemma_view_map_eq(a: ImgView, src: ImgView, edges: bool)
    requires
        a.wf(),
        src.wf(),
        a.width == src.width,
        a.height == src.height,
        edges ==> forall|x: int, y: int, c: int|
            0 <= x < src.width && 0 <= y < src.height && 0 <= c < 4 ==>
                #[trigger] a.at(x, y, c) == edge_at(src, x, y, c),
        !edges ==> forall|x: int, y: int, c: int|
            0 <= x < src.width && 0 <= y < src.height && 0 <= c < 4 ==>
                #[trigger] a.at(x, y, c) == orient_at(src, x, y, c),
    ensures
        edges ==> a == edge_view(src),
        !edges ==> a == orient_view(src),
{
    let b = if edges { edge_view(src) } else { orient_view(src) };
    assert forall|x: int, y: int, c: int|
        0 <= x < src.width && 0 <= y < src.height && 0 <= c < 4 implies
            #[trigger] b.at(x, y, c) == a.at(x, y, c) by {
        let w = src.width;
        let i = (y * w + x) * 4 + c;
        crate::img::lemma_index_in_range(w, src.height, x, y, c);
        assert((i / 4) % w == x && (i / 4) / w == y && i % 4 == c) by (nonlinear_arith)
            requires
                i == (y * w + x) * 4 + c,
                0 <= x < w,
                0 <= y < src.height,
                0 <= c < 4;
    }
    crate::img::lemma_pointwise_eq(b, a);
}

/// A uniform image has the zero edge map in every channel.
pub proof fn lemma_edge_map_uniform_zero(v: ImgView, k0: int, k1: int, k2: int, k3: int)
    requires
        v.wf(),
        forall|x: int, y: int| 0 <= x < v.width && 0 <= y < v.height ==> #[trigger] v.at(x, y, 0) == k0,
        forall|x: int, y: int| 0 <= x < v.width && 0 <= y < v.height ==> #[trigger] v.at(x, y, 1) == k1,
        forall|x: int, y: int| 0 <= x < v.width && 0 <= y < v.height ==> #[trigger] v.at(x, y, 2) == k2,
        forall|x: int, y: int| 0 <= x < v.width && 0 <= y < v.height ==> #[trigger] v.at(x, y, 3) == k3,
    ensures
        forall|x: int, y: int, c: int|
            0 <= x < v.width && 0 <= y < v.height && 0 <= c < 4 ==>
                #[trigger] edge_at(v, x, y, c) == 0,
{
    assert forall|x: int, y: int, c: int|
        0 <= x < v.width && 0 <= y < v.height && 0 <= c < 4 implies
            #[trigger] edge_at(v, x, y, c) == 0 by {
        let xl = if x > 0 { x - 1 } else { x };
        let xr = if x + 1 < v.width { x + 1 } else { x };
        let yu = if y > 0 { y - 1 } else { y };
        let yd = if y + 1 < v.height { y + 1 } else { y };
        assert(0 <= xl < v.width && 0 <= xr < v.width && 0 <= yu < v.height && 0 <= yd < v.height);
        if c == 0 {
            assert(v.at(x, y, 0) == k0 && v.at(xl, y, 0) == k0 && v.at(xr, y, 0) == k0
                && v.at(x, yu, 0) == k0 && v.at(x, yd, 0) == k0);
        } else if c == 1 {
            assert(v.at(x, y, 1) == k1 && v.at(xl, y, 1) == k1 && v.at(xr, y, 1) == k1
                && v.at(x, yu, 1) == k1 && v.at(x, yd, 1) == k1);
        } else if c == 2 {
            assert(v.at(x, y, 2) == k2 && v.at(xl, y, 2) == k2 && v.at(xr, y, 2) == k2
                && v.at(x, yu, 2) == k2 && v.at(x, yd, 2) == k2);
        } else {
            assert(v.at(x, y, 3) == k3 && v.at(xl, y, 3) == k3 && v.at(xr, y, 3) == k3
                && v.at(x, yu, 3) == k3 && v.at(x, yd, 3) == k3);
        }
    }
}

/// Per-channel gradient orientation map of an image: unit white minus the
/// normalized direction of (vertical delta, horizontal delta), measured as
/// the integer pseudo-angle, border-clamped. Captures direction, not
/// magnitude; flat regions map to the unit value.
pub fn orientation_map(img: &Img) -> (r: Img)
    requires
        img.wf(),
        img@.bounded(0x1000_0000),
        img.width >= 1,
        img.height >= 1,
    ensures
        r.wf(),
        r.width == img.width,
        r.height == img.height,
        forall|x: int, y: int, c: int|
            0 <= x < img.width && 0 <= y < img.height && 0 <= c < 4 ==>
                #[trigger] r@.at(x, y, c) == orient_at(img@, x, y, c),
        r@ == orient_view(img@),
        r@.bounded(1024),
{
    let _len: usize = img.data.len();
    let mut out = Img::zero(img.width, img.height);
    let w = img.width;
    let h = img.height;
    let mut y: usize = 0;
    while y < h
        invariant
            y <= h,
            out.wf(),
            out.width == w,
            out.height == h,
            img.wf(),
            img.width == w,
            img.height == h,
            img@.bounded(0x1000_0000),
            w >= 1,
            h >= 1,
            forall|x2: int, y2: int, c2: int|
                0 <= x2 < w && 0 <= y2 < y && 0 <= c2 < 4 ==>
                    #[trigger] out@.at(x2, y2, c2) == orient_at(img@, x2, y2, c2),
            forall|x2: int, y2: int, c2: int|
                0 <= x2 < w && 0 <= y2 < y && 0 <= c2 < 4 ==>
                    -1024 <= #[trigger] out@.at(x2, y2, c2) <= 1024,
            forall|x2: int, y2: int, c2: int|
                0 <= x2 < w && y <= y2 < h && 0 <= c2 < 4 ==>
                    #[trigger] out@.at(x2, y2, c2) == 0,
        decreases h - y,
    {
        let mut x: usize = 0;
        while x < w
            invariant
                y < h,
                x <= w,
                out.wf(),
                out.width == w,
                out.height == h,
                img.wf(),
                img.width == w,
                img.height == h,
                img@.bounded(0x1000_0000),
                w >= 1,
                h >= 1,
                forall|x2: int, y2: int, c2: int|
                    0 <= x2 < w && 0 <= y2 < y && 0 <= c2 < 4 ==>
                        #[trigger] out@.at(x2, y2, c2) == orient_at(img@, x2, y2, c2),
                forall|x2: int, y2: int, c2: int|
                    0 <= x2 < w && 0 <= y2 < y && 0 <= c2 < 4 ==>
                        -1024 <= #[trigger] out@.at(x2, y2, c2) <= 1024,
                forall|x2: int, c2: int|
                    0 <= x2 < x && 0 <= c2 < 4 ==>
                        #[trigger] out@.at(x2, y as int, c2) == orient_at(img@, x2, y as int, c2)
                        && -1024 <= out@.at(x2, y as int, c2) <= 1024,
                forall|x2: int, y2: int, c2: int|
                    0 <= x2 < w && y < y2 < h && 0 <= c2 < 4 ==>
                        #[trigger] out@.at(x2, y2, c2) == 0,
                forall|x2: int, c2: int|
                    x <= x2 < w && 0 <= c2 < 4 ==>
                        #[trigger] out@.at(x2, y as int, c2) == 0,
            decreases w - x,
        {
            let xl = if x > 0 { x - 1 } else { x };
            let xr = if x + 1 < w { x + 1 } else { x };
            let yu = if y > 0 { y - 1 } else { y };
            let yd = if y + 1 < h { y + 1 } else { y };
            let mut c: usize = 0;
            while c < 4
                invariant
                    y < h,
                    x < w,
                    c <= 4,
                    out.wf(),
                    out.width == w,
                    out.height == h,
                    img.wf(),
                    img.width == w,
                    img.height == h,
                    img@.bounded(0x1000_0000),
                    w >= 1,
                    h >= 1,
                    xl == if x > 0 { x - 1 } else { x as int },
                    xr == if x + 1 < w { x + 1 } else { x as int },
                    yu == if y > 0 { y - 1 } else { y as int },
                    yd == if y + 1 < h { y + 1 } else { y as int },
                    forall|x2: int, y2: int, c2: int|
                        0 <= x2 < w && 0 <= y2 < y && 0 <= c2 < 4 ==>
                            #[trigger] out@.at(x2, y2, c2) == orient_at(img@, x2, y2, c2),
                    forall|x2: int, y2: int, c2: int|
                        0 <= x2 < w && 0 <= y2 < y && 0 <= c2 < 4 ==>
                            -1024 <= #[trigger] out@.at(x2, y2, c2) <= 1024,
                    forall|x2: int, c2: int|
                        0 <= x2 < x && 0 <= c2 < 4 ==>
                            #[trigger] out@.at(x2, y as int, c2) == orient_at(img@, x2, y as int, c2)
                            && -1024 <= out@.at(x2, y as int, c2) <= 1024,
                    forall|c2: int|
                        0 <= c2 < c ==>
                            #[trigger] out@.at(x as int, y as int, c2) == orient_at(img@, x as int, y as int, c2)
                            && -1024 <= out@.at(x as int, y as int, c2) <= 1024,
                    forall|x2: int, y2: int, c2: int|
                        0 <= x2 < w && y < y2 < h && 0 <= c2 < 4 ==>
                            #[trigger] out@.at(x2, y2, c2) == 0,
                    forall|x2: int, c2: int|
                        x < x2 < w && 0 <= c2 < 4 ==>
                            #[trigger] out@.at(x2, y as int, c2) == 0,
                decreases 4 - c,
            {
                let dv = img.get(x, yd, c) - img.get(x, yu, c);
                let dh = img.get(xr, y, c) - img.get(xl, y, c);
                let v = orient_value(dv, dh);
                out.put(x, y, c, v);
                c = c + 1;
            }
            x = x + 1;
        }
        y = y + 1;
    }
    proof {
        lemma_view_map_eq(out@, img@, false);
    }
    out
}

/// The sum of the first `k` samples of channel `c`, one per pixel.
pub open spec fn channel_sum(v: ImgView, c: int, k: int) -> int
    decreases k,
{
    if k <= 0 {
        0
    } else {
        channel_sum(v, c, k - 1) + v.data[4 * (k - 1) + c]
    }
}

/// The four channel means of an image, each the truncated average of its
/// samples.
pub struct MeanColor {
    pub ch: Vec<i64>,
}

impl MeanColor {
    pub open spec fn wf(self) -> bool {
        self.ch@.len() == 4
    }

    pub open spec fn channel(self, c: int) -> int {
        self.ch@[c] as int
    }
}

/// The mean color of an image: the arithmetic mean of each of the four
/// channels over all pixels, truncated to an integer.
pub fn mean_color(img: &Img) -> (r: MeanColor)
    requires
        img.wf(),
        img@.raw8(),
        img.width >= 1,
        img.height >= 1,
        img.width * img.height <= 0x1000_0000,
    ensures
        r.wf(),
        forall|c: int| 0 <= c < 4 ==>
            #[trigger] r.channel(c) == channel_sum(img@, c, img.width * img.height) / (img.width * img.height),
        forall|c: int| 0 <= c < 4 ==> 0 <= #[trigger] r.channel(c) < 256,
{
    let np: usize = img.data.len() / 4;
    proof {
        assert(img@.data.len() == img.width * img.height * 4);
        assert(img.width * img.height * 4 / 4 == img.width * img.height && img.width * img.height >= 1)
            by (nonlinear_arith)
            requires img.width >= 1, img.height >= 1;
    }
    let mut sums: Vec<u64> = Vec::new();
    let mut c: usize = 0;
    while c < 4
        invariant
            c <= 4,
            np == img.width * img.height,
            1 <= np <= 0x1000_0000,
            img.wf(),
            img@.raw8(),
            sums@.len() == c,
            forall|c2: int| 0 <= c2 < c ==>
                #[trigger] sums@[c2] == channel_sum(img@, c2, np as int)
                && 0 <= sums@[c2] <= np * 255,
        decreases 4 - c,
    {
        let mut s: u64 = 0;
        let mut k: usize = 0;
        while k < np
            invariant
                c < 4,
                k <= np,
                np == img.width * img.height,
                1 <= np <= 0x1000_0000,
                img.wf(),
                img@.raw8(),
                s == channel_sum(img@, c as int, k as int),
                0 <= s <= k * 255,
            decreases np - k,
        {
            proof {
                assert(4 * k + c < img@.data.len()) by (nonlinear_arith)
                    requires k < np, c < 4, img@.data.len() == np * 4;
                assert(0 <= img@.data[4 * k + c] < 256);
                assert(k * 255 + 255 == (k + 1) * 255) by (nonlinear_arith);
                assert((k + 1) * 255 <= np * 255) by (nonlinear_arith)
                    requires k + 1 <= np;
            }
            let v: i64 = img.data[4 * k + c];
            s = s + v as u64;
            k = k + 1;
        }
        sums.push(s);
        c = c + 1;
    }
    let n64: u64 = np as u64;
    let mut ch: Vec<i64> = Vec::new();
    let mut c: usize = 0;
    while c < 4
        invariant
            c <= 4,
            np >= 1,
            n64 == np,
            np == img.width * img.height,
            img.wf(),
            img@.raw8(),
            sums@.len() == 4,
            forall|c2: int| 0 <= c2 < 4 ==>
                #[trigger] sums@[c2] == channel_sum(img@, c2, np as int)
                && 0 <= sums@[c2] <= np * 255,
            ch@.len() == c,
            forall|c2: int| 0 <= c2 < c ==>
                #[trigger] ch@[c2] == channel_sum(img@, c2, np as int) / (np as int)
                && 0 <= ch@[c2] < 256,
        decreases 4 - c,
    {
        let m: u64 = sums[c] / n64;
        proof {
            assert((sums@[c as int] as int) / (n64 as int) < 256) by (nonlinear_arith)
                requires sums@[c as int] <= np * 255, n64 == np, np >= 1, sums@[c as int] >= 0;
        }
        ch.push(m as i64);
        c = c + 1;
    }
    MeanColor { ch }
}

} // verus!
