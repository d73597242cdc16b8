use vstd::prelude::*;
use crate::img::{Img, ImgView};
use crate::palette::{Label, MosaicError, resized_view, resize_to};
use crate::select::{best_of, window_keys, palette_fits};
use crate::descriptor::channel_sum;

verus! {

/// How many whole tile steps cover a dimension: the ceiling of
/// (dim - tile + 1) / tile.
pub open spec fn grid_steps(dim: int, tile: int) -> int {
    ((dim - tile + 1) + (tile - 1)) / tile
}

/// The mean of one channel over a window, truncated.
pub open spec fn win_mean_ch(win: ImgView, c: int) -> int {
    channel_sum(win, c, win.width * win.height) / (win.width * win.height)
}

/// The sample stamped into the output for tile pixel (ox, oy), channel c:
/// the tile's sample, except that a mostly transparent tile pixel falls back
/// to the window's mean luma in the color channels, and the alpha channel
/// always carries the window's mean alpha.
pub open spec fn stamp_at(tile: ImgView, win: ImgView, ox: int, oy: int, c: int) -> int {
    if c == 3 {
        win_mean_ch(win, 3)
    } else if tile.at(ox, oy, 3) < 128 {
        (win_mean_ch(win, 0) + win_mean_ch(win, 1) + win_mean_ch(win, 2)) / 3
    } else {
        tile.at(ox, oy, c)
    }
}

/// The alpha fallback: wherever the chosen tile is mostly transparent, the
/// stamped color channels all carry the window's mean luma, and the stamped
/// alpha channel carries the window's mean alpha whatever the tile holds.
pub proof fn lemma_alpha_fallback(tile: ImgView, win: ImgView, ox: int, oy: int)
    ensures
        tile.at(ox, oy, 3) < 128 ==> forall|c: int| 0 <= c < 3 ==>
            #[trigger] stamp_at(tile, win, ox, oy, c)
                == (win_mean_ch(win, 0) + win_mean_ch(win, 1) + win_mean_ch(win, 2)) / 3,
        stamp_at(tile, win, ox, oy, 3) == win_mean_ch(win, 3),
{
}

/// The window of the resized target at grid cell (gx, gy).
pub open spec fn cell_window(rt: ImgView, pw: int, ph: int, gx: int, gy: int) -> ImgView {
    rt.window(gx * pw, gy * ph, pw, ph)
}

/// The palette index chosen for grid cell (gx, gy): the largest order key
/// under the scale pw over the resized target width, lowest index on ties.
pub open spec fn best_in_cell(rt: ImgView, pal: Seq<Label>, pw: int, ph: int, gx: int, gy: int) -> int {
    best_of(window_keys(cell_window(rt, pw, ph, gx, gy), pal, pw, rt.width))
}

/// The output sample at tile offset (ox, oy) of grid cell (gx, gy).
pub open spec fn mosaic_pixel(rt: ImgView, pal: Seq<Label>, pw: int, ph: int, gx: int, gy: int, ox: int, oy: int, c: int) -> int {
    stamp_at(
        pal[best_in_cell(rt, pal, pw, ph, gx, gy)].image@,
        cell_window(rt, pw, ph, gx, gy),
        ox, oy, c,
    )
}

/// How many of the first t grid cells, walked row by row, chose tile i.
pub open spec fn wins_upto(rt: ImgView, pal: Seq<Label>, pw: int, ph: int, cols: int, t: int, i: int) -> int
    decreases t,
{
    if t <= 0 {
        0
    } else {
        wins_upto(rt, pal, pw, ph, cols, t - 1, i)
            + if best_in_cell(rt, pal, pw, ph, (t - 1) % cols, (t - 1) / cols) == i { 1int } else { 0int }
    }
}

/// Usage counts only ever grow along the walk.
proof fn lemma_wins_nonneg(rt: ImgView, pal: Seq<Label>, pw: int, ph: int, cols: int, t: int, i: int)
    requires
        t >= 0,
    ensures
        0 <= wins_upto(rt, pal, pw, ph, cols, t, i) <= t,
    decreases t,
{
    if t > 0 {
        lemma_wins_nonneg(rt, pal, pw, ph, cols, t - 1, i);
    }
}

/// Order keys depend only on the images and descriptor maps of the palette,
/// never on its usage counts.
proof fn lemma_keys_ignore_counts(win: ImgView, p1: Seq<Label>, p2: Seq<Label>, num: int, den: int)
    requires
        p1.len() == p2.len(),
        forall|i: int| 0 <= i < p1.len() ==> (#[trigger] p1[i]).image == p2[i].image
            && p1[i].o == p2[i].o && p1[i].m == p2[i].m,
    ensures
        window_keys(win, p1, num, den) == window_keys(win, p2, num, den),
{
    let k1 = window_keys(win, p1, num, den);
    let k2 = window_keys(win, p2, num, den);
    assert forall|i: int| 0 <= i < k1.len() implies k1[i] == k2[i] by {
        assert(p1[i].image == p2[i].image && p1[i].o == p2[i].o && p1[i].m == p2[i].m);
    }
    assert(k1 =~= k2);
}

/// Assemble the mosaic. The target is brought to the size at which its larger
/// dimension is imax; the grid of tile-sized windows covering it is walked
/// row by row; for each window the closest palette tile is chosen and its
/// pixels are stamped into the output canvas, transparent tile pixels falling
/// back to the window's mean luma; the chosen tile's usage count grows by
/// one, strictly after its window's search has finished. The canvas is
/// exactly tile-width times columns by tile-height times rows; no other
/// pixel exists to be written.
#[verifier::rlimit(100)]
pub fn generate_image_pixel_mode(target: &Img, palette: &mut Vec<Label>, imax: u32) -> (r: Result<Img, MosaicError>)
    requires
        target.wf(),
        target@.raw8(),
        1 <= target.width <= 0x4000,
        1 <= target.height <= 0x4000,
        1 <= imax <= 0x4000,
        old(palette)@.len() >= 1,
        1 <= old(palette)@[0].image.width <= 0x100,
        1 <= old(palette)@[0].image.height <= 0x100,
        palette_fits(old(palette)@, old(palette)@[0].image.width as int, old(palette)@[0].image.height as int),
        forall|i: int| 0 <= i < old(palette)@.len() ==> (#[trigger] old(palette)@[i]).count <= 0x4000_0000_0000_0000,
    ensures
        r is Err <==> crate::scaled_w(target.width as int, target.height as int, imax as int) < old(palette)@[0].image.width
            || crate::scaled_h(target.width as int, target.height as int, imax as int) < old(palette)@[0].image.height,
        r is Err ==> r->Err_0 is SizeOutOfRange && final(palette)@ == old(palette)@,
        r is Ok ==> ({
            let pw = old(palette)@[0].image.width as int;
            let ph = old(palette)@[0].image.height as int;
            let w = crate::scaled_w(target.width as int, target.height as int, imax as int);
            let h = crate::scaled_h(target.width as int, target.height as int, imax as int);
            let out = r->Ok_0;
            &&& out.wf()
            &&& out@.raw8()
            &&& out.width == pw * grid_steps(w, pw)
            &&& out.height == ph * grid_steps(h, ph)
        }),
        r is Ok ==> ({
            let pw = old(palette)@[0].image.width as int;
            let ph = old(palette)@[0].image.height as int;
            let w = crate::scaled_w(target.width as int, target.height as int, imax as int);
            let h = crate::scaled_h(target.width as int, target.height as int, imax as int);
            let rt = resized_view(target@, w, h);
            let cols = grid_steps(w, pw);
            let rows = grid_steps(h, ph);
            let pal0 = old(palette)@;
            let out = r->Ok_0;
            forall|gx: int, gy: int, ox: int, oy: int, c: int|
                0 <= gx < cols && 0 <= gy < rows && 0 <= ox < pw && 0 <= oy < ph && 0 <= c < 4 ==>
                    out@.at(gx * pw + ox, gy * ph + oy, c)
                        == #[trigger] mosaic_pixel(rt, pal0, pw, ph, gx, gy, ox, oy, c)
        }),
        r is Ok ==> final(palette)@.len() == old(palette)@.len(),
        r is Ok ==> forall|i: int| 0 <= i < old(palette)@.len() ==>
            (#[trigger] final(palette)@[i]).image == old(palette)@[i].image
            && final(palette)@[i].o == old(palette)@[i].o
            && final(palette)@[i].m == old(palette)@[i].m
            && final(palette)@[i].color == old(palette)@[i].color
            && final(palette)@[i].id == old(palette)@[i].id,
        r is Ok ==> ({
            let pw = old(palette)@[0].image.width as int;
            let ph = old(palette)@[0].image.height as int;
            let w = crate::scaled_w(target.width as int, target.height as int, imax as int);
            let h = crate::scaled_h(target.width as int, target.height as int, imax as int);
            let rt = resized_view(target@, w, h);
            let cols = grid_steps(w, pw);
            let rows = grid_steps(h, ph);
            let pal0 = old(palette)@;
            forall|i: int| 0 <= i < pal0.len() ==> (#[trigger] final(palette)@[i]).count
                == pal0[i].count + wins_upto(rt, pal0, pw, ph, cols, cols * rows, i)
        }),
{
    let ghost pal0 = old(palette)@;
    let pw = palette[0].image.width;
    let ph = palette[0].image.height;
    let (w, h) = crate::resize_dims((target.width, target.height), imax);
    if w < pw || h < ph {
        return Err(MosaicError::SizeOutOfRange);
    }
    let rt = resize_to(target, w, h);
    let cols = ((w - pw + 1) + (pw - 1)) / pw;
    let rows = ((h - ph + 1) + (ph - 1)) / ph;
    proof {
        assert(cols == w as int / pw as int && rows == h as int / ph as int);
        assert(1 <= cols && cols * pw <= w && cols <= w) by (nonlinear_arith)
            requires cols == w as int / pw as int, 1 <= pw <= w;
        assert(1 <= rows && rows * ph <= h && rows <= h) by (nonlinear_arith)
            requires rows == h as int / ph as int, 1 <= ph <= h;
    }
    let cw = cols * pw;
    let ch2 = rows * ph;
    proof {
        assert(cw * ch2 * 4 <= usize::MAX) by (nonlinear_arith)
            requires cw <= 0x4000, ch2 <= 0x4000;
    }
    let mut canvas = Img::zero(cw, ch2);
    let ghost rtv = rt@;
    let mut gy: usize = 0;
    while gy < rows
        invariant
            gy <= rows,
            pw == pal0[0].image.width,
            ph == pal0[0].image.height,
            1 <= pw <= 0x100,
            1 <= ph <= 0x100,
            pw <= w <= 0x4000,
            ph <= h <= 0x4000,
            cols == grid_steps(w as int, pw as int),
            rows == grid_steps(h as int, ph as int),
            1 <= cols,
            1 <= rows,
            cols * pw == cw,
            rows * ph == ch2,
            cw <= w,
            ch2 <= h,
            rt.wf(),
            rt@ == rtv,
            rt@.raw8(),
            rt.width == w,
            rt.height == h,
            canvas.wf(),
            canvas.width == cw,
            canvas.height == ch2,
            palette@.len() == pal0.len() >= 1,
            palette_fits(pal0, pw as int, ph as int),
            forall|i: int| 0 <= i < pal0.len() ==> (#[trigger] palette@[i]).image == pal0[i].image
                && palette@[i].o == pal0[i].o
                && palette@[i].m == pal0[i].m
                && palette@[i].color == pal0[i].color
                && palette@[i].id == pal0[i].id,
            forall|i: int| 0 <= i < pal0.len() ==> (#[trigger] pal0[i]).count <= 0x4000_0000_0000_0000,
            forall|i: int| 0 <= i < pal0.len() ==> (#[trigger] palette@[i]).count
                == pal0[i].count + wins_upto(rtv, pal0, pw as int, ph as int, cols as int, gy as int * cols as int, i),
            forall|xx: int, yy: int, c2: int|
                0 <= xx < cw && 0 <= yy < ch2 && 0 <= c2 < 4 && yy / (ph as int) < gy ==>
                    #[trigger] canvas@.at(xx, yy, c2)
                        == mosaic_pixel(rtv, pal0, pw as int, ph as int, xx / (pw as int), yy / (ph as int), xx % (pw as int), yy % (ph as int), c2)
                        && 0 <= canvas@.at(xx, yy, c2) < 256,
        decreases rows - gy,
    {
        let mut gx: usize = 0;
        while gx < cols
            invariant
                gy < rows,
                gx <= cols,
                pw == pal0[0].image.width,
                ph == pal0[0].image.height,
                1 <= pw <= 0x100,
                1 <= ph <= 0x100,
                pw <= w <= 0x4000,
                ph <= h <= 0x4000,
                cols == grid_steps(w as int, pw as int),
                rows == grid_steps(h as int, ph as int),
                1 <= cols,
                1 <= rows,
                cols * pw == cw,
                rows * ph == ch2,
                cw <= w,
                ch2 <= h,
                rt.wf(),
                rt@ == rtv,
                rt@.raw8(),
                rt.width == w,
                rt.height == h,
                canvas.wf(),
                canvas.width == cw,
                canvas.height == ch2,
                palette@.len() == pal0.len() >= 1,
                palette_fits(pal0, pw as int, ph as int),
                forall|i: int| 0 <= i < pal0.len() ==> (#[trigger] palette@[i]).image == pal0[i].image
                    && palette@[i].o == pal0[i].o
                    && palette@[i].m == pal0[i].m
                    && palette@[i].color == pal0[i].color
                    && palette@[i].id == pal0[i].id,
                forall|i: int| 0 <= i < pal0.len() ==> (#[trigger] pal0[i]).count <= 0x4000_0000_0000_0000,
                forall|i: int| 0 <= i < pal0.len() ==> (#[trigger] palette@[i]).count
                    == pal0[i].count + wins_upto(rtv, pal0, pw as int, ph as int, cols as int, gy as int * cols as int + gx as int, i),
                forall|xx: int, yy: int, c2: int|
                    0 <= xx < cw && 0 <= yy < ch2 && 0 <= c2 < 4
                        && (yy / (ph as int) < gy || (yy / (ph as int) == gy && xx / (pw as int) < gx)) ==>
                        #[trigger] canvas@.at(xx, yy, c2)
                            == mosaic_pixel(rtv, pal0, pw as int, ph as int, xx / (pw as int), yy / (ph as int), xx % (pw as int), yy % (ph as int), c2)
                            && 0 <= canvas@.at(xx, yy, c2) < 256,
            decreases cols - gx,
        {
            proof {
                assert(gx as int * pw as int + pw as int <= cols as int * pw as int) by (nonlinear_arith)
                    requires gx as int + 1 <= cols as int, pw >= 1;
                assert(gy as int * ph as int + ph as int <= rows as int * ph as int) by (nonlinear_arith)
                    requires gy as int + 1 <= rows as int, ph >= 1;
            }
            let win = rt.crop(gx * pw, gy * ph, pw, ph);
            let wd = crate::score::window_desc(win);
            proof {
                assert(palette_fits(palette@, pw as int, ph as int)) by {
                    assert forall|i: int| 0 <= i < palette@.len() implies (#[trigger] palette@[i]).wf(pw as int, ph as int) by {
                        assert(pal0[i].wf(pw as int, ph as int));
                    }
                }
            }
            let best = crate::select::find_closest_image(&wd, palette, pw as u32, w as u32);
            proof {
                lemma_keys_ignore_counts(wd.img@, palette@, pal0, pw as int, w as int);
                assert(wd.img@ == cell_window(rtv, pw as int, ph as int, gx as int, gy as int));
                assert(best as int == best_in_cell(rtv, pal0, pw as int, ph as int, gx as int, gy as int));
                crate::select::lemma_best_of(window_keys(wd.img@, pal0, pw as int, w as int));
            }
            let tile = &palette[best].image;
            let mut oy: usize = 0;
            while oy < ph
                invariant
                    gy < rows,
                    gx < cols,
                    oy <= ph,
                    1 <= pw <= 0x100,
                    1 <= ph <= 0x100,
                    pw <= w <= 0x4000,
                    ph <= h <= 0x4000,
                    cols * pw == cw,
                    rows * ph == ch2,
                    canvas.wf(),
                    canvas.width == cw,
                    canvas.height == ch2,
                    wd.wf(),
                    wd.img@ == cell_window(rtv, pw as int, ph as int, gx as int, gy as int),
                    wd.img.width == pw,
                    wd.img.height == ph,
                    best < palette@.len(),
                    best as int == best_in_cell(rtv, pal0, pw as int, ph as int, gx as int, gy as int),
                    tile == palette@[best as int].image,
                    tile == pal0[best as int].image,
                    tile.wf(),
                    tile@.raw8(),
                    tile.width == pw,
                    tile.height == ph,
                    forall|xx: int, yy: int, c2: int|
                        0 <= xx < cw && 0 <= yy < ch2 && 0 <= c2 < 4
                            && (yy / (ph as int) < gy || (yy / (ph as int) == gy && xx / (pw as int) < gx)) ==>
                            #[trigger] canvas@.at(xx, yy, c2)
                                == mosaic_pixel(rtv, pal0, pw as int, ph as int, xx / (pw as int), yy / (ph as int), xx % (pw as int), yy % (ph as int), c2)
                                && 0 <= canvas@.at(xx, yy, c2) < 256,
                    forall|ox2: int, oy2: int, c2: int|
                        0 <= ox2 < pw && 0 <= oy2 < oy && 0 <= c2 < 4 ==>
                            #[trigger] canvas@.at(gx as int * pw + ox2, gy as int * ph + oy2, c2)
                                == stamp_at(tile@, wd.img@, ox2, oy2, c2)
                                && 0 <= canvas@.at(gx as int * pw + ox2, gy as int * ph + oy2, c2) < 256,
                decreases ph - oy,
            {
                let mut ox: usize = 0;
                while ox < pw
                    invariant
                        gy < rows,
                        gx < cols,
                        oy < ph,
                        ox <= pw,
                        1 <= pw <= 0x100,
                        1 <= ph <= 0x100,
                        pw <= w <= 0x4000,
                        ph <= h <= 0x4000,
                        cols * pw == cw,
                        rows * ph == ch2,
                        canvas.wf(),
                        canvas.width == cw,
                        canvas.height == ch2,
                        wd.wf(),
                        wd.img@ == cell_window(rtv, pw as int, ph as int, gx as int, gy as int),
                        wd.img.width == pw,
                        wd.img.height == ph,
                        tile.wf(),
                        tile@.raw8(),
                        tile.width == pw,
                        tile.height == ph,
                        forall|xx: int, yy: int, c2: int|
                            0 <= xx < cw && 0 <= yy < ch2 && 0 <= c2 < 4
                                && (yy / (ph as int) < gy || (yy / (ph as int) == gy && xx / (pw as int) < gx)) ==>
                                #[trigger] canvas@.at(xx, yy, c2)
                                    == mosaic_pixel(rtv, pal0, pw as int, ph as int, xx / (pw as int), yy / (ph as int), xx % (pw as int), yy % (ph as int), c2)
                                    && 0 <= canvas@.at(xx, yy, c2) < 256,
                        forall|ox2: int, oy2: int, c2: int|
                            0 <= ox2 < pw && 0 <= oy2 < oy && 0 <= c2 < 4 ==>
                                #[trigger] canvas@.at(gx as int * pw + ox2, gy as int * ph + oy2, c2)
                                    == stamp_at(tile@, wd.img@, ox2, oy2, c2)
                                    && 0 <= canvas@.at(gx as int * pw + ox2, gy as int * ph + oy2, c2) < 256,
                        forall|ox2: int, c2: int|
                            0 <= ox2 < ox && 0 <= c2 < 4 ==>
                                #[trigger] canvas@.at(gx as int * pw + ox2, gy as int * ph + oy as int, c2)
                                    == stamp_at(tile@, wd.img@, ox2, oy as int, c2)
                                    && 0 <= canvas@.at(gx as int * pw + ox2, gy as int * ph + oy as int, c2) < 256,
                    decreases pw - ox,
                {
                    let alpha = tile.get(ox, oy, 3);
                    proof {
                        assert(wd.mean.channel(0) == wd.mean.ch@[0] as int);
                        assert(wd.mean.channel(1) == wd.mean.ch@[1] as int);
                        assert(wd.mean.channel(2) == wd.mean.ch@[2] as int);
                        assert(wd.mean.channel(3) == wd.mean.ch@[3] as int);
                    }
                    let luma: i64 = (wd.mean.ch[0] + wd.mean.ch[1] + wd.mean.ch[2]) / 3;
                    let mut c: usize = 0;
                    while c < 4
                        invariant
                            gy < rows,
                            gx < cols,
                            oy < ph,
                            ox < pw,
                            c <= 4,
                            1 <= pw <= 0x100,
                            1 <= ph <= 0x100,
                            pw <= w <= 0x4000,
                            ph <= h <= 0x4000,
                            cols * pw == cw,
                            rows * ph == ch2,
                            canvas.wf(),
                            canvas.width == cw,
                            canvas.height == ch2,
                            wd.wf(),
                            wd.img@ == cell_window(rtv, pw as int, ph as int, gx as int, gy as int),
                            wd.img.width == pw,
                            wd.img.height == ph,
                            tile.wf(),
                            tile@.raw8(),
                            tile.width == pw,
                            tile.height == ph,
                            alpha == tile@.at(ox as int, oy as int, 3),
                            luma == (win_mean_ch(wd.img@, 0) + win_mean_ch(wd.img@, 1) + win_mean_ch(wd.img@, 2)) / 3,
                            0 <= luma < 256,
                            forall|xx: int, yy: int, c2: int|
                                0 <= xx < cw && 0 <= yy < ch2 && 0 <= c2 < 4
                                    && (yy / (ph as int) < gy || (yy / (ph as int) == gy && xx / (pw as int) < gx)) ==>
                                    #[trigger] canvas@.at(xx, yy, c2)
                                        == mosaic_pixel(rtv, pal0, pw as int, ph as int, xx / (pw as int), yy / (ph as int), xx % (pw as int), yy % (ph as int), c2)
                                        && 0 <= canvas@.at(xx, yy, c2) < 256,
                            forall|ox2: int, oy2: int, c2: int|
                                0 <= ox2 < pw && 0 <= oy2 < oy && 0 <= c2 < 4 ==>
                                    #[trigger] canvas@.at(gx as int * pw + ox2, gy as int * ph + oy2, c2)
                                        == stamp_at(tile@, wd.img@, ox2, oy2, c2)
                                        && 0 <= canvas@.at(gx as int * pw + ox2, gy as int * ph + oy2, c2) < 256,
                            forall|ox2: int, c2: int|
                                0 <= ox2 < ox && 0 <= c2 < 4 ==>
                                    #[trigger] canvas@.at(gx as int * pw + ox2, gy as int * ph + oy as int, c2)
                                        == stamp_at(tile@, wd.img@, ox2, oy as int, c2)
                                        && 0 <= canvas@.at(gx as int * pw + ox2, gy as int * ph + oy as int, c2) < 256,
                            forall|c2: int|
                                0 <= c2 < c ==>
                                    #[trigger] canvas@.at(gx as int * pw + ox as int, gy as int * ph + oy as int, c2)
                                        == stamp_at(tile@, wd.img@, ox as int, oy as int, c2)
                                        && 0 <= canvas@.at(gx as int * pw + ox as int, gy as int * ph + oy as int, c2) < 256,
                        decreases 4 - c,
                    {
                        proof {
                            assert(wd.mean.channel(0) == wd.mean.ch@[0] as int);
                            assert(wd.mean.channel(1) == wd.mean.ch@[1] as int);
                            assert(wd.mean.channel(2) == wd.mean.ch@[2] as int);
                            assert(wd.mean.channel(3) == wd.mean.ch@[3] as int);
                        }
                        let v: i64 = if c == 3 {
                            wd.mean.ch[3]
                        } else if alpha < 128 {
                            luma
                        } else {
                            tile.get(ox, oy, c)
                        };
                        proof {
                            crate::img::lemma_raw8_at(tile@);
                            assert forall|ox2: int| 0 <= ox2 < pw as int implies
                                0 <= #[trigger] (gx as int * pw + ox2) < cw by {
                                assert(gx as int * pw + ox2 < cols as int * pw) by (nonlinear_arith)
                                    requires gx as int + 1 <= cols as int, 0 <= ox2 < pw as int, pw >= 1;
                            }
                            assert forall|oy2: int| 0 <= oy2 < ph as int implies
                                0 <= #[trigger] (gy as int * ph + oy2) < ch2 by {
                                assert(gy as int * ph + oy2 < rows as int * ph) by (nonlinear_arith)
                                    requires gy as int + 1 <= rows as int, 0 <= oy2 < ph as int, ph >= 1;
                            }
                            assert((gx as int * pw + ox as int) / (pw as int) == gx as int
                                && (gx as int * pw + ox as int) % (pw as int) == ox as int) by (nonlinear_arith)
                                requires 0 <= ox < pw as int, pw >= 1, gx >= 0;
                            assert((gy as int * ph + oy as int) / (ph as int) == gy as int
                                && (gy as int * ph + oy as int) % (ph as int) == oy as int) by (nonlinear_arith)
                                requires 0 <= oy < ph as int, ph >= 1, gy >= 0;
                        }
                        canvas.put(gx * pw + ox, gy * ph + oy, c, v);
                        proof {
                            assert(0 <= v < 256);
                            assert(v == stamp_at(tile@, wd.img@, ox as int, oy as int, c as int));
                        }
                        c = c + 1;
                    }
                    ox = ox + 1;
                }
                oy = oy + 1;
            }
            // the window's search and stamping are done: count its win
            proof {
                let t = gy as int * cols as int + gx as int;
                assert(t % (cols as int) == gx as int && t / (cols as int) == gy as int) by (nonlinear_arith)
                    requires 0 <= gx < cols as int, 0 <= gy, t == gy as int * cols as int + gx as int;
                lemma_wins_nonneg(rtv, pal0, pw as int, ph as int, cols as int, t, best as int);
                assert(t <= cols as int * rows as int) by (nonlinear_arith)
                    requires 0 <= gx < cols as int, 0 <= gy < rows as int, t == gy as int * cols as int + gx as int;
                assert(cols as int * rows as int <= 0x1000_0000) by (nonlinear_arith)
                    requires cols <= 0x4000, rows <= 0x4000;
            }
            let lbl = &mut palette[best];
            lbl.count = lbl.count + 1;
            proof {
                // the cell just finished is now covered by the flat invariant
                assert forall|xx: int, yy: int, c2: int|
                    0 <= xx < cw && 0 <= yy < ch2 && 0 <= c2 < 4
                        && (yy / (ph as int) < gy || (yy / (ph as int) == gy && xx / (pw as int) < gx + 1)) implies
                        #[trigger] canvas@.at(xx, yy, c2)
                            == mosaic_pixel(rtv, pal0, pw as int, ph as int, xx / (pw as int), yy / (ph as int), xx % (pw as int), yy % (ph as int), c2)
                            && 0 <= canvas@.at(xx, yy, c2) < 256 by {
                    let cgx = xx / (pw as int);
                    let cgy = yy / (ph as int);
                    let cox = xx % (pw as int);
                    let coy = yy % (ph as int);
                    if cgy == gy && cgx == gx {
                        assert(xx == gx as int * pw + cox && 0 <= cox < pw && yy == gy as int * ph + coy && 0 <= coy < ph)
                            by (nonlinear_arith)
                            requires
                                cgx == xx / (pw as int), cox == xx % (pw as int), cgx == gx as int,
                                cgy == yy / (ph as int), coy == yy % (ph as int), cgy == gy as int,
                                pw >= 1, ph >= 1, xx >= 0, yy >= 0;
                        assert(canvas@.at(xx, yy, c2) == stamp_at(tile@, wd.img@, cox, coy, c2));
                    }
                }
            }
            gx = gx + 1;
        }
        proof {
            assert(gy as int * cols as int + cols as int == (gy as int + 1) * cols as int) by (nonlinear_arith);
            // a full row means the whole-row bound moves down one row
            assert forall|xx: int, yy: int, c2: int|
                0 <= xx < cw && 0 <= yy < ch2 && 0 <= c2 < 4 && yy / (ph as int) < gy + 1 implies
                    #[trigger] canvas@.at(xx, yy, c2)
                        == mosaic_pixel(rtv, pal0, pw as int, ph as int, xx / (pw as int), yy / (ph as int), xx % (pw as int), yy % (ph as int), c2)
                        && 0 <= canvas@.at(xx, yy, c2) < 256 by {
                assert(xx / (pw as int) < cols as int) by (nonlinear_arith)
                    requires 0 <= xx < cols as int * pw, pw >= 1, cw == cols as int * pw;
            }
        }
        gy = gy + 1;
    }
    proof {
        // every canvas pixel lies in a finished row
        assert forall|gx: int, gy2: int, ox: int, oy: int, c: int|
            0 <= gx < cols && 0 <= gy2 < rows && 0 <= ox < pw && 0 <= oy < ph && 0 <= c < 4 implies
                canvas@.at(gx * pw + ox, gy2 * ph + oy, c)
                    == #[trigger] mosaic_pixel(rtv, pal0, pw as int, ph as int, gx, gy2, ox, oy, c) by {
            let xx = gx * pw + ox;
            let yy = gy2 * ph + oy;
            assert(0 <= xx < cw && 0 <= yy < ch2 && xx / (pw as int) == gx && xx % (pw as int) == ox
                && yy / (ph as int) == gy2 && yy % (ph as int) == oy) by (nonlinear_arith)
                requires
                    xx == gx * pw + ox, yy == gy2 * ph + oy,
                    0 <= gx < cols as int, 0 <= gy2 < rows as int, 0 <= ox < pw, 0 <= oy < ph,
                    cw == cols as int * pw, ch2 == rows as int * ph, pw >= 1, ph >= 1;
        }
        // the canvas carries byte values everywhere
        assert forall|xx: int, yy: int, c2: int|
            0 <= xx < cw && 0 <= yy < ch2 && 0 <= c2 < 4 implies
                0 <= #[trigger] canvas@.at(xx, yy, c2) < 256 by {
            assert(yy / (ph as int) < rows as int) by (nonlinear_arith)
                requires 0 <= yy < rows as int * ph, ph >= 1, ch2 == rows as int * ph;
        }
        crate::img::lemma_at_range_raw8(canvas@);
        assert(canvas.width == cols * pw && canvas.height == rows * ph);
        assert(cols == grid_steps(w as int, pw as int) && rows == grid_steps(h as int, ph as int));
        assert(w as int == crate::scaled_w(target.width as int, target.height as int, imax as int));
        assert(h as int == crate::scaled_h(target.width as int, target.height as int, imax as int));
        assert(pw == old(palette)@[0].image.width && ph == old(palette)@[0].image.height);
        assert(canvas.height == ph as int * rows as int) by (nonlinear_arith)
            requires canvas.height == rows * ph;
        assert(canvas.width == pw as int * cols as int) by (nonlinear_arith)
            requires canvas.width == cols * pw;
        assert(rows as int * cols as int == cols as int * rows as int) by (nonlinear_arith);
        assert(rtv == resized_view(target@, w as int, h as int));
        assert forall|i: int| 0 <= i < pal0.len() implies (#[trigger] palette@[i]).count
            == pal0[i].count + wins_upto(rtv, pal0, pw as int, ph as int, cols as int, cols as int * rows as int, i) by {
            assert(palette@[i].count == pal0[i].count
                + wins_upto(rtv, pal0, pw as int, ph as int, cols as int, rows as int * cols as int, i));
        }
    }
    Ok(canvas)
}

} // verus!
