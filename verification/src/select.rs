use vstd::prelude::*;
use crate::palette::Label;
use crate::score::{WindowDesc, tile_key_s};

verus! {

/// The index of the largest key, ties broken toward the lowest index: the
/// deterministic replacement for a reduction whose order is unspecified.
pub open spec fn best_of(keys: Seq<int>) -> int
    decreases keys.len(),
{
    if keys.len() <= 1 {
        0
    } else {
        let p = best_of(keys.drop_last());
        if keys.last() > keys[p] {
            keys.len() - 1
        } else {
            p
        }
    }
}

/// The chosen index carries the maximum, and every earlier index carries
/// strictly less.
pub proof fn lemma_best_of(keys: Seq<int>)
    requires
        keys.len() >= 1,
    ensures
        0 <= best_of(keys) < keys.len(),
        forall|j: int| 0 <= j < keys.len() ==> #[trigger] keys[j] <= keys[best_of(keys)],
        forall|j: int| 0 <= j < best_of(keys) ==> #[trigger] keys[j] < keys[best_of(keys)],
    decreases keys.len(),
{
    if keys.len() > 1 {
        lemma_best_of(keys.drop_last());
        assert forall|j: int| 0 <= j < keys.len() implies #[trigger] keys[j] <= keys[best_of(keys)] by {
            if j < keys.len() - 1 {
                assert(keys.drop_last()[j] == keys[j]);
            }
        }
        assert forall|j: int| 0 <= j < best_of(keys) implies #[trigger] keys[j] < keys[best_of(keys)] by {
            if j < keys.len() - 1 {
                assert(keys.drop_last()[j] == keys[j]);
            }
        }
    }
}

/// The order keys of one window against every tile of the palette.
pub open spec fn window_keys(win: crate::img::ImgView, pal: Seq<Label>, num: int, den: int) -> Seq<int> {
    Seq::new(pal.len(), |i: int| tile_key_s(win, pal[i].image@, pal[i].o@, pal[i].m@, num, den))
}

/// Every tile of the palette has the window's size and well-formed
/// descriptors.
pub open spec fn palette_fits(pal: Seq<Label>, pw: int, ph: int) -> bool {
    forall|i: int| 0 <= i < pal.len() ==> (#[trigger] pal[i]).wf(pw, ph)
}

/// Find the palette tile closest to the window: the one with the largest
/// order key, the lowest index winning ties. A pure read-only reduction.
pub fn find_closest_image(wd: &WindowDesc, palette: &Vec<Label>, num: u32, den: u32) -> (r: usize)
    requires
        wd.wf(),
        palette@.len() >= 1,
        palette_fits(palette@, wd.img.width as int, wd.img.height as int),
        num >= 1,
        den >= 1,
    ensures
        r < palette@.len(),
        r == best_of(window_keys(wd.img@, palette@, num as int, den as int)),
        forall|j: int| 0 <= j < palette@.len() ==>
            #[trigger] window_keys(wd.img@, palette@, num as int, den as int)[j]
                <= window_keys(wd.img@, palette@, num as int, den as int)[r as int],
{
    let ghost keys = window_keys(wd.img@, palette@, num as int, den as int);
    let n = palette.len();
    let t0 = &palette[0];
    let mut best: usize = 0;
    let mut best_key: i128 = crate::score::score_tile(wd, &t0.image, &t0.o, &t0.m, num, den);
    proof {
        assert(keys.take(1).drop_last() =~= keys.take(0));
        assert(keys.take(1) =~= seq![keys[0]]);
    }
    let mut i: usize = 1;
    while i < n
        invariant
            1 <= i <= n,
            n == palette@.len(),
            wd.wf(),
            palette_fits(palette@, wd.img.width as int, wd.img.height as int),
            num >= 1,
            den >= 1,
            keys == window_keys(wd.img@, palette@, num as int, den as int),
            best < i,
            best == best_of(keys.take(i as int)),
            best_key == keys[best as int],
        decreases n - i,
    {
        let t = &palette[i];
        let k = crate::score::score_tile(wd, &t.image, &t.o, &t.m, num, den);
        proof {
            assert(keys.take(i + 1).drop_last() =~= keys.take(i as int));
            assert(keys.take(i + 1).last() == keys[i as int]);
            lemma_best_of(keys.take(i as int));
        }
        if k > best_key {
            best = i;
            best_key = k;
        }
        i = i + 1;
    }
    proof {
        assert(keys.take(n as int) =~= keys);
        lemma_best_of(keys);
    }
    best
}


/// Self-match: when the palette holds a tile whose image is the window
/// itself, no tile of the palette keys above it, and the selected tile's key
/// equals that tile's key.
pub proof fn lemma_self_match(win: crate::img::ImgView, pal: Seq<Label>, k: int, num: int, den: int)
    requires
        pal.len() >= 1,
        0 <= k < pal.len(),
        pal[k].image@ == win,
        win.wf(),
        1 <= win.width,
        1 <= win.height,
        palette_fits(pal, win.width, win.height),
        num >= 1,
        den >= 1,
    ensures
        forall|j: int| 0 <= j < pal.len() ==>
            #[trigger] window_keys(win, pal, num, den)[j] <= window_keys(win, pal, num, den)[k],
        window_keys(win, pal, num, den)[best_of(window_keys(win, pal, num, den))]
            == window_keys(win, pal, num, den)[k],
{
    let keys = window_keys(win, pal, num, den);
    assert(pal[k].wf(win.width, win.height));
    assert(pal[k].o@ == crate::descriptor::orient_view(win));
    assert(pal[k].m@ == crate::descriptor::edge_view(win));
    assert forall|j: int| 0 <= j < pal.len() implies #[trigger] keys[j] <= keys[k] by {
        assert(pal[j].wf(win.width, win.height));
        crate::score::lemma_tile_key_self_max(win, pal[j].image@, pal[j].o@, pal[j].m@, num, den);
    }
    lemma_best_of(keys);
    assert(keys[k] <= keys[best_of(keys)]);
}

} // verus!
