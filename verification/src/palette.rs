use vstd::prelude::*;
use crate::img::{Img, ImgView};
use crate::descriptor::{MeanColor, edge_view, orient_view, channel_sum};
use crate::{scaled_w, scaled_h};

verus! {

/// What the Lanczos3 resampler returns for given source samples and
/// dimensions: a function of these alone.
pub uninterp spec fn resize_pixels_of(data: Seq<int>, w0: int, h0: int, w: int, h: int) -> Seq<int>;

/// Relies on `image::imageops::resize` with the Lanczos3 filter: it returns a
/// buffer of exactly the requested dimensions, with byte-valued samples that
/// depend on the source samples and the four dimensions alone.
#[verifier::external_body]
fn lanczos_resize(img: &Img, w: usize, h: usize) -> (r: Img)
    requires
        img.wf(),
        img@.raw8(),
        1 <= img.width <= 0x4000,
        1 <= img.height <= 0x4000,
        1 <= w <= 0x4000,
        1 <= h <= 0x4000,
    ensures
        r.wf(),
        r.width == w,
        r.height == h,
        r@.raw8(),
        r@.data == resize_pixels_of(img@.data, img@.width, img@.height, w as int, h as int),
{
    let mut bytes: Vec<u8> = Vec::with_capacity(img.data.len());
    for v in img.data.iter() {
        bytes.push(*v as u8);
    }
    let buf = image::RgbaImage::from_raw(img.width as u32, img.height as u32, bytes).unwrap();
    let out = image::imageops::resize(&buf, w as u32, h as u32, image::imageops::FilterType::Lanczos3);
    Img {
        width: w,
        height: h,
        data: out.into_raw().into_iter().map(|b| b as i64).collect(),
    }
}

/// An image brought to the size (w, h): resampled where the size differs,
/// untouched where it already matches.
pub open spec fn resized_view(v: ImgView, w: int, h: int) -> ImgView {
    if v.width == w && v.height == h {
        v
    } else {
        ImgView { width: w, height: h, data: resize_pixels_of(v.data, v.width, v.height, w, h) }
    }
}

/// Bring an image to the size (w, h).
pub fn resize_to(img: &Img, w: usize, h: usize) -> (r: Img)
    requires
        img.wf(),
        img@.raw8(),
        1 <= img.width <= 0x4000,
        1 <= img.height <= 0x4000,
        1 <= w <= 0x4000,
        1 <= h <= 0x4000,
    ensures
        r.wf(),
        r.width == w,
        r.height == h,
        r@.raw8(),
        r@ == resized_view(img@, w as int, h as int),
{
    if img.width == w && img.height == h {
        img.duplicate()
    } else {
        lanczos_resize(img, w, h)
    }
}

/// One palette tile: its resampled image, mean color, edge and orientation
/// maps, its position in the palette, and how often it has been used.
pub struct Label {
    pub color: MeanColor,
    pub image: Img,
    pub o: Img,
    pub m: Img,
    pub count: u64,
    pub id: usize,
}

impl Label {
    /// The tile is sized pw-by-ph and its stored descriptors are exactly the
    /// derived maps and mean of its image.
    pub open spec fn wf(self, pw: int, ph: int) -> bool {
        &&& self.image.wf()
        &&& self.image@.raw8()
        &&& self.image.width == pw
        &&& self.image.height == ph
        &&& self.o.wf() && self.o.width == pw && self.o.height == ph
        &&& self.m.wf() && self.m.width == pw && self.m.height == ph
        &&& self.o@ == orient_view(self.image@)
        &&& self.m@ == edge_view(self.image@)
        &&& self.o@.bounded(1024)
        &&& self.m@.bounded(2048)
        &&& self.color.wf()
        &&& forall|c: int| 0 <= c < 4 ==> 0 <= #[trigger] self.color.channel(c) < 256
        &&& forall|c: int| 0 <= c < 4 ==>
            #[trigger] self.color.channel(c) == channel_sum(self.image@, c, pw * ph) / (pw * ph)
    }
}

/// The images of the decodable palette entries, in order; entries that could
/// not be decoded leave no trace.
pub open spec fn kept_views(s: Seq<Option<Img>>) -> Seq<ImgView>
    decreases s.len(),
{
    if s.len() == 0 {
        Seq::empty()
    } else {
        let rest = kept_views(s.drop_last());
        match s.last() {
            Some(im) => rest.push(im@),
            None => rest,
        }
    }
}

/// The errors the library reports: a palette directory with no decodable
/// image, and sizes under which no tile or window fits.
#[derive(Debug)]
pub enum MosaicError {
    EmptyPalette,
    SizeOutOfRange,
}

/// Every decodable palette entry is well formed and of a decodable size.
pub open spec fn entries_ok(s: Seq<Option<Img>>) -> bool {
    forall|i: int| 0 <= i < s.len() && s[i] is Some ==> {
        let im = #[trigger] s[i]->Some_0;
        im.wf() && im@.raw8() && 1 <= im.width <= 0x4000 && 1 <= im.height <= 0x4000
    }
}

/// The common tile width the palette settles on: the first decodable entry's
/// dimensions scaled so the larger becomes max_size.
pub open spec fn palette_w(s: Seq<Option<Img>>, max_size: int) -> int {
    scaled_w(kept_views(s)[0].width, kept_views(s)[0].height, max_size)
}

/// The common tile height the palette settles on.
pub open spec fn palette_h(s: Seq<Option<Img>>, max_size: int) -> int {
    scaled_h(kept_views(s)[0].width, kept_views(s)[0].height, max_size)
}

/// Build the palette: bring every decodable entry to the common tile size
/// derived from the first decodable entry, compute its descriptors, and give
/// it the next id. Entries that are not images are skipped and consume no id,
/// so ids stay contiguous from zero.
pub fn generate_pixel_palette(entries: &Vec<Option<Img>>, max_size: u32) -> (r: Result<Vec<Label>, MosaicError>)
    requires
        1 <= max_size <= 0x100,
        entries_ok(entries@),
    ensures
        (r is Err && r->Err_0 is EmptyPalette) <==> kept_views(entries@).len() == 0,
        (r is Err && r->Err_0 is SizeOutOfRange) <==> kept_views(entries@).len() > 0
            && (palette_w(entries@, max_size as int) < 1 || palette_h(entries@, max_size as int) < 1),
        r is Ok ==> ({
            let kept = kept_views(entries@);
            let pw = palette_w(entries@, max_size as int);
            let ph = palette_h(entries@, max_size as int);
            let p = r->Ok_0;
            &&& kept.len() > 0
            &&& 1 <= pw <= 0x100
            &&& 1 <= ph <= 0x100
            &&& p@.len() == kept.len()
            &&& forall|k: int| 0 <= k < p@.len() ==> (#[trigger] p@[k]).wf(pw, ph)
            &&& forall|k: int| 0 <= k < p@.len() ==> (#[trigger] p@[k]).id == k
            &&& forall|k: int| 0 <= k < p@.len() ==> (#[trigger] p@[k]).count == 0
            &&& forall|k: int| 0 <= k < p@.len() ==> (#[trigger] p@[k]).image@ == resized_view(kept[k], pw, ph)
        }),
{
    let n = entries.len();
    let mut found = false;
    let mut fw: usize = 1;
    let mut fh: usize = 1;
    let mut i: usize = 0;
    while i < n
        invariant
            i <= n,
            n == entries@.len(),
            entries_ok(entries@),
            found ==> kept_views(entries@.take(i as int)).len() > 0
                && fw == kept_views(entries@.take(i as int))[0].width
                && fh == kept_views(entries@.take(i as int))[0].height
                && 1 <= fw <= 0x4000 && 1 <= fh <= 0x4000,
            !found ==> kept_views(entries@.take(i as int)).len() == 0,
        decreases n - i,
    {
        proof {
            lemma_kept_take_step(entries@, i as int);
        }
        match &entries[i] {
            Some(im) => {
                if !found {
                    found = true;
                    fw = im.width;
                    fh = im.height;
                }
            }
            None => {}
        }
        i = i + 1;
    }
    proof {
        assert(entries@.take(n as int) =~= entries@);
    }
    if !found {
        return Err(MosaicError::EmptyPalette);
    }
    let (pw, ph) = crate::resize_dims((fw, fh), max_size);
    if pw < 1 || ph < 1 {
        return Err(MosaicError::SizeOutOfRange);
    }

    let mut out: Vec<Label> = Vec::new();
    let mut i: usize = 0;
    while i < n
        invariant
            i <= n,
            n == entries@.len(),
            entries_ok(entries@),
            1 <= pw <= 0x100,
            1 <= ph <= 0x100,
            out@.len() == kept_views(entries@.take(i as int)).len(),
            forall|k: int| 0 <= k < out@.len() ==> (#[trigger] out@[k]).wf(pw as int, ph as int),
            forall|k: int| 0 <= k < out@.len() ==> (#[trigger] out@[k]).id == k,
            forall|k: int| 0 <= k < out@.len() ==> (#[trigger] out@[k]).count == 0,
            forall|k: int| 0 <= k < out@.len() ==>
                (#[trigger] out@[k]).image@ == resized_view(kept_views(entries@.take(i as int))[k], pw as int, ph as int),
        decreases n - i,
    {
        proof {
            lemma_kept_take_step(entries@, i as int);
        }
        match &entries[i] {
            Some(im) => {
                let tile = resize_to(im, pw, ph);
                proof {
                    crate::img::lemma_raw8_bounded(tile@);
                    assert(pw * ph <= 0x1000_0000) by (nonlinear_arith)
                        requires pw <= 0x100, ph <= 0x100;
                }
                let o = crate::descriptor::orientation_map(&tile);
                let m = crate::descriptor::edge_map(&tile);
                let color = crate::descriptor::mean_color(&tile);
                let id = out.len();
                out.push(Label { color, image: tile, o, m, count: 0, id });
            }
            None => {}
        }
        i = i + 1;
    }
    proof {
        assert(entries@.take(n as int) =~= entries@);
    }
    Ok(out)
}

/// Taking one more entry extends the kept images by the entry's image, or by
/// nothing when it is not decodable.
proof fn lemma_kept_take_step(s: Seq<Option<Img>>, i: int)
    requires
        0 <= i < s.len(),
    ensures
        s[i] is Some ==> kept_views(s.take(i + 1)) == kept_views(s.take(i)).push(s[i]->Some_0@),
        s[i] is None ==> kept_views(s.take(i + 1)) == kept_views(s.take(i)),
{
    let t = s.take(i + 1);
    assert(t.drop_last() =~= s.take(i));
    assert(t.last() == s[i]);
}

} // verus!
