use vstd::prelude::*;

verus! {

/// Mathematical model of a raster: a width, a height, and a flat sequence of
/// samples, four per pixel (red, green, blue, alpha), row-major.
pub struct ImgView {
    pub width: int,
    pub height: int,
    pub data: Seq<int>,
}

impl ImgView {
    /// The sample count matches the dimensions.
    pub open spec fn wf(self) -> bool {
        &&& self.data.len() == self.width * self.height * 4
        &&& self.width >= 0
        &&& self.height >= 0
    }

    /// The sample of channel `c` at pixel (x, y).
    pub open spec fn at(self, x: int, y: int, c: int) -> int {
        self.data[(y * self.width + x) * 4 + c]
    }

    /// Every sample lies in [-b, b].
    pub open spec fn bounded(self, b: int) -> bool {
        forall|x: int, y: int, c: int|
            0 <= x < self.width && 0 <= y < self.height && 0 <= c < 4 ==>
                -b <= #[trigger] self.at(x, y, c) <= b
    }

    /// Every sample is a byte value, as decoded 8-bit images have.
    pub open spec fn raw8(self) -> bool {
        forall|i: int| 0 <= i < self.data.len() ==> 0 <= #[trigger] self.data[i] < 256
    }

    /// The rectangle of size (w, h) at offset (ox, oy), as a model image.
    pub open spec fn window(self, ox: int, oy: int, w: int, h: int) -> ImgView {
        ImgView {
            width: w,
            height: h,
            data: Seq::new((w * h * 4) as nat, |i: int| self.at(ox + (i / 4) % w, oy + (i / 4) / w, i % 4)),
        }
    }
}

/// A raster of integer samples, four per pixel, row-major. Samples of decoded
/// images are byte values; derived maps (edges, orientation, masked images)
/// reuse the same layout with wider ranges.
pub struct Img {
    pub width: usize,
    pub height: usize,
    pub data: Vec<i64>,
}

impl View for Img {
    type V = ImgView;

    open spec fn view(&self) -> ImgView {
        ImgView {
            width: self.width as int,
            height: self.height as int,
            data: self.data@.map(|_i: int, v: i64| v as int),
        }
    }
}

/// Sample indices stay inside the flat buffer.
pub proof fn lemma_index_in_range(w: int, h: int, x: int, y: int, c: int)
    requires
        0 <= x < w,
        0 <= y < h,
        0 <= c < 4,
    ensures
        0 <= (y * w + x) * 4 + c < w * h * 4,
{
    assert(y * w + x < w * h && 0 <= y * w + x) by (nonlinear_arith)
        requires 0 <= x < w, 0 <= y < h;
    assert((y * w + x) * 4 + c < w * h * 4) by (nonlinear_arith)
        requires y * w + x < w * h, c < 4;
}

impl Img {
    /// The backing vector is as large as the dimensions say, and small enough
    /// that per-pixel index arithmetic stays in `usize`.
    pub open spec fn wf(self) -> bool {
        self@.wf()
    }

    /// Read the sample of channel `c` at pixel (x, y).
    pub fn get(&self, x: usize, y: usize, c: usize) -> (r: i64)
        requires
            self.wf(),
            x < self.width,
            y < self.height,
            c < 4,
        ensures
            r == self@.at(x as int, y as int, c as int),
    {
        let _len: usize = self.data.len();
        proof {
            lemma_index_in_range(self.width as int, self.height as int, x as int, y as int, c as int);
        }
        self.data[(y * self.width + x) * 4 + c]
    }

    /// Write the sample of channel `c` at pixel (x, y); every other sample
    /// keeps its value.
    pub fn put(&mut self, x: usize, y: usize, c: usize, v: i64)
        requires
            old(self).wf(),
            x < old(self).width,
            y < old(self).height,
            c < 4,
        ensures
            final(self).wf(),
            final(self).width == old(self).width,
            final(self).height == old(self).height,
            final(self)@.at(x as int, y as int, c as int) == v,
            forall|x2: int, y2: int, c2: int|
                0 <= x2 < old(self).width && 0 <= y2 < old(self).height && 0 <= c2 < 4
                    && (x2 != x || y2 != y || c2 != c) ==>
                    #[trigger] final(self)@.at(x2, y2, c2) == old(self)@.at(x2, y2, c2),
    {
        let _len: usize = self.data.len();
        proof {
            lemma_index_in_range(self.width as int, self.height as int, x as int, y as int, c as int);
        }
        let i: usize = (y * self.width + x) * 4 + c;
        self.data.set(i, v);
        proof {
            let w = self.width as int;
            let h = self.height as int;
            assert forall|x2: int, y2: int, c2: int|
                0 <= x2 < w && 0 <= y2 < h && 0 <= c2 < 4
                    && (x2 != x || y2 != y || c2 != c) implies
                    #[trigger] self@.at(x2, y2, c2) == old(self)@.at(x2, y2, c2) by {
                lemma_index_in_range(w, h, x2, y2, c2);
                assert((y2 * w + x2) * 4 + c2 != i) by (nonlinear_arith)
                    requires
                        0 <= x2 < w, 0 <= y2 < h, 0 <= c2 < 4,
                        0 <= x < w, 0 <= y < h, 0 <= c < 4,
                        x2 != x || y2 != y || c2 != c,
                        i == (y * w + x) * 4 + c;
            }
        }
    }

    /// A w-by-h raster with every sample zero.
    pub fn zero(width: usize, height: usize) -> (r: Img)
        requires
            width * height * 4 <= usize::MAX,
        ensures
            r.wf(),
            r.width == width,
            r.height == height,
            forall|x: int, y: int, c: int|
                0 <= x < width && 0 <= y < height && 0 <= c < 4 ==>
                    #[trigger] r@.at(x, y, c) == 0,
    {
        proof {
            assert(width * height * 4 == width as int * height as int * 4) by (nonlinear_arith);
        }
        let n: usize = width * height * 4;
        let mut data: Vec<i64> = Vec::new();
        let mut k: usize = 0;
        while k < n
            invariant
                k <= n,
                data@.len() == k,
                forall|i: int| 0 <= i < k ==> #[trigger] data@[i] == 0,
            decreases n - k,
        {
            data.push(0);
            k = k + 1;
        }
        let r = Img { width, height, data };
        proof {
            assert forall|x: int, y: int, c: int|
                0 <= x < width && 0 <= y < height && 0 <= c < 4 implies
                    #[trigger] r@.at(x, y, c) == 0 by {
                lemma_index_in_range(width as int, height as int, x, y, c);
            }
        }
        r
    }

    /// Build a raster from the bytes of a decoded 8-bit RGBA image,
    /// one sample per byte.
    pub fn from_rgba8(width: usize, height: usize, bytes: &Vec<u8>) -> (r: Img)
        requires
            bytes@.len() == width * height * 4,
        ensures
            r.wf(),
            r.width == width,
            r.height == height,
            forall|i: int| 0 <= i < bytes@.len() ==> #[trigger] r@.data[i] == bytes@[i],
            r@.raw8(),
    {
        let n: usize = bytes.len();
        let mut data: Vec<i64> = Vec::new();
        let mut k: usize = 0;
        while k < n
            invariant
                k <= n,
                n == bytes@.len(),
                data@.len() == k,
                forall|i: int| 0 <= i < k ==> #[trigger] data@[i] == bytes@[i],
            decreases n - k,
        {
            data.push(bytes[k] as i64);
            k = k + 1;
        }
        Img { width, height, data }
    }

    /// Emit the bytes of an 8-bit RGBA image, one byte per sample.
    pub fn to_rgba8(&self) -> (r: Vec<u8>)
        requires
            self.wf(),
            self@.raw8(),
        ensures
            r@.len() == self@.data.len(),
            forall|i: int| 0 <= i < r@.len() ==> #[trigger] r@[i] == self@.data[i],
    {
        let n: usize = self.data.len();
        let mut out: Vec<u8> = Vec::new();
        let mut k: usize = 0;
        while k < n
            invariant
                k <= n,
                n == self@.data.len(),
                self@.raw8(),
                out@.len() == k,
                forall|i: int| 0 <= i < k ==> #[trigger] out@[i] == self@.data[i],
            decreases n - k,
        {
            out.push(self.data[k] as u8);
            k = k + 1;
        }
        out
    }

    /// An identical copy.
    pub fn duplicate(&self) -> (r: Img)
        requires
            self.wf(),
            self.width >= 1,
            self.height >= 1,
        ensures
            r.wf(),
            r.width == self.width,
            r.height == self.height,
            r@ == self@,
    {
        let r = self.crop(0, 0, self.width, self.height);
        proof {
            lemma_pointwise_eq(r@, self@);
        }
        r
    }

    /// Copy out the rectangle of size (w, h) at offset (ox, oy).
    pub fn crop(&self, ox: usize, oy: usize, w: usize, h: usize) -> (r: Img)
        requires
            self.wf(),
            ox + w <= self.width,
            oy + h <= self.height,
            w >= 1,
            h >= 1,
        ensures
            r.wf(),
            r.width == w,
            r.height == h,
            r@ == self@.window(ox as int, oy as int, w as int, h as int),
            forall|x: int, y: int, c: int|
                0 <= x < w && 0 <= y < h && 0 <= c < 4 ==>
                    #[trigger] r@.at(x, y, c) == self@.at(ox + x, oy + y, c),
            self@.raw8() ==> r@.raw8(),
    {
        let _len: usize = self.data.len();
        proof {
            assert(w * h * 4 <= self.width * self.height * 4) by (nonlinear_arith)
                requires w <= self.width, h <= self.height, w >= 1, h >= 1, self.width >= 0, self.height >= 0;
        }
        let mut out = Img::zero(w, h);
        let mut y: usize = 0;
        while y < h
            invariant
                y <= h,
                out.wf(),
                out.width == w,
                out.height == h,
                self.wf(),
                ox + w <= self.width,
                oy + h <= self.height,
                w >= 1,
                h >= 1,
                forall|x2: int, y2: int, c2: int|
                    0 <= x2 < w && 0 <= y2 < y && 0 <= c2 < 4 ==>
                        #[trigger] out@.at(x2, y2, c2) == self@.at(ox + x2, oy + y2, c2),
            decreases h - y,
        {
            let mut x: usize = 0;
            while x < w
                invariant
                    y < h,
                    x <= w,
                    out.wf(),
                    out.width == w,
                    out.height == h,
                    self.wf(),
                    ox + w <= self.width,
                    oy + h <= self.height,
                    w >= 1,
                    h >= 1,
                    forall|x2: int, y2: int, c2: int|
                        0 <= x2 < w && 0 <= y2 < y && 0 <= c2 < 4 ==>
                            #[trigger] out@.at(x2, y2, c2) == self@.at(ox + x2, oy + y2, c2),
                    forall|x2: int, c2: int|
                        0 <= x2 < x && 0 <= c2 < 4 ==>
                            #[trigger] out@.at(x2, y as int, c2) == self@.at(ox + x2, oy + y, c2),
                decreases w - x,
            {
                let mut c: usize = 0;
                while c < 4
                    invariant
                        y < h,
                        x < w,
                        c <= 4,
                        out.wf(),
                        out.width == w,
                        out.height == h,
                        self.wf(),
                        ox + w <= self.width,
                        oy + h <= self.height,
                        w >= 1,
                        h >= 1,
                        forall|x2: int, y2: int, c2: int|
                            0 <= x2 < w && 0 <= y2 < y && 0 <= c2 < 4 ==>
                                #[trigger] out@.at(x2, y2, c2) == self@.at(ox + x2, oy + y2, c2),
                        forall|x2: int, c2: int|
                            0 <= x2 < x && 0 <= c2 < 4 ==>
                                #[trigger] out@.at(x2, y as int, c2) == self@.at(ox + x2, oy + y, c2),
                        forall|c2: int|
                            0 <= c2 < c ==>
                                #[trigger] out@.at(x as int, y as int, c2) == self@.at(ox + x, oy + y, c2),
                    decreases 4 - c,
                {
                    let v = self.get(ox + x, oy + y, c);
                    out.put(x, y, c, v);
                    c = c + 1;
                }
                x = x + 1;
            }
            y = y + 1;
        }
        proof {
            lemma_window_eq(out@, self@, ox as int, oy as int, w as int, h as int);
            if self@.raw8() {
                lemma_raw8_at(self@);
                lemma_at_range_raw8(out@);
            }
        }
        out
    }
}

/// Two well-formed images of the same size that agree at every coordinate
/// are equal.
pub proof fn lemma_pointwise_eq(a: ImgView, b: ImgView)
    requires
        a.wf(),
        b.wf(),
        a.width == b.width,
        a.height == b.height,
        forall|x: int, y: int, c: int|
            0 <= x < a.width && 0 <= y < a.height && 0 <= c < 4 ==>
                #[trigger] a.at(x, y, c) == b.at(x, y, c),
    ensures
        a == b,
{
    assert forall|i: int| 0 <= i < a.data.len() implies a.data[i] == b.data[i] by {
        let w = a.width;
        let h = a.height;
        if w >= 1 && h >= 1 {
            let x = (i / 4) % w;
            let y = (i / 4) / w;
            let c = i % 4;
            assert(0 <= x < w && 0 <= y < h && 0 <= c < 4 && (y * w + x) * 4 + c == i) by (nonlinear_arith)
                requires 0 <= i < w * h * 4, x == (i / 4) % w, y == (i / 4) / w, c == i % 4, w >= 1, h >= 1;
            assert(a.at(x, y, c) == b.at(x, y, c));
        } else {
            assert(a.data.len() == 0) by (nonlinear_arith)
                requires a.data.len() == w * h * 4, w == 0 || h == 0, w >= 0, h >= 0;
        }
    }
    assert(a.data =~= b.data);
}

/// Byte-range samples coordinate by coordinate.
pub proof fn lemma_raw8_at(v: ImgView)
    requires
        v.wf(),
        v.raw8(),
    ensures
        forall|x: int, y: int, c: int|
            0 <= x < v.width && 0 <= y < v.height && 0 <= c < 4 ==>
                0 <= #[trigger] v.at(x, y, c) < 256,
{
    assert forall|x: int, y: int, c: int|
        0 <= x < v.width && 0 <= y < v.height && 0 <= c < 4 implies
            0 <= #[trigger] v.at(x, y, c) < 256 by {
        lemma_index_in_range(v.width, v.height, x, y, c);
    }
}

/// Byte-range samples at every coordinate make a byte-valued image.
pub proof fn lemma_at_range_raw8(v: ImgView)
    requires
        v.wf(),
        forall|x: int, y: int, c: int|
            0 <= x < v.width && 0 <= y < v.height && 0 <= c < 4 ==>
                0 <= #[trigger] v.at(x, y, c) < 256,
    ensures
        v.raw8(),
{
    assert forall|i: int| 0 <= i < v.data.len() implies 0 <= #[trigger] v.data[i] < 256 by {
        let w = v.width;
        let h = v.height;
        let x = (i / 4) % w;
        let y = (i / 4) / w;
        let c = i % 4;
        assert(w >= 1 && h >= 1) by (nonlinear_arith)
            requires v.data.len() == w * h * 4, 0 <= i < v.data.len(), w >= 0, h >= 0;
        assert(0 <= x < w && 0 <= y < h && 0 <= c < 4 && (y * w + x) * 4 + c == i) by (nonlinear_arith)
            requires 0 <= i < w * h * 4, x == (i / 4) % w, y == (i / 4) / w, c == i % 4, w >= 1, h >= 1;
        assert(0 <= v.at(x, y, c) < 256);
    }
}

/// A bound that holds at every coordinate holds for every flat sample.
pub proof fn lemma_flat_bounded(v: ImgView, b: int)
    requires
        v.wf(),
        v.bounded(b),
    ensures
        forall|i: int| 0 <= i < v.data.len() ==> -b <= #[trigger] v.data[i] <= b,
{
    assert forall|i: int| 0 <= i < v.data.len() implies -b <= #[trigger] v.data[i] <= b by {
        let w = v.width;
        let h = v.height;
        let x = (i / 4) % w;
        let y = (i / 4) / w;
        let c = i % 4;
        assert(w >= 1 && h >= 1) by (nonlinear_arith)
            requires v.data.len() == w * h * 4, 0 <= i < v.data.len(), w >= 0, h >= 0;
        assert(0 <= x < w && 0 <= y < h && 0 <= c < 4 && (y * w + x) * 4 + c == i) by (nonlinear_arith)
            requires 0 <= i < w * h * 4, x == (i / 4) % w, y == (i / 4) / w, c == i % 4, w >= 1, h >= 1;
        assert(-b <= v.at(x, y, c) <= b);
    }
}

/// Byte-valued samples are bounded samples.
pub proof fn lemma_raw8_bounded(v: ImgView)
    requires
        v.wf(),
        v.raw8(),
    ensures
        v.bounded(256),
{
    assert forall|x: int, y: int, c: int|
        0 <= x < v.width && 0 <= y < v.height && 0 <= c < 4 implies
            -256 <= #[trigger] v.at(x, y, c) <= 256 by {
        lemma_index_in_range(v.width, v.height, x, y, c);
    }
}

/// An image equal pointwise to a window of another is that window.
proof fn lemma_window_eq(a: ImgView, src: ImgView, ox: int, oy: int, w: int, h: int)
    requires
        a.wf(),
        a.width == w,
        a.height == h,
        w >= 1,
        h >= 1,
        forall|x: int, y: int, c: int|
            0 <= x < w && 0 <= y < h && 0 <= c < 4 ==>
                #[trigger] a.at(x, y, c) == src.at(ox + x, oy + y, c),
    ensures
        a == src.window(ox, oy, w, h),
{
    let win = src.window(ox, oy, w, h);
    assert forall|i: int| 0 <= i < a.data.len() implies a.data[i] == win.data[i] by {
        let x = (i / 4) % w;
        let y = (i / 4) / w;
        let c = i % 4;
        assert(0 <= x < w && 0 <= y < h && 0 <= c < 4 && (y * w + x) * 4 + c == i) by (nonlinear_arith)
            requires 0 <= i < w * h * 4, x == (i / 4) % w, y == (i / 4) / w, c == i % 4, w >= 1, h >= 1;
        assert(a.at(x, y, c) == src.at(ox + x, oy + y, c));
    }
    assert(a.data =~= win.data);
}

} // verus!
