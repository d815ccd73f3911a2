use vstd::prelude::*;

use vstd::arithmetic::div_mod::{
    lemma_fundamental_div_mod,
    lemma_fundamental_div_mod_converse,
    lemma_mod_pos_bound,
};

use crate::color::{color_bytes, color_of, lemma_color_bytes_inverse, TGAColor};

verus! {

/// What an image is: its dimensions, bytes per pixel, and its pixel bytes in
/// row-major order, top-left origin.
pub struct ImageView {
    pub width: nat,
    pub height: nat,
    pub bpp: nat,
    pub data: Seq<u8>,
}

/// A true-color pixel buffer. Pixel (x, y) occupies the `bpp` bytes starting
/// at `(x + y * width) * bpp`, stored blue, green, red[, alpha].
pub struct TGAImage {
    data: Vec<u8>,
    w: usize,
    h: usize,
    bytespp: usize,
}

impl View for TGAImage {
    type V = ImageView;

    closed spec fn view(&self) -> ImageView {
        ImageView { width: self.w as nat, height: self.h as nat, bpp: self.bytespp as nat, data: self.data@ }
    }
}

/// Three or four bytes per pixel, and exactly one pixel's bytes per position.
pub open spec fn view_wf(v: ImageView) -> bool {
    &&& (v.bpp == 3 || v.bpp == 4)
    &&& v.data.len() == v.width * v.height * v.bpp
    &&& v.data.len() <= usize::MAX
}

/// The bytes of pixel number `p` (row-major).
pub open spec fn pixel(d: Seq<u8>, bpp: nat, p: int) -> Seq<u8> {
    d.subrange(p * bpp, p * bpp + bpp)
}

/// `d` with the bytes starting at `at` replaced by `px`.
pub open spec fn put_bytes(d: Seq<u8>, at: int, px: Seq<u8>) -> Seq<u8> {
    Seq::new(d.len(), |i: int| if at <= i < at + px.len() { px[i - at] } else { d[i] })
}

/// The color at (x, y).
pub open spec fn view_get(v: ImageView, x: int, y: int) -> TGAColor {
    color_of(pixel(v.data, v.bpp, x + y * v.width))
}

/// Whether `set(x, y, c)` writes: the position is inside and the color has as
/// many channels as a pixel has bytes.
pub open spec fn can_set(v: ImageView, x: int, y: int, c: TGAColor) -> bool {
    0 <= x < v.width && 0 <= y < v.height && c.channels() == v.bpp
}

/// The image with pixel (x, y) overwritten by `c`.
pub open spec fn view_put(v: ImageView, x: int, y: int, c: TGAColor) -> ImageView {
    ImageView { data: put_bytes(v.data, (x + y * v.width) * v.bpp, color_bytes(c)), ..v }
}

/// Byte index that byte `i` takes its value from in a left-right mirror.
pub open spec fn mirror_h(i: int, w: int, bpp: int) -> int {
    let p = i / bpp;
    let k = i % bpp;
    let x = p % w;
    let y = p / w;
    ((w - 1 - x) + y * w) * bpp + k
}

/// Byte index that byte `i` takes its value from in a top-bottom mirror.
pub open spec fn mirror_v(i: int, w: int, h: int, bpp: int) -> int {
    let p = i / bpp;
    let k = i % bpp;
    let x = p % w;
    let y = p / w;
    (x + (h - 1 - y) * w) * bpp + k
}

/// The image mirrored left to right.
pub open spec fn flip_h_view(v: ImageView) -> ImageView {
    ImageView {
        data: Seq::new(
            v.data.len(),
            |i: int| v.data[mirror_h(i, v.width as int, v.bpp as int)],
        ),
        ..v
    }
}

/// The image mirrored top to bottom.
pub open spec fn flip_v_view(v: ImageView) -> ImageView {
    ImageView {
        data: Seq::new(
            v.data.len(),
            |i: int| v.data[mirror_v(i, v.width as int, v.height as int, v.bpp as int)],
        ),
        ..v
    }
}

/// A position inside the image lies, with all its bytes, inside the buffer.
pub proof fn lemma_pixel_in_range(x: int, y: int, w: int, h: int, bpp: int)
    requires
        0 <= x < w,
        0 <= y < h,
        bpp > 0,
    ensures
        0 <= x + y * w < w * h,
        0 <= (x + y * w) * bpp,
        (x + y * w) * bpp + bpp <= w * h * bpp,
{
    assert(0 <= x + y * w < w * h) by (nonlinear_arith)
        requires
            0 <= x < w,
            0 <= y < h,
    ;
    let p = x + y * w;
    assert(0 <= p * bpp && p * bpp + bpp <= w * h * bpp) by (nonlinear_arith)
        requires
            0 <= p < w * h,
            bpp > 0,
    ;
}

/// Splitting a byte index into column, row and channel, and back.
proof fn lemma_compose(x: int, y: int, k: int, w: int, h: int, bpp: int)
    requires
        0 <= x < w,
        0 <= y < h,
        0 <= k < bpp,
    ensures
        0 <= (x + y * w) * bpp + k < w * h * bpp,
        ((x + y * w) * bpp + k) / bpp == x + y * w,
        ((x + y * w) * bpp + k) % bpp == k,
        (x + y * w) / w == y,
        (x + y * w) % w == x,
{
    lemma_pixel_in_range(x, y, w, h, bpp);
    lemma_fundamental_div_mod_converse((x + y * w) * bpp + k, bpp, x + y * w, k);
    lemma_fundamental_div_mod_converse(x + y * w, w, y, x);
}

proof fn lemma_decompose(i: int, w: int, h: int, bpp: int)
    requires
        0 <= i < w * h * bpp,
        w > 0,
        h > 0,
        bpp > 0,
    ensures
        ({
            let p = i / bpp;
            let k = i % bpp;
            let x = p % w;
            let y = p / w;
            &&& 0 <= k < bpp
            &&& 0 <= x < w
            &&& 0 <= y < h
            &&& i == (x + y * w) * bpp + k
        }),
{
    let p = i / bpp;
    let k = i % bpp;
    lemma_fundamental_div_mod(i, bpp);
    lemma_mod_pos_bound(i, bpp);
    assert(0 <= p < w * h) by (nonlinear_arith)
        requires
            i == bpp * p + k,
            0 <= k < bpp,
            0 <= i < w * h * bpp,
    ;
    let x = p % w;
    let y = p / w;
    lemma_fundamental_div_mod(p, w);
    lemma_mod_pos_bound(p, w);
    assert(0 <= y < h) by (nonlinear_arith)
        requires
            p == w * y + x,
            0 <= x < w,
            0 <= p < w * h,
    ;
    assert(i == (x + y * w) * bpp + k) by (nonlinear_arith)
        requires
            i == bpp * p + k,
            p == w * y + x,
    ;
}

/// Mirroring left to right maps the buffer onto itself and undoes itself.
pub proof fn lemma_mirror_h(i: int, w: int, h: int, bpp: int)
    requires
        0 <= i < w * h * bpp,
        w > 0,
        h > 0,
        bpp > 0,
    ensures
        0 <= mirror_h(i, w, bpp) < w * h * bpp,
        mirror_h(mirror_h(i, w, bpp), w, bpp) == i,
{
    lemma_decompose(i, w, h, bpp);
    let p = i / bpp;
    let k = i % bpp;
    let x = p % w;
    let y = p / w;
    lemma_compose(w - 1 - x, y, k, w, h, bpp);
}

/// Mirroring top to bottom maps the buffer onto itself and undoes itself.
pub proof fn lemma_mirror_v(i: int, w: int, h: int, bpp: int)
    requires
        0 <= i < w * h * bpp,
        w > 0,
        h > 0,
        bpp > 0,
    ensures
        0 <= mirror_v(i, w, h, bpp) < w * h * bpp,
        mirror_v(mirror_v(i, w, h, bpp), w, h, bpp) == i,
{
    lemma_decompose(i, w, h, bpp);
    let p = i / bpp;
    let k = i % bpp;
    let x = p % w;
    let y = p / w;
    lemma_compose(x, h - 1 - y, k, w, h, bpp);
}

/// Mirroring an image left to right twice gives it back unchanged, and so
/// does mirroring it top to bottom twice.
pub proof fn lemma_flip_twice(v: ImageView)
    requires
        view_wf(v),
    ensures
        flip_h_view(flip_h_view(v)) == v,
        flip_v_view(flip_v_view(v)) == v,
{
    let (w, h, b) = (v.width as int, v.height as int, v.bpp as int);
    assert forall|i: int| 0 <= i < v.data.len() implies #[trigger] flip_h_view(flip_h_view(v)).data[i]
        == v.data[i] && flip_v_view(flip_v_view(v)).data[i] == v.data[i] by {
        assert(w > 0 && h > 0) by (nonlinear_arith)
            requires
                0 <= i < w * h * b,
                w >= 0,
                h >= 0,
                b > 0,
        ;
        lemma_mirror_h(i, w, h, b);
        lemma_mirror_v(i, w, h, b);
    }
    assert(flip_h_view(flip_h_view(v)).data =~= v.data);
    assert(flip_v_view(flip_v_view(v)).data =~= v.data);
}

/// Reading a pixel right after writing a color there gives that color.
pub proof fn lemma_get_after_set(v: ImageView, x: int, y: int, c: TGAColor)
    requires
        view_wf(v),
        can_set(v, x, y, c),
    ensures
        view_get(view_put(v, x, y, c), x, y) == c,
{
    lemma_pixel_in_range(x, y, v.width as int, v.height as int, v.bpp as int);
    lemma_color_bytes_inverse(c);
    assert(pixel(view_put(v, x, y, c).data, v.bpp, x + y * v.width) =~= color_bytes(c));
}

impl TGAImage {
    /// Well-formed: see `view_wf`.
    pub open spec fn wf(&self) -> bool {
        view_wf(self@)
    }

    /// A zero-filled image of `w` by `h` pixels with `bpp` bytes per pixel.
    pub fn new(w: usize, h: usize, bpp: usize) -> (r: Self)
        requires
            bpp == 3 || bpp == 4,
            w * h * bpp <= usize::MAX,
        ensures
            r.wf(),
            r@ == (ImageView {
                width: w as nat,
                height: h as nat,
                bpp: bpp as nat,
                data: Seq::new((w * h * bpp) as nat, |i: int| 0u8),
            }),
    {
        assert(w * h <= w * h * bpp) by (nonlinear_arith)
            requires
                bpp >= 1,
        ;
        let n = w * h * bpp;
        let mut data: Vec<u8> = Vec::with_capacity(n);
        let mut i: usize = 0;
        while i < n
            invariant
                i <= n,
                data@ == Seq::new(i as nat, |t: int| 0u8),
            decreases n - i,
        {
            data.push(0);
            i = i + 1;
            assert(data@ =~= Seq::new(i as nat, |t: int| 0u8));
        }
        TGAImage { data, w, h, bytespp: bpp }
    }

    /// An image made of given parts.
    pub(crate) fn from_parts(data: Vec<u8>, w: usize, h: usize, bpp: usize) -> (r: Self)
        ensures
            r@ == (ImageView { width: w as nat, height: h as nat, bpp: bpp as nat, data: data@ }),
    {
        TGAImage { data, w, h, bytespp: bpp }
    }

    /// Puts `data` in place of the pixel bytes.
    pub(crate) fn replace_data(&mut self, data: Vec<u8>)
        ensures
            final(self)@ == (ImageView { data: data@, ..old(self)@ }),
    {
        self.data = data;
    }

    /// The pixel bytes, row-major from the top-left corner.
    pub fn pixel_bytes(&self) -> (r: &[u8])
        ensures
            r@ == self@.data,
    {
        self.data.as_slice()
    }

    pub fn width(&self) -> (r: usize)
        ensures
            r == self@.width,
    {
        self.w
    }

    pub fn height(&self) -> (r: usize)
        ensures
            r == self@.height,
    {
        self.h
    }

    pub fn bytes_per_pixel(&self) -> (r: usize)
        ensures
            r == self@.bpp,
    {
        self.bytespp
    }

    /// Writes `c` at (x, y). Returns false, changing nothing, when the position
    /// is outside the image or the color's variant does not match the bytes
    /// per pixel.
    pub fn set(&mut self, x: usize, y: usize, c: &TGAColor) -> (r: bool)
        requires
            old(self).wf(),
        ensures
            final(self).wf(),
            r == can_set(old(self)@, x as int, y as int, *c),
            final(self)@ == (if r {
                view_put(old(self)@, x as int, y as int, *c)
            } else {
                old(self)@
            }),
    {
        if x >= self.w || y >= self.h {
            return false;
        }
        proof {
            lemma_pixel_in_range(x as int, y as int, self.w as int, self.h as int, self.bytespp as int);
        }
        let idx = (x + y * self.w) * self.bytespp;
        let ghost d0 = self.data@;
        match c {
            TGAColor::Rgb(rgb) => {
                if self.bytespp != 3 {
                    return false;
                }
                self.data.set(idx, rgb.b);
                self.data.set(idx + 1, rgb.g);
                self.data.set(idx + 2, rgb.r);
            },
            TGAColor::Rgba(rgba) => {
                if self.bytespp != 4 {
                    return false;
                }
                self.data.set(idx, rgba.b);
                self.data.set(idx + 1, rgba.g);
                self.data.set(idx + 2, rgba.r);
                self.data.set(idx + 3, rgba.a);
            },
        }
        assert(self.data@ =~= put_bytes(d0, idx as int, color_bytes(*c)));
        true
    }

    /// The color at (x, y), of the variant that matches the bytes per pixel.
    pub fn get(&self, x: usize, y: usize) -> (r: TGAColor)
        requires
            self.wf(),
            x < self@.width,
            y < self@.height,
        ensures
            r == view_get(self@, x as int, y as int),
    {
        proof {
            lemma_pixel_in_range(x as int, y as int, self.w as int, self.h as int, self.bytespp as int);
        }
        let idx = (x + y * self.w) * self.bytespp;
        if self.bytespp == 3 {
            TGAColor::rgb(self.data[idx + 2], self.data[idx + 1], self.data[idx])
        } else {
            TGAColor::rgba(self.data[idx + 2], self.data[idx + 1], self.data[idx], self.data[idx + 3])
        }
    }

    fn mirror_h_index(&self, i: usize) -> (r: usize)
        requires
            self.wf(),
            i < self@.data.len(),
        ensures
            r == mirror_h(i as int, self.w as int, self.bytespp as int),
    {
        proof {
            self.lemma_nonempty(i as int);
            lemma_mirror_h(i as int, self.w as int, self.h as int, self.bytespp as int);
            lemma_decompose(i as int, self.w as int, self.h as int, self.bytespp as int);
            let (w, h, b) = (self.w as int, self.h as int, self.bytespp as int);
            lemma_pixel_in_range(w - 1 - (i as int / b) % w, (i as int / b) / w, w, h, b);
        }
        let p = i / self.bytespp;
        let k = i % self.bytespp;
        let x = p % self.w;
        let y = p / self.w;
        ((self.w - 1 - x) + y * self.w) * self.bytespp + k
    }

    fn mirror_v_index(&self, i: usize) -> (r: usize)
        requires
            self.wf(),
            i < self@.data.len(),
        ensures
            r == mirror_v(i as int, self.w as int, self.h as int, self.bytespp as int),
    {
        proof {
            self.lemma_nonempty(i as int);
            lemma_mirror_v(i as int, self.w as int, self.h as int, self.bytespp as int);
            lemma_decompose(i as int, self.w as int, self.h as int, self.bytespp as int);
            let (w, h, b) = (self.w as int, self.h as int, self.bytespp as int);
            lemma_pixel_in_range((i as int / b) % w, h - 1 - (i as int / b) / w, w, h, b);
        }
        let p = i / self.bytespp;
        let k = i % self.bytespp;
        let x = p % self.w;
        let y = p / self.w;
        (x + (self.h - 1 - y) * self.w) * self.bytespp + k
    }

    proof fn lemma_nonempty(&self, i: int)
        requires
            self.wf(),
            0 <= i < self@.data.len(),
        ensures
            self.w > 0,
            self.h > 0,
    {
        let (w, h, b) = (self.w as int, self.h as int, self.bytespp as int);
        assert(w > 0 && h > 0) by (nonlinear_arith)
            requires
                0 <= i < w * h * b,
                w >= 0,
                h >= 0,
                b > 0,
        ;
    }

    /// Mirrors the image left to right, in place.
    pub fn flip_horizontally(&mut self) -> (r: bool)
        requires
            old(self).wf(),
        ensures
            r,
            final(self).wf(),
            final(self)@ == flip_h_view(old(self)@),
    {
        let ghost d0 = self.data@;
        let n = self.data.len();
        let mut i: usize = 0;
        while i < n
            invariant
                self.wf(),
                self.w == old(self).w,
                self.h == old(self).h,
                self.bytespp == old(self).bytespp,
                d0 == old(self).data@,
                n == d0.len(),
                self.data@.len() == n,
                i <= n,
                forall|t: int|
                    0 <= t < n ==> #[trigger] self.data@[t] == (if t < i || 0 <= mirror_h(
                        t,
                        self.w as int,
                        self.bytespp as int,
                    ) < i {
                        d0[mirror_h(t, self.w as int, self.bytespp as int)]
                    } else {
                        d0[t]
                    }),
            decreases n - i,
        {
            let m = self.mirror_h_index(i);
            proof {
                self.lemma_nonempty(i as int);
                lemma_mirror_h(i as int, self.w as int, self.h as int, self.bytespp as int);
            }
            if i < m {
                let a = self.data[i];
                let b = self.data[m];
                self.data.set(i, b);
                self.data.set(m, a);
            }
            proof {
                assert forall|t: int| 0 <= t < n implies #[trigger] self.data@[t] == (if t < i + 1
                    || 0 <= mirror_h(t, self.w as int, self.bytespp as int) < i + 1 {
                    d0[mirror_h(t, self.w as int, self.bytespp as int)]
                } else {
                    d0[t]
                }) by {
                    lemma_mirror_h(t, self.w as int, self.h as int, self.bytespp as int);
                }
            }
            i = i + 1;
        }
        assert(self.data@ =~= flip_h_view(old(self)@).data);
        true
    }

    /// Mirrors the image top to bottom, in place.
    pub fn flip_vertically(&mut self) -> (r: bool)
        requires
            old(self).wf(),
        ensures
            r,
            final(self).wf(),
            final(self)@ == flip_v_view(old(self)@),
    {
        let ghost d0 = self.data@;
        let n = self.data.len();
        let mut i: usize = 0;
        while i < n
            invariant
                self.wf(),
                self.w == old(self).w,
                self.h == old(self).h,
                self.bytespp == old(self).bytespp,
                d0 == old(self).data@,
                n == d0.len(),
                self.data@.len() == n,
                i <= n,
                forall|t: int|
                    0 <= t < n ==> #[trigger] self.data@[t] == (if t < i || 0 <= mirror_v(
                        t,
                        self.w as int,
                        self.h as int,
                        self.bytespp as int,
                    ) < i {
                        d0[mirror_v(t, self.w as int, self.h as int, self.bytespp as int)]
                    } else {
                        d0[t]
                    }),
            decreases n - i,
        {
            let m = self.mirror_v_index(i);
            proof {
                self.lemma_nonempty(i as int);
                lemma_mirror_v(i as int, self.w as int, self.h as int, self.bytespp as int);
            }
            if i < m {
                let a = self.data[i];
                let b = self.data[m];
                self.data.set(i, b);
                self.data.set(m, a);
            }
            proof {
                assert forall|t: int| 0 <= t < n implies #[trigger] self.data@[t] == (if t < i + 1
                    || 0 <= mirror_v(t, self.w as int, self.h as int, self.bytespp as int) < i + 1 {
                    d0[mirror_v(t, self.w as int, self.h as int, self.bytespp as int)]
                } else {
                    d0[t]
                }) by {
                    lemma_mirror_v(t, self.w as int, self.h as int, self.bytespp as int);
                }
            }
            i = i + 1;
        }
        assert(self.data@ =~= flip_v_view(old(self)@).data);
        true
    }
}

} // verus!
