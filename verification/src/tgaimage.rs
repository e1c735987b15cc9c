//! The image container: a pixel buffer with an explicit byte layout
//! (row-major, `bytespp` bytes per pixel), bounds-checked pixel access,
//! in-place mirroring, and nearest-neighbor resampling.

use vstd::prelude::*;

verus! {

broadcast use vstd::array::group_array_axioms;

/// A color of up to four raw bytes, stored in B,G,R,A order (the container's
/// on-disk channel order), tagged with how many leading bytes are meaningful.
#[derive(Clone, Copy, Debug)]
pub struct TGAColor {
    pub raw: [u8; 4],
    pub bytespp: usize,
}

impl TGAColor {
    pub fn new() -> (c: TGAColor)
        ensures
            c.raw@ =~= seq![0u8, 0u8, 0u8, 0u8],
            c.bytespp == 1,
    {
        TGAColor { raw: [0, 0, 0, 0], bytespp: 1 }
    }

    pub fn rgba(r: u8, g: u8, b: u8, a: u8) -> (c: TGAColor)
        ensures
            c.raw@ =~= seq![b, g, r, a],
            c.bytespp == 4,
    {
        TGAColor { raw: [b, g, r, a], bytespp: 4 }
    }

    /// Reads the first `bpp` bytes of `p`; the remaining bytes are zero.
    pub fn from_slice(p: &[u8], bpp: usize) -> (c: TGAColor)
        requires
            bpp <= 4,
            bpp <= p@.len(),
        ensures
            c.bytespp == bpp,
            forall|k: int| 0 <= k < bpp ==> c.raw@[k] == p@[k],
            forall|k: int| bpp <= k < 4 ==> c.raw@[k] == 0,
    {
        let mut raw = [0u8; 4];
        let mut k: usize = 0;
        while k < bpp
            invariant
                k <= bpp <= 4,
                bpp <= p@.len(),
                forall|j: int| 0 <= j < k ==> raw@[j] == p@[j],
                forall|j: int| k <= j < 4 ==> raw@[j] == 0,
            decreases bpp - k,
        {
            raw[k] = p[k];
            k += 1;
        }
        TGAColor { raw, bytespp: bpp }
    }
}

/// The pixel format: how many bytes one pixel occupies.
#[derive(Debug, Clone, Copy, PartialEq, Eq, Structural)]
pub enum Format {
    Grayscale,
    RGB,
    RGBA,
}

impl Format {
    /// The number of bytes per pixel for this format.
    pub open spec fn spec_bytes(self) -> int {
        match self {
            Format::Grayscale => 1,
            Format::RGB => 3,
            Format::RGBA => 4,
        }
    }

    pub fn bytes_per_pixel(self) -> (b: usize)
        ensures
            b == self.spec_bytes(),
    {
        match self {
            Format::Grayscale => 1,
            Format::RGB => 3,
            Format::RGBA => 4,
        }
    }
}

/// An image: a contiguous row-major pixel buffer of exactly
/// `width * height * bytespp` bytes.
pub struct TGAImage {
    pub data: Vec<u8>,
    pub width: i32,
    pub height: i32,
    pub bytespp: usize,
}

impl TGAImage {
    /// Well-formedness: dimensions fit the binary container's 16-bit fields
    /// and the buffer length matches the dimensions exactly.
    pub open spec fn wf(self) -> bool {
        &&& (self.bytespp == 1 || self.bytespp == 3 || self.bytespp == 4)
        &&& 0 <= self.width <= 0xFFFF
        &&& 0 <= self.height <= 0xFFFF
        &&& self.data@.len() == self.width * self.height * self.bytespp
    }

    /// Whether `(x, y)` lies inside the image.
    pub open spec fn in_bounds(self, x: int, y: int) -> bool {
        0 <= x < self.width && 0 <= y < self.height
    }

    /// Byte offset of pixel `(x, y)` in the buffer.
    pub open spec fn pix_off(self, x: int, y: int) -> int {
        (x + y * self.width) * self.bytespp
    }

    /// The `bytespp` bytes of pixel `(x, y)`.
    pub open spec fn pixel_at(self, x: int, y: int) -> Seq<u8> {
        self.data@.subrange(self.pix_off(x, y), self.pix_off(x, y) + self.bytespp)
    }

    /// A pixel's bytes lie inside the buffer, and the offset dominates its
    /// factors (used to discharge overflow checks on index arithmetic).
    pub proof fn lemma_pix_off_bounds(self, x: int, y: int)
        requires
            self.wf(),
            self.in_bounds(x, y),
        ensures
            0 <= y * self.width <= self.pix_off(x, y),
            x + y * self.width <= self.pix_off(x, y),
            self.pix_off(x, y) + self.bytespp <= self.data@.len(),
    {
        assert(0 <= y * self.width <= self.pix_off(x, y) && x + y * self.width <= self.pix_off(
            x,
            y,
        ) && self.pix_off(x, y) + self.bytespp <= self.width * self.height * self.bytespp)
            by (nonlinear_arith)
            requires
                0 <= x < self.width,
                0 <= y < self.height,
                1 <= self.bytespp,
                self.pix_off(x, y) == (x + y * self.width) * self.bytespp,
        ;
    }

    /// Distinct pixels occupy disjoint byte ranges.
    pub proof fn lemma_pix_off_disjoint(self, x1: int, y1: int, x2: int, y2: int)
        requires
            self.wf(),
            self.in_bounds(x1, y1),
            self.in_bounds(x2, y2),
            !(x1 == x2 && y1 == y2),
        ensures
            self.pix_off(x1, y1) + self.bytespp <= self.pix_off(x2, y2) || self.pix_off(x2, y2)
                + self.bytespp <= self.pix_off(x1, y1),
    {
        assert((x1 + y1 * self.width + 1) * self.bytespp <= self.pix_off(x2, y2) || (x2 + y2
            * self.width + 1) * self.bytespp <= self.pix_off(x1, y1)) by (nonlinear_arith)
            requires
                0 <= x1 < self.width,
                0 <= y1 < self.height,
                0 <= x2 < self.width,
                0 <= y2 < self.height,
                !(x1 == x2 && y1 == y2),
                1 <= self.bytespp,
                self.pix_off(x1, y1) == (x1 + y1 * self.width) * self.bytespp,
                self.pix_off(x2, y2) == (x2 + y2 * self.width) * self.bytespp,
        ;
        assert((x1 + y1 * self.width + 1) * self.bytespp == self.pix_off(x1, y1) + self.bytespp)
            by (nonlinear_arith)
            requires
                self.pix_off(x1, y1) == (x1 + y1 * self.width) * self.bytespp,
        ;
        assert((x2 + y2 * self.width + 1) * self.bytespp == self.pix_off(x2, y2) + self.bytespp)
            by (nonlinear_arith)
            requires
                self.pix_off(x2, y2) == (x2 + y2 * self.width) * self.bytespp,
        ;
    }

    /// Creates a zero-filled image of the given dimensions and format.
    pub fn new(w: i32, h: i32, format: Format) -> (img: TGAImage)
        requires
            0 <= w <= 0xFFFF,
            0 <= h <= 0xFFFF,
            w * h * format.spec_bytes() <= usize::MAX,
        ensures
            img.wf(),
            img.width == w,
            img.height == h,
            img.bytespp == format.spec_bytes(),
            img.data@.len() == w * h * format.spec_bytes(),
            forall|i: int| 0 <= i < img.data@.len() ==> img.data@[i] == 0u8,
    {
        let bytespp = format.bytes_per_pixel();
        proof {
            assert((w as int) * (h as int) * (bytespp as int) >= 0 && (w as int) * (h as int) * (
            bytespp as int) >= (w as int) * (h as int)) by (nonlinear_arith)
                requires
                    0 <= w,
                    0 <= h,
                    1 <= bytespp,
            ;
        }
        let nbytes: usize = (w as usize) * (h as usize) * bytespp;
        let mut data: Vec<u8> = Vec::new();
        let mut i: usize = 0;
        while i < nbytes
            invariant
                data@.len() == i <= nbytes,
                forall|j: int| 0 <= j < i ==> data@[j] == 0u8,
            decreases nbytes - i,
        {
            data.push(0);
            i += 1;
        }
        TGAImage { data, width: w, height: h, bytespp }
    }

    /// Byte offset of an in-bounds pixel, as an executable index.
    fn pix_index(&self, x: i32, y: i32) -> (idx: usize)
        requires
            self.wf(),
            self.in_bounds(x as int, y as int),
        ensures
            idx == self.pix_off(x as int, y as int),
            idx + self.bytespp <= self.data@.len(),
    {
        proof {
            self.lemma_pix_off_bounds(x as int, y as int);
        }
        let n = self.data.len();
        (x as usize + (y as usize) * (self.width as usize)) * self.bytespp
    }

    /// Bounds-checked read of pixel `(x, y)`.
    pub fn get(&self, x: i32, y: i32) -> (r: Option<TGAColor>)
        requires
            self.wf(),
        ensures
            r is Some <==> self.in_bounds(x as int, y as int),
            match r {
                Some(c) => {
                    &&& c.bytespp == self.bytespp
                    &&& forall|k: int|
                        0 <= k < self.bytespp ==> c.raw@[k] == self.data@[self.pix_off(
                            x as int,
                            y as int,
                        ) + k]
                    &&& forall|k: int| self.bytespp <= k < 4 ==> c.raw@[k] == 0
                },
                None => true,
            },
    {
        if x < 0 || y < 0 || x >= self.width || y >= self.height {
            return None;
        }
        let idx = self.pix_index(x, y);
        let n = self.data.len();
        let mut raw = [0u8; 4];
        let mut k: usize = 0;
        while k < self.bytespp
            invariant
                self.wf(),
                k <= self.bytespp <= 4,
                idx == self.pix_off(x as int, y as int),
                n == self.data@.len(),
                idx + self.bytespp <= self.data@.len(),
                forall|j: int| 0 <= j < k ==> raw@[j] == self.data@[idx + j],
                forall|j: int| k <= j < 4 ==> raw@[j] == 0,
            decreases self.bytespp - k,
        {
            raw[k] = self.data[idx + k];
            k += 1;
        }
        Some(TGAColor { raw, bytespp: self.bytespp })
    }

    /// Bounds-checked write of pixel `(x, y)`: copies exactly `bytespp`
    /// bytes from the color's raw bytes; a no-op out of bounds.
    pub fn set(&mut self, x: i32, y: i32, c: &TGAColor) -> (r: bool)
        requires
            old(self).wf(),
        ensures
            final(self).wf(),
            final(self).width == old(self).width,
            final(self).height == old(self).height,
            final(self).bytespp == old(self).bytespp,
            final(self).data@.len() == old(self).data@.len(),
            r <==> old(self).in_bounds(x as int, y as int),
            !r ==> final(self).data@ == old(self).data@,
            r ==> forall|i: int|
                0 <= i < old(self).data@.len() ==> final(self).data@[i] == (if old(self).pix_off(
                    x as int,
                    y as int,
                ) <= i < old(self).pix_off(x as int, y as int) + old(self).bytespp {
                    c.raw@[i - old(self).pix_off(x as int, y as int)]
                } else {
                    old(self).data@[i]
                }),
            r ==> final(self).pixel_at(x as int, y as int) == c.raw@.take(
                old(self).bytespp as int,
            ),
            forall|xx: int, yy: int|
                old(self).in_bounds(xx, yy) && !(xx == x as int && yy == y as int)
                    ==> final(self).pixel_at(xx, yy) == old(self).pixel_at(xx, yy),
    {
        if x < 0 || y < 0 || x >= self.width || y >= self.height {
            return false;
        }
        let idx = self.pix_index(x, y);
        let n = self.data.len();
        let bpp = self.bytespp;
        let mut k: usize = 0;
        while k < bpp
            invariant
                old(self).wf(),
                self.width == old(self).width,
                self.height == old(self).height,
                self.bytespp == old(self).bytespp,
                self.data@.len() == old(self).data@.len(),
                bpp == self.bytespp,
                k <= bpp,
                idx == old(self).pix_off(x as int, y as int),
                n == self.data@.len(),
                idx + bpp <= self.data@.len(),
                forall|i: int|
                    0 <= i < self.data@.len() ==> self.data@[i] == (if idx <= i < idx + k {
                        c.raw@[i - idx]
                    } else {
                        old(self).data@[i]
                    }),
            decreases bpp - k,
        {
            self.data[idx + k] = c.raw[k];
            k += 1;
        }
        proof {
            assert(self.pixel_at(x as int, y as int) =~= c.raw@.take(old(self).bytespp as int));
            assert forall|xx: int, yy: int|
                old(self).in_bounds(xx, yy) && !(xx == x as int && yy == y as int) implies self
                .pixel_at(xx, yy) =~= old(self).pixel_at(xx, yy) by {
                old(self).lemma_pix_off_disjoint(xx, yy, x as int, y as int);
                old(self).lemma_pix_off_bounds(xx, yy);
            }
        }
        true
    }

    /// Zeroes every byte of the buffer.
    pub fn clear(&mut self)
        requires
            old(self).wf(),
        ensures
            final(self).wf(),
            final(self).width == old(self).width,
            final(self).height == old(self).height,
            final(self).bytespp == old(self).bytespp,
            final(self).data@.len() == old(self).data@.len(),
            forall|i: int| 0 <= i < final(self).data@.len() ==> final(self).data@[i] == 0u8,
    {
        let n = self.data.len();
        let mut i: usize = 0;
        while i < n
            invariant
                self.width == old(self).width,
                self.height == old(self).height,
                self.bytespp == old(self).bytespp,
                self.data@.len() == old(self).data@.len() == n,
                i <= n,
                forall|j: int| 0 <= j < i ==> self.data@[j] == 0u8,
            decreases n - i,
        {
            self.data[i] = 0;
            i += 1;
        }
    }
}

/// Source byte index for a vertical mirror: byte `i` of the flipped buffer
/// comes from the same column of row `h - 1 - r`.
pub open spec fn flip_v_idx(i: int, w: int, h: int, bpp: int) -> int {
    let rb = w * bpp;
    (h - 1 - i / rb) * rb + i % rb
}

/// A pixel buffer mirrored top-to-bottom.
pub open spec fn flip_v_seq(data: Seq<u8>, w: int, h: int, bpp: int) -> Seq<u8> {
    Seq::new(data.len(), |i: int| data[flip_v_idx(i, w, h, bpp)])
}

/// Source byte index for a horizontal mirror: byte `i` of the flipped buffer
/// comes from the mirrored pixel of the same row.
pub open spec fn flip_h_idx(i: int, w: int, bpp: int) -> int {
    let rb = w * bpp;
    let o = i % rb;
    (i / rb) * rb + (w - 1 - o / bpp) * bpp + o % bpp
}

/// A pixel buffer mirrored left-to-right.
pub open spec fn flip_h_seq(data: Seq<u8>, w: int, bpp: int) -> Seq<u8> {
    Seq::new(data.len(), |i: int| data[flip_h_idx(i, w, bpp)])
}

/// Recomposition: a byte index built from a row `q` and an in-row offset `o`
/// decomposes back into exactly that row and offset.
proof fn lemma_row_decompose(q: int, o: int, rb: int)
    requires
        0 < rb,
        0 <= o < rb,
        0 <= q,
    ensures
        (q * rb + o) / rb == q,
        (q * rb + o) % rb == o,
        0 <= q * rb + o,
{
    vstd::arithmetic::div_mod::lemma_fundamental_div_mod_converse(q * rb + o, rb, q, o);
    assert(0 <= q * rb) by (nonlinear_arith)
        requires
            0 <= q,
            0 < rb,
    ;
}

/// A byte index below `h` rows lies in row `0 <= i / rb < h`.
proof fn lemma_row_bound(i: int, rb: int, h: int)
    requires
        0 < rb,
        0 <= i < h * rb,
    ensures
        0 <= i / rb < h,
        0 <= i % rb < rb,
        i == (i / rb) * rb + i % rb,
{
    vstd::arithmetic::div_mod::lemma_fundamental_div_mod(i, rb);
    vstd::arithmetic::div_mod::lemma_mod_bound(i, rb);
    assert(0 <= i / rb < h) by (nonlinear_arith)
        requires
            0 < rb,
            0 <= i < h * rb,
            i == rb * (i / rb) + i % rb,
            0 <= i % rb < rb,
    ;
    assert(i == (i / rb) * rb + i % rb) by (nonlinear_arith)
        requires
            i == rb * (i / rb) + i % rb,
    ;
}

/// The vertical mirror maps in-range indices to in-range indices, and is an
/// involution on them.
proof fn lemma_flip_v_idx(i: int, w: int, h: int, bpp: int)
    requires
        0 < w,
        0 < h,
        0 < bpp,
        0 <= i < w * h * bpp,
    ensures
        0 <= flip_v_idx(i, w, h, bpp) < w * h * bpp,
        flip_v_idx(flip_v_idx(i, w, h, bpp), w, h, bpp) == i,
{
    let rb = w * bpp;
    assert(w * h * bpp == h * rb) by (nonlinear_arith)
        requires
            rb == w * bpp,
    ;
    lemma_row_bound(i, rb, h);
    let q = i / rb;
    let o = i % rb;
    let j = (h - 1 - q) * rb + o;
    lemma_row_decompose(h - 1 - q, o, rb);
    assert(j < h * rb) by (nonlinear_arith)
        requires
            j == (h - 1 - q) * rb + o,
            0 <= h - 1 - q < h,
            0 <= o < rb,
            0 < rb,
    ;
    assert(flip_v_idx(j, w, h, bpp) == (h - 1 - (h - 1 - q)) * rb + o);
    assert((h - 1 - (h - 1 - q)) * rb + o == i) by (nonlinear_arith)
        requires
            i == q * rb + o,
            h - 1 - (h - 1 - q) == q,
    ;
}

/// The horizontal mirror maps in-range indices to in-range indices, and is an
/// involution on them.
proof fn lemma_flip_h_idx(i: int, w: int, h: int, bpp: int)
    requires
        0 < w,
        0 < h,
        0 < bpp,
        0 <= i < w * h * bpp,
    ensures
        0 <= flip_h_idx(i, w, bpp) < w * h * bpp,
        flip_h_idx(flip_h_idx(i, w, bpp), w, bpp) == i,
{
    let rb = w * bpp;
    assert(w * h * bpp == h * rb) by (nonlinear_arith)
        requires
            rb == w * bpp,
    ;
    lemma_row_bound(i, rb, h);
    let q = i / rb;
    let o = i % rb;
    lemma_row_bound(o, bpp, w);
    let px = o / bpp;
    let b = o % bpp;
    let o2 = (w - 1 - px) * bpp + b;
    lemma_row_decompose(w - 1 - px, b, bpp);
    assert(o2 < rb) by (nonlinear_arith)
        requires
            o2 == (w - 1 - px) * bpp + b,
            0 <= w - 1 - px < w,
            0 <= b < bpp,
            0 < bpp,
            rb == w * bpp,
    ;
    let j = q * rb + o2;
    lemma_row_decompose(q, o2, rb);
    assert(flip_h_idx(i, w, bpp) == j);
    assert(j < h * rb) by (nonlinear_arith)
        requires
            j == q * rb + o2,
            0 <= q < h,
            0 <= o2 < rb,
            0 < rb,
    ;
    assert(flip_h_idx(j, w, bpp) == q * rb + (w - 1 - (w - 1 - px)) * bpp + b);
    assert(q * rb + (w - 1 - (w - 1 - px)) * bpp + b == i) by (nonlinear_arith)
        requires
            i == q * rb + o,
            o == px * bpp + b,
            w - 1 - (w - 1 - px) == px,
    ;
}

/// Mirroring a buffer top-to-bottom twice restores every byte: flipping
/// vertically is an involution.
pub proof fn lemma_flip_v_involutive(data: Seq<u8>, w: int, h: int, bpp: int)
    requires
        0 <= w,
        0 <= h,
        0 < bpp,
        data.len() == w * h * bpp,
    ensures
        flip_v_seq(flip_v_seq(data, w, h, bpp), w, h, bpp) == data,
{
    let once = flip_v_seq(data, w, h, bpp);
    let twice = flip_v_seq(once, w, h, bpp);
    assert(w * h * bpp <= 0 ==> data.len() == 0) by (nonlinear_arith)
        requires
            data.len() == w * h * bpp,
    ;
    if data.len() > 0 {
        assert(0 < w && 0 < h) by (nonlinear_arith)
            requires
                0 <= w,
                0 <= h,
                0 < bpp,
                0 < w * h * bpp,
        ;
        assert forall|i: int| 0 <= i < data.len() implies twice[i] == data[i] by {
            lemma_flip_v_idx(i, w, h, bpp);
            lemma_flip_v_idx(flip_v_idx(i, w, h, bpp), w, h, bpp);
        }
    }
    assert(twice =~= data);
}

/// Mirroring a buffer left-to-right twice restores every byte: flipping
/// horizontally is an involution.
pub proof fn lemma_flip_h_involutive(data: Seq<u8>, w: int, h: int, bpp: int)
    requires
        0 <= w,
        0 <= h,
        0 < bpp,
        data.len() == w * h * bpp,
    ensures
        flip_h_seq(flip_h_seq(data, w, bpp), w, bpp) == data,
{
    let once = flip_h_seq(data, w, bpp);
    let twice = flip_h_seq(once, w, bpp);
    assert(w * h * bpp <= 0 ==> data.len() == 0) by (nonlinear_arith)
        requires
            data.len() == w * h * bpp,
    ;
    if data.len() > 0 {
        assert(0 < w && 0 < h) by (nonlinear_arith)
            requires
                0 <= w,
                0 <= h,
                0 < bpp,
                0 < w * h * bpp,
        ;
        assert forall|i: int| 0 <= i < data.len() implies twice[i] == data[i] by {
            lemma_flip_h_idx(i, w, h, bpp);
            lemma_flip_h_idx(flip_h_idx(i, w, bpp), w, h, bpp);
        }
    }
    assert(twice =~= data);
}

/// Source byte index for nearest-neighbor resampling: byte `i` of the scaled
/// buffer comes from source pixel `(kx*ow/nw, ky*oh/nh)` where `(kx, ky)` is
/// the destination pixel holding byte `i`.
pub open spec fn scale_src_idx(i: int, ow: int, oh: int, bpp: int, nw: int, nh: int) -> int {
    let rb = nw * bpp;
    let ky = i / rb;
    let o = i % rb;
    let kx = o / bpp;
    let b = o % bpp;
    (kx * ow / nw + (ky * oh / nh) * ow) * bpp + b
}

/// A pixel buffer resampled to `nw` by `nh` pixels by nearest neighbor.
pub open spec fn scaled_seq(data: Seq<u8>, ow: int, oh: int, bpp: int, nw: int, nh: int) -> Seq<
    u8,
> {
    Seq::new((nw * nh * bpp) as nat, |i: int| data[scale_src_idx(i, ow, oh, bpp, nw, nh)])
}

/// Where one destination byte of a resampled buffer comes from, with all the
/// bounds needed to read it.
proof fn lemma_scale_idx(kx: int, ky: int, b: int, ow: int, oh: int, bpp: int, nw: int, nh: int)
    requires
        0 < bpp,
        0 < nw,
        0 < nh,
        0 < ow,
        0 < oh,
        0 <= kx < nw,
        0 <= ky < nh,
        0 <= b < bpp,
    ensures
        scale_src_idx(ky * (nw * bpp) + kx * bpp + b, ow, oh, bpp, nw, nh) == (kx * ow / nw + (ky
            * oh / nh) * ow) * bpp + b,
        0 <= ky * (nw * bpp) + kx * bpp + b < nw * nh * bpp,
        0 <= kx * ow / nw < ow,
        0 <= ky * oh / nh < oh,
        0 <= (kx * ow / nw + (ky * oh / nh) * ow) * bpp + b < ow * oh * bpp,
{
    let rb = nw * bpp;
    let o = kx * bpp + b;
    lemma_row_decompose(kx, b, bpp);
    assert(0 <= o < rb) by (nonlinear_arith)
        requires
            o == kx * bpp + b,
            0 <= kx < nw,
            0 <= b < bpp,
            0 < bpp,
            rb == nw * bpp,
    ;
    lemma_row_decompose(ky, o, rb);
    assert(ky * rb + o < nh * rb) by (nonlinear_arith)
        requires
            0 <= ky < nh,
            0 <= o < rb,
            0 < rb,
    ;
    assert(nh * rb == nw * nh * bpp) by (nonlinear_arith)
        requires
            rb == nw * bpp,
    ;
    let sx = kx * ow / nw;
    let sy = ky * oh / nh;
    assert(0 <= kx * ow < ow * nw && 0 <= ky * oh < oh * nh) by (nonlinear_arith)
        requires
            0 <= kx < nw,
            0 <= ky < nh,
            0 < ow,
            0 < oh,
    ;
    lemma_row_bound(kx * ow, nw, ow);
    lemma_row_bound(ky * oh, nh, oh);
    assert(0 <= (sx + sy * ow) * bpp + b < ow * oh * bpp) by (nonlinear_arith)
        requires
            0 <= sx < ow,
            0 <= sy < oh,
            0 <= b < bpp,
            0 < bpp,
    ;
}

impl TGAImage {
    /// Mirrors the image top-to-bottom in place; a no-op on an empty buffer.
    pub fn flip_vertically(&mut self) -> (r: bool)
        requires
            old(self).wf(),
        ensures
            final(self).wf(),
            final(self).width == old(self).width,
            final(self).height == old(self).height,
            final(self).bytespp == old(self).bytespp,
            r <==> old(self).data@.len() != 0,
            final(self).data@ == flip_v_seq(
                old(self).data@,
                old(self).width as int,
                old(self).height as int,
                old(self).bytespp as int,
            ),
    {
        if self.data.is_empty() {
            proof {
                assert(self.data@ =~= flip_v_seq(
                    self.data@,
                    self.width as int,
                    self.height as int,
                    self.bytespp as int,
                ));
            }
            return false;
        }
        let w = self.width as usize;
        let h = self.height as usize;
        let bpp = self.bytespp;
        let n = self.data.len();
        proof {
            assert(0 < w && 0 < h) by (nonlinear_arith)
                requires
                    0 <= w,
                    0 <= h,
                    0 < bpp,
                    0 < n == w * h * bpp,
            ;
            assert(0 < w * bpp && w * bpp <= n && (w * bpp) * h == n) by (nonlinear_arith)
                requires
                    0 < w,
                    0 < h,
                    0 < bpp,
                    n == w * h * bpp,
            ;
        }
        let rb: usize = w * bpp;
        let mut out: Vec<u8> = Vec::new();
        let mut y: usize = 0;
        while y < h
            invariant
                self == old(self),
                self.wf(),
                w == self.width as int,
                h == self.height as int,
                bpp == self.bytespp,
                n == self.data@.len(),
                rb == w * bpp,
                0 < rb,
                (rb as int) * (h as int) == n,
                y <= h,
                out@.len() == y * rb,
                forall|i: int|
                    0 <= i < out@.len() ==> out@[i] == self.data@[flip_v_idx(
                        i,
                        w as int,
                        h as int,
                        bpp as int,
                    )],
            decreases h - y,
        {
            let src_row = h - 1 - y;
            proof {
                assert(y * rb + rb <= n && src_row * rb + rb <= n) by (nonlinear_arith)
                    requires
                        y < h,
                        src_row == h - 1 - y,
                        0 < rb,
                        (rb as int) * (h as int) == n,
                ;
            }
            let mut k: usize = 0;
            while k < rb
                invariant
                    self == old(self),
                    self.wf(),
                    w == self.width as int,
                    h == self.height as int,
                    bpp == self.bytespp,
                    n == self.data@.len(),
                    rb == w * bpp,
                    0 < rb,
                    (rb as int) * (h as int) == n,
                    y < h,
                    src_row == h - 1 - y,
                    src_row * rb + rb <= n,
                    y * rb + rb <= n,
                    k <= rb,
                    out@.len() == y * rb + k,
                    forall|i: int|
                        0 <= i < out@.len() ==> out@[i] == self.data@[flip_v_idx(
                            i,
                            w as int,
                            h as int,
                            bpp as int,
                        )],
                decreases rb - k,
            {
                proof {
                    lemma_row_decompose(y as int, k as int, rb as int);
                    assert(flip_v_idx(y * rb + k, w as int, h as int, bpp as int) == src_row * rb
                        + k);
                }
                out.push(self.data[src_row * rb + k]);
                k += 1;
            }
            proof {
                assert((y as int + 1) * rb == y as int * rb + rb) by (nonlinear_arith);
            }
            y += 1;
        }
        proof {
            assert(out@ =~= flip_v_seq(
                self.data@,
                self.width as int,
                self.height as int,
                self.bytespp as int,
            )) by {
                assert(out@.len() == n) by (nonlinear_arith)
                    requires
                        out@.len() == h * rb,
                        (rb as int) * (h as int) == n,
                ;
            }
        }
        self.data = out;
        true
    }

    /// Mirrors the image left-to-right in place; a no-op on an empty buffer.
    pub fn flip_horizontally(&mut self) -> (r: bool)
        requires
            old(self).wf(),
        ensures
            final(self).wf(),
            final(self).width == old(self).width,
            final(self).height == old(self).height,
            final(self).bytespp == old(self).bytespp,
            r <==> old(self).data@.len() != 0,
            final(self).data@ == flip_h_seq(
                old(self).data@,
                old(self).width as int,
                old(self).bytespp as int,
            ),
    {
        if self.data.is_empty() {
            proof {
                assert(self.data@ =~= flip_h_seq(
                    self.data@,
                    self.width as int,
                    self.bytespp as int,
                ));
            }
            return false;
        }
        let w = self.width as usize;
        let h = self.height as usize;
        let bpp = self.bytespp;
        let n = self.data.len();
        proof {
            assert(0 < w && 0 < h) by (nonlinear_arith)
                requires
                    0 <= w,
                    0 <= h,
                    0 < bpp,
                    0 < n == w * h * bpp,
            ;
            assert(0 < w * bpp && w * bpp <= n && (w * bpp) * h == n) by (nonlinear_arith)
                requires
                    0 < w,
                    0 < h,
                    0 < bpp,
                    n == w * h * bpp,
            ;
        }
        let rb: usize = w * bpp;
        let mut out: Vec<u8> = Vec::new();
        let mut y: usize = 0;
        while y < h
            invariant
                self == old(self),
                self.wf(),
                w == self.width as int,
                h == self.height as int,
                bpp == self.bytespp,
                n == self.data@.len(),
                rb == w * bpp,
                0 < rb,
                0 < w,
                (rb as int) * (h as int) == n,
                y <= h,
                out@.len() == y * rb,
                forall|i: int|
                    0 <= i < out@.len() ==> out@[i] == self.data@[flip_h_idx(
                        i,
                        w as int,
                        bpp as int,
                    )],
            decreases h - y,
        {
            proof {
                assert(y * rb + rb <= n) by (nonlinear_arith)
                    requires
                        y < h,
                        0 < rb,
                        (rb as int) * (h as int) == n,
                ;
            }
            let mut x: usize = 0;
            while x < w
                invariant
                    self == old(self),
                    self.wf(),
                    w == self.width as int,
                    h == self.height as int,
                    bpp == self.bytespp,
                    n == self.data@.len(),
                    rb == w * bpp,
                    0 < rb,
                    0 < w,
                    (rb as int) * (h as int) == n,
                    y < h,
                    y * rb + rb <= n,
                    x <= w,
                    out@.len() == y * rb + x * bpp,
                    forall|i: int|
                        0 <= i < out@.len() ==> out@[i] == self.data@[flip_h_idx(
                            i,
                            w as int,
                            bpp as int,
                        )],
                decreases w - x,
            {
                let src_px = w - 1 - x;
                proof {
                    assert(x * bpp + bpp <= rb && src_px * bpp + bpp <= rb) by (nonlinear_arith)
                        requires
                            x < w,
                            src_px == w - 1 - x,
                            0 < bpp,
                            rb == w * bpp,
                    ;
                }
                let mut b: usize = 0;
                while b < bpp
                    invariant
                        self == old(self),
                        self.wf(),
                        w == self.width as int,
                        h == self.height as int,
                        bpp == self.bytespp,
                        n == self.data@.len(),
                        rb == w * bpp,
                        0 < rb,
                        0 < w,
                        0 < bpp,
                        (rb as int) * (h as int) == n,
                        y < h,
                        y * rb + rb <= n,
                        x < w,
                        src_px == w - 1 - x,
                        x * bpp + bpp <= rb,
                        src_px * bpp + bpp <= rb,
                        b <= bpp,
                        out@.len() == y * rb + x * bpp + b,
                        forall|i: int|
                            0 <= i < out@.len() ==> out@[i] == self.data@[flip_h_idx(
                                i,
                                w as int,
                                bpp as int,
                            )],
                    decreases bpp - b,
                {
                    proof {
                        lemma_row_decompose(x as int, b as int, bpp as int);
                        lemma_row_decompose(y as int, (x * bpp + b) as int, rb as int);
                        assert(flip_h_idx(y * rb + x * bpp + b, w as int, bpp as int) == y * rb + (
                        w - 1 - x) * bpp + b);
                    }
                    out.push(self.data[y * rb + src_px * bpp + b]);
                    b += 1;
                }
                proof {
                    assert((x as int + 1) * bpp == x as int * bpp + bpp) by (nonlinear_arith);
                }
                x += 1;
            }
            proof {
                assert(y * rb + w * bpp == (y + 1) * rb) by (nonlinear_arith)
                    requires
                        rb == w * bpp,
                ;
            }
            y += 1;
        }
        proof {
            assert(out@ =~= flip_h_seq(self.data@, self.width as int, self.bytespp as int)) by {
                assert(out@.len() == n) by (nonlinear_arith)
                    requires
                        out@.len() == h * rb,
                        (rb as int) * (h as int) == n,
                ;
            }
        }
        self.data = out;
        true
    }

    /// Resamples the image to `w` by `h` pixels by nearest neighbor, using
    /// integer error accumulation to advance the source pixel along each
    /// axis. Destination pixel `(kx, ky)` takes the bytes of source pixel
    /// `(kx*ow/w, ky*oh/h)`. A no-op when `w` or `h` is not positive or the
    /// buffer is empty.
    pub fn scale(&mut self, w: i32, h: i32) -> (r: bool)
        requires
            old(self).wf(),
            w <= 0xFFFF,
            h <= 0xFFFF,
            w * h * old(self).bytespp <= usize::MAX,
        ensures
            final(self).wf(),
            final(self).bytespp == old(self).bytespp,
            r <==> (w > 0 && h > 0 && old(self).data@.len() != 0),
            !r ==> *final(self) == *old(self),
            r ==> final(self).width == w && final(self).height == h,
            r ==> final(self).data@ == scaled_seq(
                old(self).data@,
                old(self).width as int,
                old(self).height as int,
                old(self).bytespp as int,
                w as int,
                h as int,
            ),
            r ==> forall|kx: int, ky: int|
                0 <= kx < w && 0 <= ky < h ==> final(self).pixel_at(kx, ky) == old(self).pixel_at(
                    kx * old(self).width / w as int,
                    ky * old(self).height / h as int,
                ),
    {
        if w <= 0 || h <= 0 || self.data.is_empty() {
            return false;
        }
        let ow = self.width as usize;
        let oh = self.height as usize;
        let bpp = self.bytespp;
        let n = self.data.len();
        let nw = w as usize;
        let nh = h as usize;
        proof {
            assert(0 < ow && 0 < oh) by (nonlinear_arith)
                requires
                    0 <= ow,
                    0 <= oh,
                    0 < bpp,
                    0 < n == ow * oh * bpp,
            ;
            assert(nw * (nh * bpp) == nw * nh * bpp && nw * bpp <= nw * nh * bpp && (nw * bpp) * nh
                == nw * nh * bpp) by (nonlinear_arith)
                requires
                    0 < nw,
                    0 < nh,
                    0 < bpp,
            ;
        }
        let rb: usize = nw * bpp;
        proof {
            vstd::arithmetic::div_mod::lemma_div_of0(nh as int);
            vstd::arithmetic::div_mod::lemma_small_mod(0, nh as nat);
            assert(0int * (oh as int) == 0) by (nonlinear_arith);
        }
        let mut out: Vec<u8> = Vec::new();
        let mut sy: usize = 0;
        let mut erry: usize = 0;
        let mut ky: usize = 0;
        while ky < nh
            invariant
                self == old(self),
                self.wf(),
                ow == self.width as int,
                oh == self.height as int,
                bpp == self.bytespp,
                n == self.data@.len(),
                0 < ow,
                0 < oh,
                0 < nw <= 0xFFFF,
                0 < nh <= 0xFFFF,
                rb == nw * bpp,
                (rb as int) * (nh as int) == nw * nh * bpp,
                nw * nh * bpp <= usize::MAX,
                ky <= nh,
                sy == ky * oh / nh as int,
                erry == ky * oh % nh as int,
                out@.len() == ky * rb,
                forall|i: int|
                    0 <= i < out@.len() ==> out@[i] == self.data@[scale_src_idx(
                        i,
                        ow as int,
                        oh as int,
                        bpp as int,
                        nw as int,
                        nh as int,
                    )],
            decreases nh - ky,
        {
            proof {
                assert(0 <= ky * oh < oh * nh) by (nonlinear_arith)
                    requires
                        0 <= ky < nh,
                        0 < oh,
                ;
                lemma_row_bound(ky * oh, nh as int, oh as int);
                assert(ky * rb + rb <= (rb as int) * (nh as int)) by (nonlinear_arith)
                    requires
                        ky < nh,
                        0 < rb,
                ;
            }
            let mut sx: usize = 0;
            let mut errx: usize = 0;
            let mut kx: usize = 0;
            while kx < nw
                invariant
                    self == old(self),
                    self.wf(),
                    ow == self.width as int,
                    oh == self.height as int,
                    bpp == self.bytespp,
                    n == self.data@.len(),
                    0 < ow,
                    0 < oh,
                    0 < nw <= 0xFFFF,
                    0 < nh <= 0xFFFF,
                    rb == nw * bpp,
                    (rb as int) * (nh as int) == nw * nh * bpp,
                    nw * nh * bpp <= usize::MAX,
                    ky < nh,
                    sy == ky * oh / nh as int,
                    0 <= sy < oh,
                    kx <= nw,
                    sx == kx * ow / nw as int,
                    errx == kx * ow % nw as int,
                    out@.len() == ky * rb + kx * bpp,
                    forall|i: int|
                        0 <= i < out@.len() ==> out@[i] == self.data@[scale_src_idx(
                            i,
                            ow as int,
                            oh as int,
                            bpp as int,
                            nw as int,
                            nh as int,
                        )],
                decreases nw - kx,
            {
                proof {
                    assert(0 <= kx * ow < ow * nw) by (nonlinear_arith)
                        requires
                            0 <= kx < nw,
                            0 < ow,
                    ;
                    lemma_row_bound(kx * ow, nw as int, ow as int);
                    assert((sx as int + sy as int * ow) * bpp + bpp <= n && sy as int * ow <= (
                    sx as int + sy as int * ow) * bpp && sx as int + sy as int * ow <= (sx as int
                        + sy as int * ow) * bpp) by (nonlinear_arith)
                        requires
                            0 <= sx < ow,
                            0 <= sy < oh,
                            0 < bpp,
                            n == ow * oh * bpp,
                    ;
                }
                let src: usize = (sx + sy * ow) * bpp;
                let mut b: usize = 0;
                while b < bpp
                    invariant
                        self == old(self),
                        self.wf(),
                        ow == self.width as int,
                        oh == self.height as int,
                        bpp == self.bytespp,
                        n == self.data@.len(),
                        0 < ow,
                        0 < oh,
                        0 < nw <= 0xFFFF,
                        0 < nh <= 0xFFFF,
                        rb == nw * bpp,
                        (rb as int) * (nh as int) == nw * nh * bpp,
                        nw * nh * bpp <= usize::MAX,
                        ky < nh,
                        sy == ky * oh / nh as int,
                        0 <= sy < oh,
                        kx < nw,
                        sx == kx * ow / nw as int,
                        0 <= sx < ow,
                        src == (sx as int + sy as int * ow) * bpp,
                        src + bpp <= n,
                        b <= bpp,
                        out@.len() == ky * rb + kx * bpp + b,
                        forall|i: int|
                            0 <= i < out@.len() ==> out@[i] == self.data@[scale_src_idx(
                                i,
                                ow as int,
                                oh as int,
                                bpp as int,
                                nw as int,
                                nh as int,
                            )],
                    decreases bpp - b,
                {
                    proof {
                        lemma_scale_idx(
                            kx as int,
                            ky as int,
                            b as int,
                            ow as int,
                            oh as int,
                            bpp as int,
                            nw as int,
                            nh as int,
                        );
                        assert((kx * ow / nw as int + (ky * oh / nh as int) * ow) * bpp + b == src
                            + b) by (nonlinear_arith)
                            requires
                                src == (sx as int + sy as int * ow) * bpp,
                                sx == kx * ow / nw as int,
                                sy == ky * oh / nh as int,
                        ;
                    }
                    out.push(self.data[src + b]);
                    b += 1;
                }
                proof {
                    vstd::arithmetic::div_mod::lemma_fundamental_div_mod(
                        kx as int * ow,
                        nw as int,
                    );
                    assert((kx as int + 1) * ow == nw as int * sx + (errx + ow)) by (
                    nonlinear_arith)
                        requires
                            kx as int * ow == nw as int * (kx as int * ow / nw as int) + kx as int
                                * ow % nw as int,
                            sx == kx as int * ow / nw as int,
                            errx == kx as int * ow % nw as int,
                    ;
                    assert((kx as int + 1) * bpp == kx as int * bpp + bpp) by (nonlinear_arith);
                }
                errx += ow;
                while errx >= nw
                    invariant
                        0 < nw,
                        0 < ow,
                        kx < nw,
                        sx <= ow,
                        (kx as int + 1) * ow == nw as int * sx + errx,
                    decreases errx,
                {
                    proof {
                        assert(sx as int + 1 <= ow && (kx as int + 1) * ow == nw as int * (
                        sx as int + 1) + (errx - nw)) by (nonlinear_arith)
                            requires
                                (kx as int + 1) * ow == nw as int * sx + errx,
                                errx >= nw,
                                kx as int + 1 <= nw,
                                0 < nw,
                                0 < ow,
                        ;
                    }
                    errx -= nw;
                    sx += 1;
                }
                proof {
                    vstd::arithmetic::div_mod::lemma_fundamental_div_mod_converse(
                        (kx as int + 1) * ow,
                        nw as int,
                        sx as int,
                        errx as int,
                    );
                }
                kx += 1;
            }
            proof {
                vstd::arithmetic::div_mod::lemma_fundamental_div_mod(ky as int * oh, nh as int);
                assert((ky as int + 1) * oh == nh as int * sy + (erry + oh)) by (nonlinear_arith)
                    requires
                        ky as int * oh == nh as int * (ky as int * oh / nh as int) + ky as int * oh
                            % nh as int,
                        sy == ky as int * oh / nh as int,
                        erry == ky as int * oh % nh as int,
                ;
                assert((ky as int + 1) * rb == ky as int * rb + rb) by (nonlinear_arith);
            }
            erry += oh;
            while erry >= nh
                invariant
                    0 < nh,
                    0 < oh,
                    ky < nh,
                    sy <= oh,
                    (ky as int + 1) * oh == nh as int * sy + erry,
                decreases erry,
            {
                proof {
                    assert(sy as int + 1 <= oh && (ky as int + 1) * oh == nh as int * (sy as int
                        + 1) + (erry - nh)) by (nonlinear_arith)
                        requires
                            (ky as int + 1) * oh == nh as int * sy + erry,
                            erry >= nh,
                            ky as int + 1 <= nh,
                            0 < nh,
                            0 < oh,
                    ;
                }
                erry -= nh;
                sy += 1;
            }
            proof {
                vstd::arithmetic::div_mod::lemma_fundamental_div_mod_converse(
                    (ky as int + 1) * oh,
                    nh as int,
                    sy as int,
                    erry as int,
                );
            }
            ky += 1;
        }
        proof {
            assert(out@.len() == nw * nh * bpp) by (nonlinear_arith)
                requires
                    out@.len() == (nh as int) * (rb as int),
                    (rb as int) * (nh as int) == nw * nh * bpp,
            ;
            assert(out@ =~= scaled_seq(
                self.data@,
                self.width as int,
                self.height as int,
                self.bytespp as int,
                w as int,
                h as int,
            ));
        }
        let ghost prev = *self;
        self.data = out;
        self.width = w;
        self.height = h;
        proof {
            assert forall|kx: int, ky: int| 0 <= kx < w && 0 <= ky < h implies self.pixel_at(
                kx,
                ky,
            ) =~= prev.pixel_at(kx * prev.width / w as int, ky * prev.height / h as int) by {
                let sxx = kx * ow / nw as int;
                let syy = ky * oh / nh as int;
                lemma_scale_idx(kx, ky, 0, ow as int, oh as int, bpp as int, nw as int, nh as int);
                assert(sxx == kx * prev.width / w as int && syy == ky * prev.height / h as int);
                prev.lemma_pix_off_bounds(sxx, syy);
                self.lemma_pix_off_bounds(kx, ky);
                assert forall|b: int| 0 <= b < bpp implies self.pixel_at(kx, ky)[b]
                    == prev.pixel_at(sxx, syy)[b] by {
                    lemma_scale_idx(
                        kx,
                        ky,
                        b,
                        ow as int,
                        oh as int,
                        bpp as int,
                        nw as int,
                        nh as int,
                    );
                    assert(self.pix_off(kx, ky) + b == ky * (nw as int * bpp) + kx * bpp + b) by (
                    nonlinear_arith)
                        requires
                            self.pix_off(kx, ky) == (kx + ky * (nw as int)) * bpp,
                    ;
                    assert(prev.pix_off(sxx, syy) + b == (sxx + syy * ow) * bpp + b) by (
                    nonlinear_arith)
                        requires
                            prev.pix_off(sxx, syy) == (sxx + syy * (ow as int)) * bpp,
                    ;
                    assert(self.pixel_at(kx, ky)[b] == self.data@[self.pix_off(kx, ky) + b]);
                    assert(prev.pixel_at(sxx, syy)[b] == prev.data@[prev.pix_off(sxx, syy) + b]);
                }
            }
        }
        true
    }
}

} // verus!
