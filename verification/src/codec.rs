//! The binary image codec: run-length compression of pixel data and the
//! fixed-layout header and footer framing of the on-disk container.

use crate::tgaimage::TGAImage;
use vstd::prelude::*;

verus! {

/// The `bpp` bytes of pixel `j` in a raw pixel buffer.
pub open spec fn pix(data: Seq<u8>, bpp: nat, j: int) -> Seq<u8> {
    data.subrange(j * bpp, (j + 1) * bpp)
}

/// `count` copies of the pixel `p`, concatenated.
pub open spec fn repeat_pix(p: Seq<u8>, count: nat) -> Seq<u8>
    decreases count,
{
    if count == 0 {
        Seq::empty()
    } else {
        p + repeat_pix(p, (count - 1) as nat)
    }
}

/// Decodes `npix` run-length encoded pixels of `bpp` bytes each from the
/// front of `s`: a header byte below 128 announces `header + 1` literal
/// pixels; a header byte of 128 or more announces `header - 127` copies of
/// the one pixel that follows. Yields the decoded bytes and the unconsumed
/// remainder of `s`, or nothing if the stream is exhausted or a run would
/// overshoot `npix`.
pub open spec fn rle_decode(s: Seq<u8>, bpp: nat, npix: nat) -> Option<(Seq<u8>, Seq<u8>)>
    decreases npix,
{
    if npix == 0 {
        Some((Seq::empty(), s))
    } else if s.len() == 0 {
        None
    } else {
        let header = s[0] as int;
        let k: int = if header < 128 {
            header + 1
        } else {
            header - 127
        };
        let body: int = if header < 128 {
            k * bpp
        } else {
            bpp as int
        };
        if k > npix || s.len() < 1 + body {
            None
        } else {
            let pix_bytes = if header < 128 {
                s.subrange(1, 1 + k * bpp)
            } else {
                repeat_pix(s.subrange(1, 1 + bpp as int), k as nat)
            };
            match rle_decode(s.skip(1 + body), bpp, (npix - k) as nat) {
                Some((d, rest)) => Some((pix_bytes + d, rest)),
                None => None,
            }
        }
    }
}

/// Repeating a pixel `count` times yields `count * |p|` bytes.
pub proof fn lemma_repeat_pix_len(p: Seq<u8>, count: nat)
    ensures
        repeat_pix(p, count).len() == count * p.len(),
    decreases count,
{
    if count == 0 {
    } else {
        lemma_repeat_pix_len(p, (count - 1) as nat);
        assert(p.len() + (count - 1) * p.len() == count * p.len()) by (nonlinear_arith);
    }
}

/// Appending one more copy at the back is the same as prepending it at the
/// front: `repeat_pix` in snoc form.
pub proof fn lemma_repeat_pix_snoc(p: Seq<u8>, count: nat)
    ensures
        repeat_pix(p, count + 1) == repeat_pix(p, count) + p,
    decreases count,
{
    if count == 0 {
        assert(repeat_pix(p, 1) =~= repeat_pix(p, 0) + p);
    } else {
        lemma_repeat_pix_snoc(p, (count - 1) as nat);
        assert(repeat_pix(p, count + 1) =~= repeat_pix(p, count) + p);
    }
}

/// A segment whose pixels all equal `p` is `p` repeated.
pub proof fn lemma_repeat_pix_char(seg: Seq<u8>, p: Seq<u8>, bpp: nat, k: nat)
    requires
        p.len() == bpp,
        seg.len() == k * bpp,
        forall|j: int| 0 <= j < k ==> #[trigger] seg.subrange(j * bpp, (j + 1) * bpp) == p,
    ensures
        seg == repeat_pix(p, k),
    decreases k,
{
    if k == 0 {
        assert(seg =~= repeat_pix(p, 0));
    } else {
        assert(k * bpp == bpp + (k - 1) * bpp) by (nonlinear_arith);
        let tail = seg.skip(bpp as int);
        assert forall|j: int| 0 <= j < k - 1 implies #[trigger] tail.subrange(
            j * bpp,
            (j + 1) * bpp,
        ) == p by {
            let j1 = j + 1;
            assert((j + 1) * bpp == j * bpp + bpp && (j1 + 1) * bpp == j1 * bpp + bpp) by (
            nonlinear_arith);
            assert(0 <= j * bpp && (j1 + 1) * bpp <= k * bpp) by (nonlinear_arith)
                requires
                    0 <= j < k - 1,
                    j1 == j + 1,
                    0 <= bpp,
            ;
            assert(seg.subrange(j1 * bpp, (j1 + 1) * bpp) == p);
            assert(tail.subrange(j * bpp, (j + 1) * bpp) =~= seg.subrange(
                j1 * bpp,
                (j1 + 1) * bpp,
            ));
        }
        lemma_repeat_pix_char(tail, p, bpp, (k - 1) as nat);
        assert(seg.subrange(0int * bpp, (0int + 1) * bpp) == p);
        assert(seg =~= p + tail);
    }
}

/// Decoding is oblivious to bytes after the consumed prefix: appending `t`
/// to the stream appends `t` to the remainder.
pub proof fn lemma_rle_decode_extend(s: Seq<u8>, t: Seq<u8>, bpp: nat, npix: nat)
    requires
        rle_decode(s, bpp, npix) is Some,
    ensures
        rle_decode(s + t, bpp, npix) == Some(
            (
                rle_decode(s, bpp, npix)->Some_0.0,
                rle_decode(s, bpp, npix)->Some_0.1 + t,
            ),
        ),
    decreases npix,
{
    if npix == 0 {
        assert(rle_decode(s + t, bpp, npix) == Some((Seq::<u8>::empty(), s + t)));
    } else {
        let header = s[0] as int;
        let k: int = if header < 128 {
            header + 1
        } else {
            header - 127
        };
        let body: int = if header < 128 {
            k * bpp
        } else {
            bpp as int
        };
        assert((s + t)[0] == s[0]);
        assert(1 + body <= s.len());
        if header < 128 {
            assert((s + t).subrange(1, 1 + k * bpp) =~= s.subrange(1, 1 + k * bpp));
        } else {
            assert((s + t).subrange(1, 1 + bpp as int) =~= s.subrange(1, 1 + bpp as int));
        }
        assert((s + t).skip(1 + body) =~= s.skip(1 + body) + t);
        lemma_rle_decode_extend(s.skip(1 + body), t, bpp, (npix - k) as nat);
    }
}

/// Decoding `n1 + n2` pixels is decoding `n1` pixels and then `n2` more from
/// the remainder.
pub proof fn lemma_rle_decode_compose(s: Seq<u8>, bpp: nat, n1: nat, n2: nat)
    requires
        rle_decode(s, bpp, n1) is Some,
        rle_decode(rle_decode(s, bpp, n1)->Some_0.1, bpp, n2) is Some,
    ensures
        rle_decode(s, bpp, (n1 + n2) as nat) == Some(
            (
                rle_decode(s, bpp, n1)->Some_0.0 + rle_decode(
                    rle_decode(s, bpp, n1)->Some_0.1,
                    bpp,
                    n2,
                )->Some_0.0,
                rle_decode(rle_decode(s, bpp, n1)->Some_0.1, bpp, n2)->Some_0.1,
            ),
        ),
    decreases n1,
{
    let (d1, r) = rle_decode(s, bpp, n1)->Some_0;
    let (d2, r2) = rle_decode(r, bpp, n2)->Some_0;
    if n1 == 0 {
        assert(d1 =~= Seq::<u8>::empty());
        assert(r == s);
        assert(d1 + d2 =~= d2);
    } else {
        let header = s[0] as int;
        let k: int = if header < 128 {
            header + 1
        } else {
            header - 127
        };
        let body: int = if header < 128 {
            k * bpp
        } else {
            bpp as int
        };
        let pix_bytes = if header < 128 {
            s.subrange(1, 1 + k * bpp)
        } else {
            repeat_pix(s.subrange(1, 1 + bpp as int), k as nat)
        };
        let s2 = s.skip(1 + body);
        let (d1t, rt) = rle_decode(s2, bpp, (n1 - k) as nat)->Some_0;
        assert(rt == r && d1 == pix_bytes + d1t);
        lemma_rle_decode_compose(s2, bpp, (n1 - k) as nat, n2);
        assert((n1 - k) + n2 == (n1 + n2) - k);
        assert(pix_bytes + (d1t + d2) =~= (pix_bytes + d1t) + d2);
    }
}

/// A successful decode yields exactly `npix * bpp` bytes.
pub proof fn lemma_rle_decode_len(s: Seq<u8>, bpp: nat, npix: nat)
    requires
        rle_decode(s, bpp, npix) is Some,
    ensures
        rle_decode(s, bpp, npix)->Some_0.0.len() == npix * bpp,
        rle_decode(s, bpp, npix)->Some_0.1.len() <= s.len(),
    decreases npix,
{
    if npix == 0 {
        assert(0 * bpp == 0) by (nonlinear_arith);
    } else {
        let header = s[0] as int;
        let k: int = if header < 128 {
            header + 1
        } else {
            header - 127
        };
        let body: int = if header < 128 {
            k * bpp
        } else {
            bpp as int
        };
        lemma_rle_decode_len(s.skip(1 + body), bpp, (npix - k) as nat);
        if header >= 128 {
            lemma_repeat_pix_len(s.subrange(1, 1 + bpp as int), k as nat);
        }
        assert(k * bpp + (npix - k) * bpp == npix * bpp) by (nonlinear_arith);
    }
}

/// Decoding a raw chunk (header byte `k - 1`, then `k * bpp` literal bytes)
/// yields exactly its literal bytes.
pub proof fn lemma_rle_raw_chunk(c: Seq<u8>, bpp: nat, k: nat)
    requires
        1 <= k <= 128,
        c.len() == 1 + k * bpp,
        c[0] == (k - 1) as u8,
    ensures
        rle_decode(c, bpp, k) == Some(
            (c.subrange(1, 1 + (k * bpp) as int), Seq::<u8>::empty()),
        ),
{
    assert(0 <= k * bpp) by (nonlinear_arith)
        requires
            1 <= k,
            0 <= bpp,
    ;
    assert(c[0] as int == k - 1);
    assert(c.skip(1 + (k * bpp) as int) =~= Seq::<u8>::empty());
    assert(rle_decode(c.skip(1 + (k * bpp) as int), bpp, 0) == Some(
        (Seq::<u8>::empty(), Seq::<u8>::empty()),
    ));
    assert(c.subrange(1, 1 + (k * bpp) as int) + Seq::<u8>::empty() =~= c.subrange(
        1,
        1 + (k * bpp) as int,
    ));
}

/// Decoding a packeted chunk (header byte `k + 127`, then one pixel) yields
/// `k` copies of that pixel.
pub proof fn lemma_rle_packet_chunk(c: Seq<u8>, bpp: nat, k: nat)
    requires
        1 <= k <= 128,
        c.len() == 1 + bpp,
        c[0] == (k + 127) as u8,
    ensures
        rle_decode(c, bpp, k) == Some(
            (repeat_pix(c.subrange(1, 1 + bpp as int), k), Seq::<u8>::empty()),
        ),
{
    assert(c[0] as int == k + 127);
    assert(c.skip(1 + bpp as int) =~= Seq::<u8>::empty());
    assert(rle_decode(c.skip(1 + bpp as int), bpp, 0) == Some(
        (Seq::<u8>::empty(), Seq::<u8>::empty()),
    ));
    assert(repeat_pix(c.subrange(1, 1 + bpp as int), k) + Seq::<u8>::empty() =~= repeat_pix(
        c.subrange(1, 1 + bpp as int),
        k,
    ));
}


/// The image-type code written to the header: 3 or 11 for one-byte pixels
/// (raw or run-length encoded), 2 or 10 otherwise.
pub open spec fn tga_type_code(bpp: int, rle: bool) -> u8 {
    if bpp == 1 {
        if rle {
            11u8
        } else {
            3u8
        }
    } else {
        if rle {
            10u8
        } else {
            2u8
        }
    }
}

/// The fixed 18-byte header: id length 0, no color map, the image-type
/// code, a zeroed color-map specification and origin, little-endian width
/// and height, bits per pixel, and a descriptor with only the top-origin
/// bit set.
pub open spec fn tga_header(code: u8, w: int, h: int, bpp: int) -> Seq<u8> {
    seq![
        0u8,
        0u8,
        code,
        0u8,
        0u8,
        0u8,
        0u8,
        0u8,
        0u8,
        0u8,
        0u8,
        0u8,
        (w % 256) as u8,
        (w / 256) as u8,
        (h % 256) as u8,
        (h / 256) as u8,
        (8 * bpp) as u8,
        0x20u8,
    ]
}

/// The fixed 26-byte footer: a zeroed developer-area offset, a zeroed
/// extension-area offset, and the ASCII signature `TRUEVISION-XFILE.` with a
/// trailing NUL.
pub open spec fn tga_footer() -> Seq<u8> {
    seq![
        0u8,
        0u8,
        0u8,
        0u8,
        0u8,
        0u8,
        0u8,
        0u8,
        84u8,
        82u8,
        85u8,
        69u8,
        86u8,
        73u8,
        83u8,
        73u8,
        79u8,
        78u8,
        45u8,
        88u8,
        70u8,
        73u8,
        76u8,
        69u8,
        46u8,
        0u8,
    ]
}

/// Applies the header descriptor's origin bits to a freshly decoded pixel
/// buffer: flip vertically unless bit 5 (top origin) is set, then flip
/// horizontally if bit 4 is set.
pub open spec fn apply_descriptor(d: Seq<u8>, w: int, h: int, bpp: int, desc: u8) -> Seq<u8> {
    let d1 = if desc & 0x20 == 0 {
        crate::tgaimage::flip_v_seq(d, w, h, bpp)
    } else {
        d
    };
    if desc & 0x10 != 0 {
        crate::tgaimage::flip_h_seq(d1, w, bpp)
    } else {
        d1
    }
}

/// What reading a binary container stream yields: width, height, bytes per
/// pixel, and the pixel buffer with the descriptor's flips applied; or the
/// error the stream deserves. A short stream is truncation; an unknown
/// image-type code, a zero dimension or an unsupported depth is invalid
/// data, and pixel data is decoded raw or run-length by the type code.
pub open spec fn tga_read_spec(bytes: Seq<u8>) -> Result<(int, int, int, Seq<u8>), TgaError> {
    if bytes.len() < 18 {
        Err(TgaError::Truncated)
    } else {
        let code = bytes[2];
        let w = bytes[12] as int + 256 * (bytes[13] as int);
        let h = bytes[14] as int + 256 * (bytes[15] as int);
        let bpp = (bytes[16] as int) / 8;
        let desc = bytes[17];
        if w <= 0 || h <= 0 {
            Err(TgaError::InvalidData)
        } else if !(bpp == 1 || bpp == 3 || bpp == 4) {
            Err(TgaError::InvalidData)
        } else if code == 2 || code == 3 {
            if bytes.len() < 18 + w * h * bpp {
                Err(TgaError::Truncated)
            } else {
                Ok(
                    (
                        w,
                        h,
                        bpp,
                        apply_descriptor(bytes.subrange(18, 18 + w * h * bpp), w, h, bpp, desc),
                    ),
                )
            }
        } else if code == 10 || code == 11 {
            match rle_decode(bytes.skip(18), bpp as nat, (w * h) as nat) {
                Some(dr) => Ok((w, h, bpp, apply_descriptor(dr.0, w, h, bpp, desc))),
                None => Err(TgaError::Truncated),
            }
        } else {
            Err(TgaError::InvalidData)
        }
    }
}

/// Errors of the binary container codec.
#[derive(Debug, Clone, Copy, PartialEq, Eq, Structural)]
pub enum TgaError {
    /// The stream ended before the announced data was complete.
    Truncated,
    /// An unrecognized image-type code, a non-positive declared dimension,
    /// or an unsupported pixel depth.
    InvalidData,
}

impl TGAImage {
    /// Whether pixels `a` and `b` of the buffer hold the same bytes.
    fn pixels_equal(&self, a: usize, b: usize) -> (r: bool)
        requires
            a * self.bytespp + self.bytespp <= self.data@.len(),
            b * self.bytespp + self.bytespp <= self.data@.len(),
        ensures
            r <==> pix(self.data@, self.bytespp as nat, a as int) == pix(
                self.data@,
                self.bytespp as nat,
                b as int,
            ),
    {
        let bpp = self.bytespp;
        let n = self.data.len();
        let ghost pa = pix(self.data@, bpp as nat, a as int);
        let ghost pb = pix(self.data@, bpp as nat, b as int);
        let abase = a * bpp;
        let bbase = b * bpp;
        proof {
            assert((a + 1) * bpp == a * bpp + bpp && (b + 1) * bpp == b * bpp + bpp) by (
            nonlinear_arith);
        }
        let mut r = true;
        let mut t: usize = 0;
        while t < bpp
            invariant
                bpp == self.bytespp,
                n == self.data@.len(),
                abase == a * bpp,
                bbase == b * bpp,
                abase + bpp <= n,
                bbase + bpp <= n,
                pa == pix(self.data@, bpp as nat, a as int),
                pb == pix(self.data@, bpp as nat, b as int),
                pa.len() == bpp,
                pb.len() == bpp,
                t <= bpp,
                r <==> forall|u: int| 0 <= u < t ==> pa[u] == pb[u],
            decreases bpp - t,
        {
            proof {
                assert(pa[t as int] == self.data@[abase + t] && pb[t as int] == self.data@[bbase
                    + t]) by {
                    assert((a + 1) * bpp == a * bpp + bpp && (b + 1) * bpp == b * bpp + bpp) by (
                    nonlinear_arith);
                }
            }
            if self.data[abase + t] != self.data[bbase + t] {
                r = false;
            }
            t += 1;
        }
        proof {
            if r {
                assert(pa =~= pb);
            } else {
                assert(pa != pb) by {
                    let u = choose|u: int| 0 <= u < bpp && pa[u] != pb[u];
                    assert(pa[u] != pb[u]);
                }
            }
        }
        r
    }

    /// Run-length encodes the pixel buffer. Neighboring pixels are grouped
    /// into runs of at most 128: a run is raw while successive pixels differ
    /// and packeted while they repeat, the classification locked in by the
    /// first comparison. Decoding the result restores the buffer exactly.
    #[verifier::rlimit(50)]
    pub fn unload_rle_data(&self) -> (out: Vec<u8>)
        requires
            self.wf(),
        ensures
            rle_decode(out@, self.bytespp as nat, (self.width * self.height) as nat) == Some(
                (self.data@, Seq::<u8>::empty()),
            ),
    {
        let bpp = self.bytespp;
        let w = self.width as usize;
        let h = self.height as usize;
        let n = self.data.len();
        proof {
            assert(w * h <= n && (w * h) * bpp == n) by (nonlinear_arith)
                requires
                    0 <= w,
                    0 <= h,
                    1 <= bpp,
                    n == w * h * bpp,
            ;
        }
        let npixels: usize = w * h;
        let mut out: Vec<u8> = Vec::new();
        let mut curpix: usize = 0;
        proof {
            assert(self.data@.subrange(0, 0) =~= Seq::<u8>::empty());
        }
        while curpix < npixels
            invariant
                self.wf(),
                bpp == self.bytespp,
                n == self.data@.len(),
                1 <= bpp <= 4,
                npixels * bpp == n,
                npixels <= n,
                curpix <= npixels,
                rle_decode(out@, bpp as nat, curpix as nat) == Some(
                    (self.data@.subrange(0, curpix * bpp), Seq::<u8>::empty()),
                ),
            decreases npixels - curpix,
        {
            proof {
                assert(curpix * bpp + bpp <= npixels * bpp) by (nonlinear_arith)
                    requires
                        curpix < npixels,
                        1 <= bpp,
                ;
            }
            let chunkstart = curpix * bpp;
            let mut run_length: usize = 1;
            let mut raw = true;
            while curpix + run_length < npixels && run_length < 128
                invariant
                    self.wf(),
                    bpp == self.bytespp,
                    n == self.data@.len(),
                    1 <= bpp <= 4,
                    npixels * bpp == n,
                    curpix < npixels,
                    1 <= run_length <= 128,
                    curpix + run_length <= npixels,
                    !raw ==> forall|j: int|
                        curpix < j < curpix + run_length ==> pix(self.data@, bpp as nat, j) == pix(
                            self.data@,
                            bpp as nat,
                            curpix as int,
                        ),
                ensures
                    1 <= run_length <= 128,
                    curpix + run_length <= npixels,
                    !raw ==> forall|j: int|
                        curpix < j < curpix + run_length ==> pix(self.data@, bpp as nat, j) == pix(
                            self.data@,
                            bpp as nat,
                            curpix as int,
                        ),
                decreases npixels - curpix - run_length,
            {
                proof {
                    assert((curpix + run_length - 1) * bpp + bpp <= n && (curpix + run_length)
                        * bpp + bpp <= n) by (nonlinear_arith)
                        requires
                            curpix + run_length < npixels,
                            npixels * bpp == n,
                            1 <= bpp,
                            1 <= run_length,
                    ;
                }
                let succ_eq = self.pixels_equal(
                    curpix + run_length - 1,
                    curpix + run_length,
                );
                if run_length == 1 {
                    raw = !succ_eq;
                }
                if raw && succ_eq {
                    run_length = run_length - 1;
                    break ;
                }
                if !raw && !succ_eq {
                    break ;
                }
                run_length += 1;
            }
            let ghost out0 = out@;
            let ghost seg = self.data@.subrange(
                chunkstart as int,
                chunkstart + run_length * bpp,
            );
            proof {
                assert(chunkstart + run_length * bpp <= n && run_length * bpp <= 512) by (
                nonlinear_arith)
                    requires
                        chunkstart == curpix * bpp,
                        curpix + run_length <= npixels,
                        npixels * bpp == n,
                        1 <= run_length <= 128,
                        1 <= bpp <= 4,
                ;
            }
            if raw {
                out.push((run_length - 1) as u8);
                let mut j: usize = 0;
                while j < run_length * bpp
                    invariant
                        self.wf(),
                        bpp == self.bytespp,
                        n == self.data@.len(),
                        chunkstart + run_length * bpp <= n,
                        j <= run_length * bpp,
                        out@ == out0 + seq![(run_length - 1) as u8] + self.data@.subrange(
                            chunkstart as int,
                            chunkstart + j,
                        ),
                        1 <= run_length <= 128,
                    decreases run_length * bpp - j,
                {
                    out.push(self.data[chunkstart + j]);
                    proof {
                        assert(out@ =~= out0 + seq![(run_length - 1) as u8]
                            + self.data@.subrange(chunkstart as int, chunkstart + j + 1));
                    }
                    j += 1;
                }
                proof {
                    let c = seq![(run_length - 1) as u8] + seg;
                    assert(out@ =~= out0 + c);
                    assert(c[0] == (run_length - 1) as u8);
                    assert(c.subrange(1, 1 + (run_length * bpp) as int) =~= seg);
                    lemma_rle_raw_chunk(c, bpp as nat, run_length as nat);
                    assert(out@.skip(out0.len() as int) =~= c);
                    assert(rle_decode(out@.skip(out0.len() as int), bpp as nat, run_length as nat)
                        == Some((seg, Seq::<u8>::empty())));
                }
            } else {
                out.push((run_length + 127) as u8);
                let mut j: usize = 0;
                while j < bpp
                    invariant
                        self.wf(),
                        bpp == self.bytespp,
                        n == self.data@.len(),
                        chunkstart + bpp <= n,
                        j <= bpp,
                        out@ == out0 + seq![(run_length + 127) as u8] + self.data@.subrange(
                            chunkstart as int,
                            chunkstart + j,
                        ),
                        1 <= run_length <= 128,
                    decreases bpp - j,
                {
                    out.push(self.data[chunkstart + j]);
                    proof {
                        assert(out@ =~= out0 + seq![(run_length + 127) as u8]
                            + self.data@.subrange(chunkstart as int, chunkstart + j + 1));
                    }
                    j += 1;
                }
                proof {
                    let p = self.data@.subrange(chunkstart as int, chunkstart + bpp);
                    let c = seq![(run_length + 127) as u8] + p;
                    assert(out@ =~= out0 + c);
                    assert(c[0] == (run_length + 127) as u8);
                    assert(c.subrange(1, 1 + bpp as int) =~= p);
                    lemma_rle_packet_chunk(c, bpp as nat, run_length as nat);
                    assert(seg == repeat_pix(p, run_length as nat)) by {
                        assert(seg.len() == run_length * bpp);
                        assert forall|jj: int| 0 <= jj < run_length implies #[trigger] seg.subrange(
                            jj * bpp,
                            (jj + 1) * bpp,
                        ) == p by {
                            assert(0 <= jj * bpp && (jj + 1) * bpp == jj * bpp + bpp && (jj + 1)
                                * bpp <= run_length * bpp && (curpix + jj) * bpp == chunkstart + jj
                                * bpp && (curpix + jj + 1) * bpp == chunkstart + jj * bpp + bpp) by (
                            nonlinear_arith)
                                requires
                                    0 <= jj < run_length,
                                    0 <= bpp,
                                    chunkstart == curpix * bpp,
                            ;
                            assert(seg.subrange(jj * bpp, (jj + 1) * bpp) =~= pix(
                                self.data@,
                                bpp as nat,
                                curpix + jj,
                            ));
                            if jj == 0 {
                                assert(pix(self.data@, bpp as nat, curpix + jj) =~= p);
                            } else {
                                assert(pix(self.data@, bpp as nat, curpix + jj) == pix(
                                    self.data@,
                                    bpp as nat,
                                    curpix as int,
                                ));
                                assert(pix(self.data@, bpp as nat, curpix as int) =~= p);
                            }
                        }
                        lemma_repeat_pix_char(seg, p, bpp as nat, run_length as nat);
                    }
                    assert(out@.skip(out0.len() as int) =~= c);
                    assert(rle_decode(out@.skip(out0.len() as int), bpp as nat, run_length as nat)
                        == Some((seg, Seq::<u8>::empty())));
                }
            }
            proof {
                let c = out@.skip(out0.len() as int);
                assert(out@ =~= out0 + c);
                lemma_rle_decode_extend(out0, c, bpp as nat, curpix as nat);
                assert(Seq::<u8>::empty() + c =~= c);
                lemma_rle_decode_compose(out0 + c, bpp as nat, curpix as nat, run_length as nat);
                assert(self.data@.subrange(0, curpix * bpp) + seg =~= self.data@.subrange(
                    0,
                    (curpix + run_length) * bpp,
                )) by {
                    assert((curpix + run_length) * bpp == curpix * bpp + run_length * bpp) by (
                    nonlinear_arith);
                }
            }
            curpix += run_length;
        }
        proof {
            assert(curpix * bpp == n) by (nonlinear_arith)
                requires
                    curpix == npixels,
                    npixels * bpp == n,
            ;
            assert(self.data@.subrange(0, curpix * bpp) =~= self.data@);
            assert((self.width * self.height) as nat == curpix as nat);
        }
        out
    }

    /// Decodes `npix` run-length encoded pixels of `bpp` bytes each from
    /// `data`, starting at byte `pos`. On success yields the decoded pixel
    /// bytes and the position just past the consumed chunks; fails exactly
    /// when the stream is truncated or a run overshoots the pixel count.
    #[verifier::rlimit(50)]
    pub fn load_rle_data(data: &[u8], pos: usize, bpp: usize, npix: usize) -> (r: Result<
        (Vec<u8>, usize),
        TgaError,
    >)
        requires
            pos <= data@.len(),
            1 <= bpp <= 4,
        ensures
            r is Ok <==> rle_decode(data@.skip(pos as int), bpp as nat, npix as nat) is Some,
            r matches Ok(dp) ==> {
                &&& rle_decode(data@.skip(pos as int), bpp as nat, npix as nat) == Some(
                    (dp.0@, data@.skip(dp.1 as int)),
                )
                &&& pos <= dp.1 <= data@.len()
                &&& dp.0@.len() == npix * bpp
            },
            r is Err ==> r == Err::<(Vec<u8>, usize), TgaError>(TgaError::Truncated),
    {
        let n = data.len();
        let mut out: Vec<u8> = Vec::new();
        let mut curpix: usize = 0;
        let mut p: usize = pos;
        while curpix < npix
            invariant
                1 <= bpp <= 4,
                n == data@.len(),
                pos <= p <= n,
                curpix <= npix,
                out@.len() == curpix * bpp,
                rle_decode(data@.skip(pos as int), bpp as nat, npix as nat) == (
                match rle_decode(data@.skip(p as int), bpp as nat, (npix - curpix) as nat) {
                    Some(dr) => Some((out@ + dr.0, dr.1)),
                    None => None,
                }),
            decreases npix - curpix,
        {
            let ghost s_old = data@.skip(p as int);
            let ghost rem_old = (npix - curpix) as nat;
            if p >= n {
                proof {
                    assert(s_old.len() == 0);
                    assert(rle_decode(s_old, bpp as nat, rem_old) is None);
                }
                return Err(TgaError::Truncated);
            }
            let header = data[p];
            let k: usize = if header < 128 {
                header as usize + 1
            } else {
                header as usize - 127
            };
            proof {
                assert(s_old[0] == data@[p as int]);
            }
            if k > npix - curpix {
                proof {
                    assert(rle_decode(s_old, bpp as nat, rem_old) is None);
                }
                return Err(TgaError::Truncated);
            }
            if header < 128 {
                proof {
                    assert(k * bpp <= 512) by (nonlinear_arith)
                        requires
                            k <= 128,
                            bpp <= 4,
                    ;
                }
                if n - p < 1 + k * bpp {
                    proof {
                        assert(rle_decode(s_old, bpp as nat, rem_old) is None);
                    }
                    return Err(TgaError::Truncated);
                }
                let ghost out0 = out@;
                let mut j: usize = 0;
                while j < k * bpp
                    invariant
                        n == data@.len(),
                        p + 1 + k * bpp <= n,
                        j <= k * bpp,
                        out@ == out0 + data@.subrange(p + 1, p + 1 + j),
                    decreases k * bpp - j,
                {
                    out.push(data[p + 1 + j]);
                    proof {
                        assert(out@ =~= out0 + data@.subrange(p + 1, p + 1 + j + 1));
                    }
                    j += 1;
                }
                proof {
                    let pixbytes = s_old.subrange(1, 1 + (k * bpp) as int);
                    assert(pixbytes =~= data@.subrange(p + 1, p + 1 + (k * bpp) as int));
                    assert(s_old.skip(1 + (k * bpp) as int) =~= data@.skip(
                        p + 1 + (k * bpp) as int,
                    ));
                    let s_new = data@.skip(p + 1 + (k * bpp) as int);
                    let rem_new = (npix - curpix - k) as nat;
                    assert(rle_decode(s_old, bpp as nat, rem_old) == (
                    match rle_decode(s_new, bpp as nat, rem_new) {
                        Some(dr) => Some((pixbytes + dr.0, dr.1)),
                        None => None,
                    }));
                    if rle_decode(s_new, bpp as nat, rem_new) is Some {
                        let dr = rle_decode(s_new, bpp as nat, rem_new)->Some_0;
                        assert((out0 + pixbytes) + dr.0 =~= out0 + (pixbytes + dr.0));
                    }
                    assert((curpix + k) * bpp == curpix * bpp + k * bpp) by (nonlinear_arith);
                }
                p += 1 + k * bpp;
                curpix += k;
            } else {
                if n - p < 1 + bpp {
                    proof {
                        assert(rle_decode(s_old, bpp as nat, rem_old) is None);
                    }
                    return Err(TgaError::Truncated);
                }
                let ghost out0 = out@;
                let ghost pixbytes = data@.subrange(p + 1, p + 1 + bpp);
                let mut rep: usize = 0;
                while rep < k
                    invariant
                        n == data@.len(),
                        1 <= bpp <= 4,
                        p + 1 + bpp <= n,
                        rep <= k <= 128,
                        pixbytes == data@.subrange(p + 1, p + 1 + bpp),
                        out@ == out0 + repeat_pix(pixbytes, rep as nat),
                    decreases k - rep,
                {
                    let ghost mid = out@;
                    let mut j: usize = 0;
                    while j < bpp
                        invariant
                            n == data@.len(),
                            p + 1 + bpp <= n,
                            j <= bpp,
                            pixbytes == data@.subrange(p + 1, p + 1 + bpp),
                            out@ == mid + data@.subrange(p + 1, p + 1 + j),
                        decreases bpp - j,
                    {
                        out.push(data[p + 1 + j]);
                        proof {
                            assert(out@ =~= mid + data@.subrange(p + 1, p + 1 + j + 1));
                        }
                        j += 1;
                    }
                    proof {
                        lemma_repeat_pix_snoc(pixbytes, rep as nat);
                        assert(out@ =~= out0 + repeat_pix(pixbytes, (rep + 1) as nat));
                    }
                    rep += 1;
                }
                proof {
                    assert(s_old.subrange(1, 1 + bpp as int) =~= pixbytes);
                    assert(s_old.skip(1 + bpp as int) =~= data@.skip(p + 1 + bpp));
                    let s_new = data@.skip(p + 1 + bpp);
                    let rem_new = (npix - curpix - k) as nat;
                    let reps = repeat_pix(pixbytes, k as nat);
                    assert(rle_decode(s_old, bpp as nat, rem_old) == (
                    match rle_decode(s_new, bpp as nat, rem_new) {
                        Some(dr) => Some((reps + dr.0, dr.1)),
                        None => None,
                    }));
                    if rle_decode(s_new, bpp as nat, rem_new) is Some {
                        let dr = rle_decode(s_new, bpp as nat, rem_new)->Some_0;
                        assert((out0 + reps) + dr.0 =~= out0 + (reps + dr.0));
                    }
                    lemma_repeat_pix_len(pixbytes, k as nat);
                    assert((curpix + k) * bpp == curpix * bpp + k * bpp) by (nonlinear_arith);
                }
                p += 1 + bpp;
                curpix += k;
            }
        }
        proof {
            assert(rle_decode(data@.skip(p as int), bpp as nat, 0) == Some(
                (Seq::<u8>::empty(), data@.skip(p as int)),
            ));
            assert(out@ + Seq::<u8>::empty() =~= out@);
            assert(curpix * bpp == npix * bpp);
        }
        Ok((out, p))
    }

    /// The serialized 18-byte header of this image.
    fn header_bytes(&self, rle: bool) -> (v: Vec<u8>)
        requires
            self.wf(),
        ensures
            v@ == tga_header(
                tga_type_code(self.bytespp as int, rle),
                self.width as int,
                self.height as int,
                self.bytespp as int,
            ),
    {
        let mut v: Vec<u8> = Vec::new();
        let code: u8 = if self.bytespp == 1 {
            if rle {
                11
            } else {
                3
            }
        } else {
            if rle {
                10
            } else {
                2
            }
        };
        v.push(0);
        v.push(0);
        v.push(code);
        v.push(0);
        v.push(0);
        v.push(0);
        v.push(0);
        v.push(0);
        v.push(0);
        v.push(0);
        v.push(0);
        v.push(0);
        v.push((self.width % 256) as u8);
        v.push((self.width / 256) as u8);
        v.push((self.height % 256) as u8);
        v.push((self.height / 256) as u8);
        v.push((self.bytespp * 8) as u8);
        v.push(0x20);
        proof {
            assert(v@ =~= tga_header(
                tga_type_code(self.bytespp as int, rle),
                self.width as int,
                self.height as int,
                self.bytespp as int,
            ));
        }
        v
    }

    /// The serialized 26-byte footer.
    fn footer_bytes() -> (v: Vec<u8>)
        ensures
            v@ == tga_footer(),
    {
        let mut v: Vec<u8> = Vec::new();
        v.push(0);
        v.push(0);
        v.push(0);
        v.push(0);
        v.push(0);
        v.push(0);
        v.push(0);
        v.push(0);
        v.push(84);
        v.push(82);
        v.push(85);
        v.push(69);
        v.push(86);
        v.push(73);
        v.push(83);
        v.push(73);
        v.push(79);
        v.push(78);
        v.push(45);
        v.push(88);
        v.push(70);
        v.push(73);
        v.push(76);
        v.push(69);
        v.push(46);
        v.push(0);
        proof {
            assert(v@ =~= tga_footer());
        }
        v
    }

    /// Appends every byte of `src` to `dst`.
    fn append_bytes(dst: &mut Vec<u8>, src: &Vec<u8>)
        ensures
            final(dst)@ == old(dst)@ + src@,
    {
        let ghost d0 = dst@;
        let n = src.len();
        let mut i: usize = 0;
        while i < n
            invariant
                n == src@.len(),
                i <= n,
                dst@ == d0 + src@.subrange(0, i as int),
            decreases n - i,
        {
            dst.push(src[i]);
            proof {
                assert(dst@ =~= d0 + src@.subrange(0, i + 1));
            }
            i += 1;
        }
        proof {
            assert(src@.subrange(0, n as int) =~= src@);
        }
    }

    /// Serializes the image: the 18-byte header, the pixel data (raw, or
    /// run-length encoded when `rle` is set), and the 26-byte footer.
    pub fn write_tga_file(&self, rle: bool) -> (out: Vec<u8>)
        requires
            self.wf(),
        ensures
            out@.len() >= 44,
            out@ == tga_header(
                tga_type_code(self.bytespp as int, rle),
                self.width as int,
                self.height as int,
                self.bytespp as int,
            ) + out@.subrange(18, out@.len() - 26) + tga_footer(),
            !rle ==> out@.subrange(18, out@.len() - 26) == self.data@,
            rle ==> rle_decode(
                out@.subrange(18, out@.len() - 26),
                self.bytespp as nat,
                (self.width * self.height) as nat,
            ) == Some((self.data@, Seq::<u8>::empty())),
    {
        let mut out = self.header_bytes(rle);
        let ghost hdr = out@;
        if !rle {
            TGAImage::append_bytes(&mut out, &self.data);
            proof {
                assert(out@.skip(18) =~= self.data@);
            }
        } else {
            let payload = self.unload_rle_data();
            TGAImage::append_bytes(&mut out, &payload);
            proof {
                assert(out@.skip(18) =~= payload@);
            }
        }
        let ghost body = out@.skip(18);
        proof {
            assert(out@ =~= hdr + body);
        }
        let footer = TGAImage::footer_bytes();
        TGAImage::append_bytes(&mut out, &footer);
        proof {
            assert(out@ =~= hdr + body + tga_footer());
            assert(out@.subrange(18, out@.len() - 26) =~= body);
        }
        out
    }

    /// Parses a serialized image and replaces this image with it: header,
    /// pixel data (raw or run-length encoded by the type code), and the
    /// descriptor's origin flips. On any error the image is left in its
    /// prior state.
    pub fn read_tga_file(&mut self, stream: &[u8]) -> (r: Result<(), TgaError>)
        ensures
            match tga_read_spec(stream@) {
                Ok(parsed) => {
                    &&& r is Ok
                    &&& final(self).width == parsed.0
                    &&& final(self).height == parsed.1
                    &&& final(self).bytespp == parsed.2
                    &&& final(self).data@ == parsed.3
                    &&& final(self).wf()
                },
                Err(e) => r == Err::<(), TgaError>(e) && *final(self) == *old(self),
            },
    {
        if stream.len() < 18 {
            return Err(TgaError::Truncated);
        }
        let code = stream[2];
        let w: i32 = stream[12] as i32 + 256 * (stream[13] as i32);
        let h: i32 = stream[14] as i32 + 256 * (stream[15] as i32);
        let bits = stream[16];
        let bpp: usize = (bits >> 3) as usize;
        let desc = stream[17];
        proof {
            assert(bits >> 3 == bits / 8) by (bit_vector);
        }
        if w <= 0 || h <= 0 {
            return Err(TgaError::InvalidData);
        }
        if !(bpp == 1 || bpp == 3 || bpp == 4) {
            return Err(TgaError::InvalidData);
        }
        proof {
            assert(0 <= (w as int) * (h as int) <= 0xFFFF * 0xFFFF && 0 <= (w as int) * (h as int)
                * 4 <= 0xFFFF * 0xFFFF * 4) by (nonlinear_arith)
                requires
                    0 < w <= 0xFFFF,
                    0 < h <= 0xFFFF,
            ;
        }
        let npix: usize = (w as usize) * (h as usize);
        let slen = stream.len();
        let newdata: Vec<u8>;
        if code == 2 || code == 3 {
            proof {
                assert(npix * bpp <= npix * 4) by (nonlinear_arith)
                    requires
                        bpp <= 4,
                        0 <= npix,
                ;
            }
            let nbytes64: u64 = (npix as u64) * (bpp as u64);
            if ((stream.len() - 18) as u64) < nbytes64 {
                proof {
                    assert(stream@.len() < 18 + w * h * bpp) by (nonlinear_arith)
                        requires
                            stream@.len() - 18 < nbytes64,
                            nbytes64 == npix * bpp,
                            npix == w * h,
                    ;
                }
                return Err(TgaError::Truncated);
            }
            let nbytes: usize = nbytes64 as usize;
            let mut d: Vec<u8> = Vec::new();
            let mut i: usize = 0;
            while i < nbytes
                invariant
                    slen == stream@.len(),
                    18 + nbytes <= slen,
                    i <= nbytes,
                    d@ == stream@.subrange(18, 18 + i as int),
                decreases nbytes - i,
            {
                d.push(stream[18 + i]);
                proof {
                    assert(d@ =~= stream@.subrange(18, 18 + i + 1));
                }
                i += 1;
            }
            proof {
                assert(18 + w * h * bpp <= stream@.len() && nbytes == w * h * bpp) by (
                nonlinear_arith)
                    requires
                        nbytes == npix * bpp,
                        npix == w * h,
                        18 + nbytes <= stream@.len(),
                ;
            }
            newdata = d;
        } else if code == 10 || code == 11 {
            match TGAImage::load_rle_data(stream, 18, bpp, npix) {
                Ok(dp) => {
                    newdata = dp.0;
                },
                Err(e) => {
                    return Err(TgaError::Truncated);
                },
            }
        } else {
            return Err(TgaError::InvalidData);
        }
        proof {
            assert(npix * bpp == w * h * bpp) by (nonlinear_arith)
                requires
                    npix == w * h,
            ;
        }
        self.width = w;
        self.height = h;
        self.bytespp = bpp;
        self.data = newdata;
        if desc & 0x20 == 0 {
            self.flip_vertically();
        }
        if desc & 0x10 != 0 {
            self.flip_horizontally();
        }
        Ok(())
    }
}

/// Saving and loading round-trip: a stream framed with the container's
/// header and footer reads back to exactly the pixel buffer it was written
/// from, whether the payload is raw or run-length encoded. In particular,
/// the compressed and the uncompressed serialization of one image load back
/// identically.
pub proof fn lemma_save_load_round_trip(
    w: int,
    h: int,
    bpp: int,
    data: Seq<u8>,
    payload: Seq<u8>,
    rle: bool,
)
    requires
        1 <= w <= 0xFFFF,
        1 <= h <= 0xFFFF,
        bpp == 1 || bpp == 3 || bpp == 4,
        data.len() == w * h * bpp,
        rle ==> rle_decode(payload, bpp as nat, (w * h) as nat) == Some(
            (data, Seq::<u8>::empty()),
        ),
        !rle ==> payload == data,
    ensures
        tga_read_spec(tga_header(tga_type_code(bpp, rle), w, h, bpp) + payload + tga_footer())
            == Ok::<(int, int, int, Seq<u8>), TgaError>((w, h, bpp, data)),
{
    let code = tga_type_code(bpp, rle);
    let hdr = tga_header(code, w, h, bpp);
    let s = hdr + payload + tga_footer();
    assert(s.len() == 44 + payload.len());
    assert(s[2] == code && s[12] == (w % 256) as u8 && s[13] == (w / 256) as u8 && s[14] == (h
        % 256) as u8 && s[15] == (h / 256) as u8 && s[16] == (8 * bpp) as u8 && s[17] == 0x20u8);
    vstd::arithmetic::div_mod::lemma_fundamental_div_mod(w, 256);
    vstd::arithmetic::div_mod::lemma_fundamental_div_mod(h, 256);
    vstd::arithmetic::div_mod::lemma_mod_bound(w, 256);
    vstd::arithmetic::div_mod::lemma_mod_bound(h, 256);
    assert(s[12] as int + 256 * (s[13] as int) == w && s[14] as int + 256 * (s[15] as int) == h);
    assert((s[16] as int) / 8 == bpp);
    assert(0x20u8 & 0x20u8 == 0x20u8) by (bit_vector);
    assert(0x20u8 & 0x10u8 == 0u8) by (bit_vector);
    if rle {
        assert(code == 10 || code == 11);
        assert(s.skip(18) =~= payload + tga_footer());
        lemma_rle_decode_extend(payload, tga_footer(), bpp as nat, (w * h) as nat);
        assert(Seq::<u8>::empty() + tga_footer() =~= tga_footer());
        assert(rle_decode(s.skip(18), bpp as nat, (w * h) as nat) == Some(
            (data, tga_footer()),
        ));
        assert(apply_descriptor(data, w, h, bpp, 0x20u8) == data);
    } else {
        assert(code == 2 || code == 3);
        assert(s.len() >= 18 + w * h * bpp);
        assert(s.subrange(18, 18 + w * h * bpp) =~= data);
        assert(apply_descriptor(s.subrange(18, 18 + w * h * bpp), w, h, bpp, 0x20u8)
            == s.subrange(18, 18 + w * h * bpp));
    }
}

} // verus!
